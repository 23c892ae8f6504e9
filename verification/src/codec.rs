use vstd::prelude::*;

verus! {

/// The four big-endian bytes of `x`.
pub open spec fn be_u32_bytes(x: u32) -> Seq<u8> {
    seq![
        (x / 0x100_0000) as u8,
        (x / 0x1_0000 % 0x100) as u8,
        (x / 0x100 % 0x100) as u8,
        (x % 0x100) as u8,
    ]
}

/// The number whose big-endian bytes are the first four of `b`.
pub open spec fn be_u32_value(b: Seq<u8>) -> int {
    b[0] * 0x100_0000 + b[1] * 0x1_0000 + b[2] * 0x100 + b[3]
}

/// A frame: the payload's length as a big-endian `u32` (truncated as a cast
/// truncates), then the payload.
pub open spec fn frame_bytes(payload: Seq<u8>) -> Seq<u8> {
    be_u32_bytes(payload.len() as u32) + payload
}

/// Frames a serialized message for the wire.
pub fn frame_payload(payload: &[u8]) -> (r: Vec<u8>)
    ensures
        r@ == frame_bytes(payload@),
{
    let len = payload.len() as u32;
    let mut out: Vec<u8> = Vec::new();
    out.push((len / 0x100_0000) as u8);
    out.push((len / 0x1_0000 % 0x100) as u8);
    out.push((len / 0x100 % 0x100) as u8);
    out.push((len % 0x100) as u8);
    let mut i: usize = 0;
    while i < payload.len()
        invariant
            i <= payload@.len(),
            len == payload@.len() as u32,
            out@ == be_u32_bytes(len) + payload@.take(i as int),
        decreases payload@.len() - i,
    {
        out.push(payload[i]);
        assert(payload@.take(i + 1) =~= payload@.take(i as int).push(payload@[i as int]));
        assert(out@ =~= be_u32_bytes(len) + payload@.take(i + 1));
        i = i + 1;
    }
    assert(payload@.take(payload@.len() as int) =~= payload@);
    out
}

/// The payload length announced by a frame header.
pub fn frame_payload_len(header: &[u8]) -> (r: usize)
    requires
        header@.len() == 4,
    ensures
        r == be_u32_value(header@),
{
    let b0 = header[0] as usize;
    let b1 = header[1] as usize;
    let b2 = header[2] as usize;
    let b3 = header[3] as usize;
    assert(b0 * 0x100_0000 + b1 * 0x1_0000 + b2 * 0x100 + b3 <= 0xffff_ffff) by (nonlinear_arith)
        requires
            b0 < 256,
            b1 < 256,
            b2 < 256,
            b3 < 256,
    ;
    b0 * 0x100_0000 + b1 * 0x1_0000 + b2 * 0x100 + b3
}

/// A frame's header announces exactly the length of the payload it carries,
/// for any payload shorter than 4 GiB.
pub proof fn lemma_frame_round_trip(payload: Seq<u8>)
    requires
        payload.len() <= u32::MAX,
    ensures
        frame_bytes(payload).subrange(0, 4) == be_u32_bytes(payload.len() as u32),
        frame_bytes(payload).subrange(4, frame_bytes(payload).len() as int) == payload,
        be_u32_value(frame_bytes(payload)) == payload.len(),
{
    let x = payload.len() as u32;
    let b = be_u32_bytes(x);
    assert(frame_bytes(payload).subrange(0, 4) =~= b);
    assert(frame_bytes(payload).subrange(4, frame_bytes(payload).len() as int) =~= payload);
    assert((x / 0x100_0000) as u8 as int * 0x100_0000 + (x / 0x1_0000 % 0x100) as u8 as int * 0x1_0000
        + (x / 0x100 % 0x100) as u8 as int * 0x100 + (x % 0x100) as u8 as int == x) by (bit_vector);
}

} // verus!
