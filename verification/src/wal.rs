use vstd::prelude::*;
use vstd::bytes::{
    spec_u32_from_le_bytes, spec_u32_to_le_bytes, spec_u64_from_le_bytes, spec_u64_to_le_bytes,
    u32_from_le_bytes, u32_to_le_bytes, u64_from_le_bytes, u64_to_le_bytes,
};
use crate::message::{entries_view, EntryView, LogEntry};
use crate::types::{LogIndex, NodeId, Term};

verus! {

/// `k` rounds of the reflected CRC-32 register update (polynomial 0xEDB88320).
pub open spec fn crc32_shift(c: u32, k: nat) -> u32
    decreases k,
{
    if k == 0 {
        c
    } else {
        let c1 = crc32_shift(c, (k - 1) as nat);
        if c1 & 1u32 == 1u32 {
            (c1 >> 1u32) ^ 0xEDB8_8320u32
        } else {
            c1 >> 1u32
        }
    }
}

/// The CRC-32 register after `data`, starting from all ones.
pub open spec fn crc32_register(data: Seq<u8>) -> u32
    decreases data.len(),
{
    if data.len() == 0 {
        0xFFFF_FFFFu32
    } else {
        crc32_shift(crc32_register(data.drop_last()) ^ (data.last() as u32), 8)
    }
}

/// The CRC-32 (IEEE) checksum of a byte string: the register after the data,
/// with every bit flipped.
pub open spec fn crc32_of(data: Seq<u8>) -> u32 {
    crc32_register(data) ^ 0xFFFF_FFFFu32
}

/// The checksum of no bytes is 0.
pub proof fn lemma_crc32_empty()
    ensures
        crc32_of(Seq::empty()) == 0,
{
    assert(0xFFFF_FFFFu32 ^ 0xFFFF_FFFFu32 == 0u32) by (bit_vector);
}

/// Calls `crc32fast::hash`, which computes the CRC-32 (IEEE) checksum of
/// exactly these bytes.
#[verifier::external_body]
fn crc32(data: &[u8]) -> (r: u32)
    ensures
        r == crc32_of(data@),
{
    crc32fast::hash(data)
}

/// The size of a disk sector: every direct write covers whole sectors.
pub const SECTOR_SIZE: usize = 4096;

/// `size` rounded up to a whole number of sectors.
pub fn sector_round_up(size: usize) -> (r: usize)
    requires
        size + SECTOR_SIZE - 1 <= usize::MAX,
    ensures
        r % SECTOR_SIZE == 0,
        size <= r < size + SECTOR_SIZE,
{
    let r = (size + (SECTOR_SIZE - 1)) / SECTOR_SIZE * SECTOR_SIZE;
    assert(r % 4096 == 0 && size <= r < size + 4096) by (nonlinear_arith)
        requires
            r == (size + 4095) / 4096 * 4096,
    ;
    r
}

/// The bytes of one log record: index, term, command length (as a `u32`),
/// command, and the checksum of the command, little-endian.
pub open spec fn record_bytes(e: EntryView) -> Seq<u8> {
    spec_u64_to_le_bytes(e.index) + spec_u64_to_le_bytes(e.term) + spec_u32_to_le_bytes(
        e.command.len() as u32,
    ) + e.command + spec_u32_to_le_bytes(crc32_of(e.command))
}

/// The records of `es`, one after another.
pub open spec fn wal_bytes(es: Seq<EntryView>) -> Seq<u8>
    decreases es.len(),
{
    if es.len() == 0 {
        Seq::empty()
    } else {
        wal_bytes(es.drop_last()) + record_bytes(es.last())
    }
}

pub open spec fn read_u64_at(d: Seq<u8>, off: int) -> u64 {
    spec_u64_from_le_bytes(d.subrange(off, off + 8))
}

pub open spec fn read_u32_at(d: Seq<u8>, off: int) -> u32 {
    spec_u32_from_le_bytes(d.subrange(off, off + 4))
}

/// The entries read back from `d` starting at byte `off`: records are read
/// one after another until the bytes run out, a record is cut short, or a
/// command fails its checksum.
pub open spec fn wal_entries_from(d: Seq<u8>, off: int) -> Seq<EntryView>
    decreases d.len() - off,
{
    if off < 0 || off + 24 > d.len() {
        Seq::empty()
    } else {
        let len = read_u32_at(d, off + 16) as int;
        if off + 24 + len > d.len() {
            Seq::empty()
        } else {
            let command = d.subrange(off + 20, off + 20 + len);
            if crc32_of(command) != read_u32_at(d, off + 20 + len) {
                Seq::empty()
            } else {
                seq![
                    EntryView {
                        index: read_u64_at(d, off),
                        term: read_u64_at(d, off + 8),
                        command,
                    },
                ] + wal_entries_from(d, off + 24 + len)
            }
        }
    }
}

/// Encodes entries as consecutive log records.
pub fn encode_entries(entries: &[LogEntry]) -> (r: Vec<u8>)
    ensures
        r@ == wal_bytes(entries_view(entries@)),
{
    let ghost es = entries_view(entries@);
    let mut payload: Vec<u8> = Vec::new();
    let mut i: usize = 0;
    while i < entries.len()
        invariant
            i <= entries@.len(),
            es == entries_view(entries@),
            payload@ == wal_bytes(es.take(i as int)),
        decreases entries@.len() - i,
    {
        let entry = &entries[i];
        let mut b = u64_to_le_bytes(entry.index.0);
        payload.append(&mut b);
        let mut b = u64_to_le_bytes(entry.term.0);
        payload.append(&mut b);
        let mut b = u32_to_le_bytes(entry.command.len() as u32);
        payload.append(&mut b);
        let mut c = entry.command.clone();
        payload.append(&mut c);
        let crc = crc32(entry.command.as_slice());
        let mut b = u32_to_le_bytes(crc);
        payload.append(&mut b);
        proof {
            assert(es[i as int] == entry@);
            assert(es.take(i + 1).drop_last() =~= es.take(i as int));
            assert(es.take(i + 1).last() == entry@);
            assert(payload@ =~= wal_bytes(es.take(i as int)) + record_bytes(entry@));
        }
        i = i + 1;
    }
    assert(es.take(entries@.len() as int) =~= es);
    payload
}

/// Reads back the entries recorded in `data`, stopping at the first record
/// that is cut short or fails its checksum.
pub fn decode_entries(data: &[u8]) -> (r: Vec<LogEntry>)
    ensures
        entries_view(r@) == wal_entries_from(data@, 0),
{
    let ghost d = data@;
    let mut entries: Vec<LogEntry> = Vec::new();
    let mut offset: usize = 0;
    while offset < data.len()
        invariant_except_break
            d == data@,
            offset <= d.len(),
            entries_view(entries@) + wal_entries_from(d, offset as int) == wal_entries_from(d, 0),
        ensures
            entries_view(entries@) == wal_entries_from(d, 0),
        decreases d.len() - offset,
    {
        if data.len() - offset < 24 {
            assert(wal_entries_from(d, offset as int) =~= Seq::<EntryView>::empty());
            assert(entries_view(entries@) + Seq::<EntryView>::empty() =~= entries_view(entries@));
            break;
        }
        let idx = u64_from_le_bytes(vstd::slice::slice_subrange(data, offset, offset + 8));
        let term = u64_from_le_bytes(vstd::slice::slice_subrange(data, offset + 8, offset + 16));
        let len32 = u32_from_le_bytes(vstd::slice::slice_subrange(data, offset + 16, offset + 20));
        let len = len32 as usize;
        if len > data.len() - offset - 24 {
            assert(wal_entries_from(d, offset as int) =~= Seq::<EntryView>::empty());
            assert(entries_view(entries@) + Seq::<EntryView>::empty() =~= entries_view(entries@));
            break;
        }
        let cmd_slice = vstd::slice::slice_subrange(data, offset + 20, offset + 20 + len);
        let expected_crc = u32_from_le_bytes(
            vstd::slice::slice_subrange(data, offset + 20 + len, offset + 24 + len),
        );
        let actual_crc = crc32(cmd_slice);
        if actual_crc != expected_crc {
            assert(wal_entries_from(d, offset as int) =~= Seq::<EntryView>::empty());
            assert(entries_view(entries@) + Seq::<EntryView>::empty() =~= entries_view(entries@));
            break;
        }
        let mut command: Vec<u8> = Vec::new();
        let mut k: usize = 0;
        while k < len
            invariant
                k <= len,
                offset + 20 + len <= cmd_slice@.len() + offset + 20,
                cmd_slice@.len() == len,
                command@ == cmd_slice@.take(k as int),
            decreases len - k,
        {
            command.push(cmd_slice[k]);
            assert(cmd_slice@.take(k + 1) =~= cmd_slice@.take(k as int).push(cmd_slice@[k as int]));
            k = k + 1;
        }
        assert(cmd_slice@.take(len as int) =~= cmd_slice@);
        let e = LogEntry { index: LogIndex(idx), term: Term(term), command };
        let ghost before = entries_view(entries@);
        entries.push(e);
        proof {
            assert(entries_view(entries@) =~= before.push(e@));
            let rest = wal_entries_from(d, offset + 24 + len);
            assert(wal_entries_from(d, offset as int) == seq![e@] + rest);
            assert(before.push(e@) + rest =~= before + (seq![e@] + rest));
        }
        offset = offset + 24 + len;
    }
    entries
}

} // verus!

verus! {

/// The records of a non-empty sequence are its first record followed by the rest.
pub proof fn lemma_wal_bytes_front(es: Seq<EntryView>)
    requires
        es.len() > 0,
    ensures
        wal_bytes(es) == record_bytes(es[0]) + wal_bytes(es.drop_first()),
    decreases es.len(),
{
    if es.len() == 1 {
        assert(es.drop_last() =~= Seq::<EntryView>::empty());
        assert(es.drop_first() =~= Seq::<EntryView>::empty());
        assert(record_bytes(es[0]) + Seq::<u8>::empty() =~= record_bytes(es[0]));
        assert(Seq::<u8>::empty() + record_bytes(es.last()) =~= record_bytes(es[0]));
    } else {
        let d = es.drop_last();
        lemma_wal_bytes_front(d);
        assert(d.drop_first() =~= es.drop_first().drop_last());
        assert(es.drop_first().last() == es.last());
        assert(d[0] == es[0]);
        assert(record_bytes(es[0]) + wal_bytes(d.drop_first()) + record_bytes(es.last())
            =~= record_bytes(es[0]) + (wal_bytes(d.drop_first()) + record_bytes(es.last())));
    }
}

/// What is written is what is read back: the records of entries whose
/// commands fit a `u32` length, found after any prefix, decode to those entries.
pub proof fn lemma_wal_round_trip_after(pre: Seq<u8>, es: Seq<EntryView>)
    requires
        forall|i: int| 0 <= i < es.len() ==> (#[trigger] es[i]).command.len() <= u32::MAX,
    ensures
        wal_entries_from(pre + wal_bytes(es), pre.len() as int) == es,
    decreases es.len(),
{
    vstd::bytes::lemma_auto_spec_u64_to_from_le_bytes();
    vstd::bytes::lemma_auto_spec_u32_to_from_le_bytes();
    let d = pre + wal_bytes(es);
    let off = pre.len() as int;
    if es.len() == 0 {
        assert(d =~= pre);
    } else {
        lemma_wal_bytes_front(es);
        let e = es[0];
        let rest = es.drop_first();
        let r = record_bytes(e);
        let len = e.command.len() as int;
        let pre2 = pre + r;
        assert(d =~= pre2 + wal_bytes(rest));
        assert(r.len() == 24 + len);
        assert(d.subrange(off, off + 8) =~= spec_u64_to_le_bytes(e.index));
        assert(d.subrange(off + 8, off + 16) =~= spec_u64_to_le_bytes(e.term));
        assert(d.subrange(off + 16, off + 20) =~= spec_u32_to_le_bytes(len as u32));
        assert(d.subrange(off + 20, off + 20 + len) =~= e.command);
        assert(d.subrange(off + 20 + len, off + 24 + len) =~= spec_u32_to_le_bytes(
            crc32_of(e.command),
        ));
        assert forall|i: int| 0 <= i < rest.len() implies (#[trigger] rest[i]).command.len()
            <= u32::MAX by {
            assert(rest[i] == es[i + 1]);
        }
        lemma_wal_round_trip_after(pre2, rest);
        assert(seq![e] + rest =~= es);
    }
}

/// Reading is the same wherever the bytes stand: after any prefix, the
/// records from an offset read as they do in the bytes alone.
proof fn lemma_wal_shift(pre: Seq<u8>, d: Seq<u8>, off: int)
    requires
        0 <= off,
    ensures
        wal_entries_from(pre + d, pre.len() + off) == wal_entries_from(d, off),
    decreases d.len() - off,
{
    let x = pre + d;
    let o = pre.len() + off;
    if off + 24 <= d.len() {
        assert(x.subrange(o + 16, o + 20) =~= d.subrange(off + 16, off + 20));
        let len = read_u32_at(d, off + 16) as int;
        if off + 24 + len <= d.len() {
            assert(x.subrange(o, o + 8) =~= d.subrange(off, off + 8));
            assert(x.subrange(o + 8, o + 16) =~= d.subrange(off + 8, off + 16));
            assert(x.subrange(o + 20, o + 20 + len) =~= d.subrange(off + 20, off + 20 + len));
            assert(x.subrange(o + 20 + len, o + 24 + len) =~= d.subrange(
                off + 20 + len,
                off + 24 + len,
            ));
            lemma_wal_shift(pre, d, off + 24 + len);
        }
    }
}

/// Records followed by any bytes read back as the records' entries followed
/// by what those bytes alone read as.
proof fn lemma_wal_round_trip_tail(pre: Seq<u8>, es: Seq<EntryView>, tail: Seq<u8>)
    requires
        forall|i: int| 0 <= i < es.len() ==> (#[trigger] es[i]).command.len() <= u32::MAX,
    ensures
        wal_entries_from(pre + wal_bytes(es) + tail, pre.len() as int) == es + wal_entries_from(tail, 0),
    decreases es.len(),
{
    vstd::bytes::lemma_auto_spec_u64_to_from_le_bytes();
    vstd::bytes::lemma_auto_spec_u32_to_from_le_bytes();
    let d = pre + wal_bytes(es) + tail;
    let off = pre.len() as int;
    if es.len() == 0 {
        assert(d =~= pre + tail);
        lemma_wal_shift(pre, tail, 0);
        assert(es + wal_entries_from(tail, 0) =~= wal_entries_from(tail, 0));
    } else {
        lemma_wal_bytes_front(es);
        let e = es[0];
        let rest = es.drop_first();
        let r = record_bytes(e);
        let len = e.command.len() as int;
        let pre2 = pre + r;
        assert(d =~= pre2 + wal_bytes(rest) + tail);
        assert(r.len() == 24 + len);
        assert(d.subrange(off, off + 8) =~= spec_u64_to_le_bytes(e.index));
        assert(d.subrange(off + 8, off + 16) =~= spec_u64_to_le_bytes(e.term));
        assert(d.subrange(off + 16, off + 20) =~= spec_u32_to_le_bytes(len as u32));
        assert(d.subrange(off + 20, off + 20 + len) =~= e.command);
        assert(d.subrange(off + 20 + len, off + 24 + len) =~= spec_u32_to_le_bytes(
            crc32_of(e.command),
        ));
        assert forall|i: int| 0 <= i < rest.len() implies (#[trigger] rest[i]).command.len()
            <= u32::MAX by {
            assert(rest[i] == es[i + 1]);
        }
        lemma_wal_round_trip_tail(pre2, rest, tail);
        assert(seq![e] + (rest + wal_entries_from(tail, 0)) =~= es + wal_entries_from(tail, 0));
    }
}

/// A log file holding the records of `es` followed by other bytes, such as
/// the zero padding that fills out the last sector of a write, reads back as
/// `es` followed by whatever those bytes alone read as.
pub proof fn lemma_wal_round_trip_padded(es: Seq<EntryView>, tail: Seq<u8>)
    requires
        forall|i: int| 0 <= i < es.len() ==> (#[trigger] es[i]).command.len() <= u32::MAX,
    ensures
        wal_entries_from(wal_bytes(es) + tail, 0) == es + wal_entries_from(tail, 0),
{
    lemma_wal_round_trip_tail(Seq::empty(), es, tail);
    assert(Seq::<u8>::empty() + wal_bytes(es) + tail =~= wal_bytes(es) + tail);
}

/// Replaying a freshly written log gives back exactly the entries written,
/// as long as every command's length fits a `u32`.
pub proof fn lemma_wal_round_trip(es: Seq<EntryView>)
    requires
        forall|i: int| 0 <= i < es.len() ==> (#[trigger] es[i]).command.len() <= u32::MAX,
    ensures
        wal_entries_from(wal_bytes(es), 0) == es,
{
    lemma_wal_round_trip_after(Seq::empty(), es);
    assert(Seq::<u8>::empty() + wal_bytes(es) =~= wal_bytes(es));
}

} // verus!

verus! {

/// The hard-state record is corrupt: its checksum does not match its contents.
#[derive(Debug, Clone, Copy, PartialEq, Eq, Structural)]
pub struct HardStateCorrupted;

/// The number a vote is stored as: the candidate's id, or 0 for no vote.
pub open spec fn vote_code(voted_for: Option<NodeId>) -> u64 {
    match voted_for {
        Some(n) => n.0,
        None => 0,
    }
}

/// The hard-state record: term and vote, little-endian, then the checksum of those 16 bytes.
pub open spec fn hard_state_bytes(term: u64, vote: u64) -> Seq<u8> {
    let body = spec_u64_to_le_bytes(term) + spec_u64_to_le_bytes(vote);
    body + spec_u32_to_le_bytes(crc32_of(body))
}

/// Encodes the term and vote as a hard-state record.
pub fn encode_hard_state(term: Term, voted_for: Option<NodeId>) -> (r: Vec<u8>)
    ensures
        r@ == hard_state_bytes(term.0, vote_code(voted_for)),
{
    let voted_val = match voted_for {
        Some(n) => n.0,
        None => 0,
    };
    let mut buf = u64_to_le_bytes(term.0);
    let mut v = u64_to_le_bytes(voted_val);
    buf.append(&mut v);
    let checksum = crc32(buf.as_slice());
    let mut c = u32_to_le_bytes(checksum);
    buf.append(&mut c);
    buf
}

/// Decodes a hard-state record: the term, and the vote (0 meaning none).  The
/// record is refused when its checksum does not match its first 16 bytes.
pub fn decode_hard_state(buf: &[u8]) -> (r: Result<(Term, Option<NodeId>), HardStateCorrupted>)
    requires
        buf@.len() >= 20,
    ensures
        ({
            let expected = read_u32_at(buf@, 16);
            let actual = crc32_of(buf@.subrange(0, 16));
            let vote = read_u64_at(buf@, 8);
            &&& r is Err <==> actual != expected
            &&& r matches Ok((t, v)) ==> t.0 == read_u64_at(buf@, 0) && v == (if vote == 0 {
                None
            } else {
                Some(NodeId(vote))
            })
        }),
{
    let term = u64_from_le_bytes(vstd::slice::slice_subrange(buf, 0, 8));
    let voted_val = u64_from_le_bytes(vstd::slice::slice_subrange(buf, 8, 16));
    let expected_crc = u32_from_le_bytes(vstd::slice::slice_subrange(buf, 16, 20));
    let actual_crc = crc32(vstd::slice::slice_subrange(buf, 0, 16));
    if actual_crc != expected_crc {
        return Err(HardStateCorrupted);
    }
    let voted_for = if voted_val == 0 {
        None
    } else {
        Some(NodeId(voted_val))
    };
    Ok((Term(term), voted_for))
}

/// A hard-state record reads back as written, except that a vote for the
/// server with id 0 reads back as no vote.
pub proof fn lemma_hard_state_round_trip(term: u64, voted_for: Option<NodeId>)
    ensures
        ({
            let b = hard_state_bytes(term, vote_code(voted_for));
            &&& b.len() == 20
            &&& read_u64_at(b, 0) == term
            &&& read_u64_at(b, 8) == vote_code(voted_for)
            &&& crc32_of(b.subrange(0, 16)) == read_u32_at(b, 16)
        }),
{
    vstd::bytes::lemma_auto_spec_u64_to_from_le_bytes();
    vstd::bytes::lemma_auto_spec_u32_to_from_le_bytes();
    let body = spec_u64_to_le_bytes(term) + spec_u64_to_le_bytes(vote_code(voted_for));
    let b = hard_state_bytes(term, vote_code(voted_for));
    assert(b.subrange(0, 8) =~= spec_u64_to_le_bytes(term));
    assert(b.subrange(8, 16) =~= spec_u64_to_le_bytes(vote_code(voted_for)));
    assert(b.subrange(0, 16) =~= body);
    assert(b.subrange(16, 20) =~= spec_u32_to_le_bytes(crc32_of(body)));
}

/// The entries stored before the first one at or past `from`.
pub fn entries_before(entries: Vec<LogEntry>, from: LogIndex) -> (r: Vec<LogEntry>)
    ensures
        exists|k: int|
            0 <= k <= entries@.len() && entries_view(r@) == entries_view(entries@).take(k) && (
            forall|j: int| 0 <= j < k ==> (#[trigger] entries@[j]).index.0 < from.0) && (k
                == entries@.len() || entries@[k].index.0 >= from.0),
{
    let mut entries = entries;
    let ghost e0 = entries@;
    let mut pos: usize = 0;
    while pos < entries.len()
        invariant_except_break
            entries@ == e0,
            pos <= e0.len(),
            forall|j: int| 0 <= j < pos ==> (#[trigger] e0[j]).index.0 < from.0,
        ensures
            entries@ == e0,
            pos <= e0.len(),
            forall|j: int| 0 <= j < pos ==> (#[trigger] e0[j]).index.0 < from.0,
            pos == e0.len() || e0[pos as int].index.0 >= from.0,
        decreases e0.len() - pos,
    {
        if entries[pos].index.0 >= from.0 {
            break;
        }
        pos = pos + 1;
    }
    entries.truncate(pos);
    assert(entries_view(entries@) =~= entries_view(e0).take(pos as int));
    entries
}

} // verus!
