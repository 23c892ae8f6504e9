use raft_core::codec::{frame_payload, frame_payload_len};
use raft_core::message::{LogEntry, SnapshotMeta};
use raft_core::sim_storage::{DiskFault, StableDisk};
use raft_core::types::{LogIndex, NodeId, Term};
use raft_core::wal::{
    decode_entries, decode_hard_state, encode_entries, encode_hard_state, entries_before,
    sector_round_up, HardStateCorrupted,
};

fn entry(index: u64, term: u64, cmd: &[u8]) -> LogEntry {
    LogEntry { index: LogIndex(index), term: Term(term), command: cmd.to_vec() }
}

#[test]
fn wal_records_read_back() {
    let es = vec![entry(1, 1, b"abc"), entry(2, 3, b""), entry(3, 3, b"hello")];
    let bytes = encode_entries(&es);
    assert_eq!(bytes.len(), 24 * 3 + 3 + 5);
    let back = decode_entries(&bytes);
    assert_eq!(back, es);
}

#[test]
fn wal_record_layout_and_checksum() {
    let bytes = encode_entries(&[entry(7, 2, b"abc")]);
    assert_eq!(&bytes[0..8], &7u64.to_le_bytes());
    assert_eq!(&bytes[8..16], &2u64.to_le_bytes());
    assert_eq!(&bytes[16..20], &3u32.to_le_bytes());
    assert_eq!(&bytes[20..23], b"abc");
    // CRC-32 of "abc"
    assert_eq!(&bytes[23..27], &0x352441C2u32.to_le_bytes());
}

#[test]
fn wal_replay_stops_at_damage() {
    let es = vec![entry(1, 1, b"abc"), entry(2, 1, b"def")];
    let mut bytes = encode_entries(&es);
    let last = bytes.len() - 6;
    bytes[last] ^= 0xff; // corrupt the second command
    let back = decode_entries(&bytes);
    assert_eq!(back, vec![entry(1, 1, b"abc")]);
    // a record cut short is not read
    let bytes = encode_entries(&es);
    let back = decode_entries(&bytes[..bytes.len() - 1]);
    assert_eq!(back, vec![entry(1, 1, b"abc")]);
    assert!(decode_entries(&[]).is_empty());
}

#[test]
fn hard_state_round_trip_and_corruption() {
    let bytes = encode_hard_state(Term(9), Some(NodeId(3)));
    assert_eq!(bytes.len(), 20);
    assert_eq!(decode_hard_state(&bytes), Ok((Term(9), Some(NodeId(3)))));
    let bytes = encode_hard_state(Term(4), None);
    assert_eq!(decode_hard_state(&bytes), Ok((Term(4), None)));
    let mut bad = encode_hard_state(Term(9), Some(NodeId(3)));
    bad[0] ^= 1;
    assert_eq!(decode_hard_state(&bad), Err(HardStateCorrupted));
    // a stored checksum of zero is checked like any other
    let zeros = [0u8; 20];
    assert_eq!(decode_hard_state(&zeros), Err(HardStateCorrupted));
    let mut zeroed_crc = encode_hard_state(Term(9), Some(NodeId(3)));
    zeroed_crc[16..20].copy_from_slice(&[0, 0, 0, 0]);
    assert_eq!(decode_hard_state(&zeroed_crc), Err(HardStateCorrupted));
}

#[test]
fn entries_before_cuts_at_the_first_later_index() {
    let es = vec![entry(1, 1, b"a"), entry(2, 1, b"b"), entry(3, 1, b"c")];
    assert_eq!(entries_before(es.clone(), LogIndex(2)), vec![entry(1, 1, b"a")]);
    assert_eq!(entries_before(es.clone(), LogIndex(9)), es);
    assert!(entries_before(es, LogIndex(0)).is_empty());
}

#[test]
fn sectors_round_up() {
    assert_eq!(sector_round_up(0), 0);
    assert_eq!(sector_round_up(1), 4096);
    assert_eq!(sector_round_up(4096), 4096);
    assert_eq!(sector_round_up(4097), 8192);
}

#[test]
fn frames_carry_their_length() {
    let f = frame_payload(b"hello");
    assert_eq!(f, vec![0, 0, 0, 5, b'h', b'e', b'l', b'l', b'o']);
    assert_eq!(frame_payload_len(&f[0..4]), 5);
    assert_eq!(frame_payload_len(&[0x01, 0x02, 0x03, 0x04]), 0x01020304);
}

#[test]
fn stable_disk_writes() {
    let mut disk = StableDisk::new(NodeId(1));
    assert_eq!(disk.log_entries.len(), 1);
    disk.write_hard_state(Term(2), Some(NodeId(1)));
    assert_eq!(disk.current_term, Term(2));
    assert_eq!(disk.voted_for, Some(NodeId(1)));
    disk.append_entries(&[entry(1, 1, b"a"), entry(2, 1, b"b")]);
    assert_eq!(disk.log_entries.len(), 3);
    // same term: kept; other term: cut and replaced
    disk.append_entries(&[entry(1, 1, b"a"), entry(2, 2, b"z")]);
    assert_eq!(disk.log_entries.len(), 3);
    assert_eq!(disk.log_entries[2].command, b"z".to_vec());
    disk.truncate_and_append(LogIndex(2), &[entry(2, 3, b"y"), entry(3, 3, b"w")]);
    assert_eq!(disk.log_entries.len(), 4);
    assert_eq!(disk.log_entries[3].index, LogIndex(3));
    disk.write_snapshot(
        SnapshotMeta { last_included_index: LogIndex(2), last_included_term: Term(3) },
        b"snap".to_vec(),
    );
    assert_eq!(disk.log_entries[0].index, LogIndex(2));
    assert_eq!(disk.log_entries.len(), 2);
    assert!(disk.snapshot.is_some());
    // entries below the base are skipped
    disk.append_entries(&[entry(1, 9, b"old")]);
    assert_eq!(disk.log_entries.len(), 2);
}

#[test]
fn stable_disk_faults() {
    let mut disk = StableDisk::new(NodeId(4));
    let r = disk.try_append_entries(&[entry(3, 1, b"gap")]);
    assert_eq!(
        r,
        Err(DiskFault::NonContiguous { index: LogIndex(3), node: NodeId(4), base: LogIndex(0), len: 1 })
    );
    assert_eq!(
        r.unwrap_err().describe(),
        "Non-contiguous disk write at index L3 for node 4 (disk base L0, disk len 1)"
    );
    let r = disk.try_truncate_and_append(LogIndex(0), &[]);
    assert_eq!(r, Err(DiskFault::BeforeBase { from: LogIndex(0), base: LogIndex(0) }));
    assert!(disk.try_append_entries(&[entry(1, 1, b"ok")]).is_ok());
}

#[test]
fn wal_padded_sector_reads_records_then_padding() {
    let es = vec![entry(1, 1, b"abc"), entry(2, 1, b"")];
    let mut bytes = encode_entries(&es);
    let used = bytes.len();
    let padded = sector_round_up(used);
    bytes.resize(padded, 0);
    let back = decode_entries(&bytes);
    // The records come back first; each whole 24 zero bytes of padding then
    // reads as an empty record at index 0, term 0 (its checksum, 0, matches).
    let zero_records = (padded - used) / 24;
    assert_eq!(back.len(), es.len() + zero_records);
    assert_eq!(&back[..2], &es[..]);
    for e in &back[2..] {
        assert_eq!(*e, entry(0, 0, b""));
    }
}

#[test]
fn disk_write_twice_equals_once() {
    let es = vec![entry(1, 1, b"a"), entry(2, 1, b"b"), entry(3, 2, b"c")];
    let mut disk = StableDisk::new(NodeId(4));
    disk.append_entries(&es);
    let once = disk.log_entries.clone();
    disk.append_entries(&es);
    assert_eq!(disk.log_entries, once);
    assert_eq!(once.len(), 4);
}
