use hdget::codec::{DecodeError, ENTRY_COUNT};
use hdget::lb::{Entry, Leaderboard};

fn entry(rank: u16, name: &str, user_id: u32, run_id: u32, score: f32) -> Entry {
    Entry {
        rank,
        name: name.as_bytes().to_vec(),
        user_id,
        run_id,
        score_bits: score.to_bits(),
    }
}

fn full_board(timestamp_secs: u64) -> Leaderboard {
    let mut entries = Vec::new();
    for i in 0..ENTRY_COUNT {
        let rank = (i + 1) as u16;
        let name = format!("player{}", i);
        entries.push(entry(rank, &name, 1000 + i as u32, 5000 + i as u32, 600.0 - i as f32));
    }
    Leaderboard { timestamp_secs, entries }
}

#[test]
fn cache_round_trip() {
    let board = full_board(123_456_789);
    let bytes = board.cache_bytes().expect("a full board encodes");
    let back = Leaderboard::from_cache_bytes(&bytes).expect("its encoding decodes");
    assert_eq!(back.timestamp_secs, board.timestamp_secs);
    assert_eq!(back.entries.len(), board.entries.len());
    for (a, b) in board.entries.iter().zip(back.entries.iter()) {
        assert_eq!(a.rank, b.rank);
        assert_eq!(a.name, b.name);
        assert_eq!(a.user_id, b.user_id);
        assert_eq!(a.run_id, b.run_id);
        assert_eq!(a.score_bits, b.score_bits);
    }
}

#[test]
fn truncated_mid_entry_is_decode_error() {
    let board = full_board(42);
    let mut bytes = board.cache_bytes().expect("a full board encodes");
    // Cut in the middle of some entry near the end.
    bytes.truncate(bytes.len() - 7);
    let r = Leaderboard::from_cache_bytes(&bytes);
    assert!(matches!(r, Err(DecodeError::Truncated)));
}

#[test]
fn truncated_timestamp_is_decode_error() {
    let bytes = vec![1u8, 2, 3];
    let r = Leaderboard::from_cache_bytes(&bytes);
    assert!(matches!(r, Err(DecodeError::Truncated)));
}

#[test]
fn empty_cache_is_decode_error() {
    let bytes: Vec<u8> = Vec::new();
    let r = Leaderboard::from_cache_bytes(&bytes);
    assert!(matches!(r, Err(DecodeError::Truncated)));
}

#[test]
fn invalid_name_bytes_are_decode_error() {
    let board = full_board(42);
    let mut bytes = board.cache_bytes().expect("a full board encodes");
    // The first entry's name starts at offset 11 (8 timestamp + 2 rank + 1
    // length byte); 0xFF can begin no UTF-8 encoding.
    bytes[11] = 0xff;
    let r = Leaderboard::from_cache_bytes(&bytes);
    assert!(matches!(r, Err(DecodeError::InvalidText)));
}

#[test]
fn wrong_entry_count_does_not_encode() {
    let small = Leaderboard {
        timestamp_secs: 1,
        entries: vec![entry(1, "a", 1, 1, 1.0)],
    };
    assert!(small.cache_bytes().is_none());
}

#[test]
fn oversized_name_does_not_encode() {
    let mut board = full_board(1);
    board.entries[3].name = vec![b'x'; 256];
    assert!(board.cache_bytes().is_none());
}

#[test]
fn invalid_name_does_not_encode() {
    let mut board = full_board(1);
    board.entries[3].name = vec![0xff, 0xfe];
    assert!(board.cache_bytes().is_none());
}

#[test]
fn encoding_layout_is_little_endian() {
    let mut board = full_board(0x0102_0304_0506_0708);
    board.entries[0] = entry(0x0201, "ab", 0x11223344, 0x55667788, 1.5);
    let bytes = board.cache_bytes().expect("a full board encodes");
    // Timestamp, little-endian.
    assert_eq!(&bytes[0..8], &[0x08, 0x07, 0x06, 0x05, 0x04, 0x03, 0x02, 0x01]);
    // First entry: rank, name length, name, user id, run id, score bits.
    assert_eq!(&bytes[8..10], &[0x01, 0x02]);
    assert_eq!(bytes[10], 2);
    assert_eq!(&bytes[11..13], b"ab");
    assert_eq!(&bytes[13..17], &[0x44, 0x33, 0x22, 0x11]);
    assert_eq!(&bytes[17..21], &[0x88, 0x77, 0x66, 0x55]);
    assert_eq!(&bytes[21..25], &1.5f32.to_bits().to_le_bytes());
}

#[test]
fn trailing_bytes_are_ignored() {
    let board = full_board(9);
    let mut bytes = board.cache_bytes().expect("a full board encodes");
    bytes.extend_from_slice(&[0xde, 0xad]);
    let back = Leaderboard::from_cache_bytes(&bytes).expect("the prefix still decodes");
    assert_eq!(back.timestamp_secs, 9);
}
