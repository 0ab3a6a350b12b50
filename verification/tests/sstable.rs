use waldb::sorted_stable::{shared_prefix_len, BlockBuilder, RESTART_THRESHOLD};

#[test]
fn shared_prefix_is_the_common_lead() {
    assert_eq!(shared_prefix_len(b"", b""), 0);
    assert_eq!(shared_prefix_len(b"abc", b"abd"), 2);
    assert_eq!(shared_prefix_len(b"abc", b"abc"), 3);
    assert_eq!(shared_prefix_len(b"abc", b"abcdef"), 3);
    assert_eq!(shared_prefix_len(b"xyz", b"abc"), 0);
}

#[test]
fn block_bytes_are_exact() {
    let mut b = BlockBuilder::new();
    b.add(b"abc", b"v1");
    b.add(b"abd", b"v2");
    let out = b.build();
    let expected: Vec<u8> = vec![
        // entry 0, a restart: shared 0, non-shared 3, value length 2
        0, 3, 2, b'a', b'b', b'c', b'v', b'1',
        // entry 1: shares "ab", non-shared 1, value length 2
        2, 1, 2, b'd', b'v', b'2',
        // restart offsets, then their count, as little-endian words
        0, 0, 0, 0, 1, 0, 0, 0,
    ];
    assert_eq!(out, expected);
}

#[test]
fn empty_block_has_only_a_restart_count() {
    let out = BlockBuilder::new().build();
    assert_eq!(out, vec![0, 0, 0, 0]);
}

#[test]
fn every_sixteenth_entry_restarts() {
    let mut b = BlockBuilder::new();
    let keys: Vec<Vec<u8>> = (0..17).map(|i| format!("k{:02}", i).into_bytes()).collect();
    for k in &keys {
        b.add(k, b"v");
    }
    let out = b.build();
    let n = out.len();
    let count = u32::from_le_bytes([out[n - 4], out[n - 3], out[n - 2], out[n - 1]]);
    assert_eq!(count, 2, "entries 0 and 16 are restarts");
    let first = u32::from_le_bytes([out[n - 12], out[n - 11], out[n - 10], out[n - 9]]);
    let second = u32::from_le_bytes([out[n - 8], out[n - 7], out[n - 6], out[n - 5]]);
    assert_eq!(first, 0);
    // entry 0 takes 7 bytes; entries 1..=15 take 5 bytes, except
    // "k10", which shares only "k" with "k09" and takes 6
    assert_eq!(second as usize, 7 + 14 * 5 + 6);
    // the restart entry shares nothing with its predecessor
    assert_eq!(out[second as usize], 0);
    assert_eq!(RESTART_THRESHOLD, 16);
}
