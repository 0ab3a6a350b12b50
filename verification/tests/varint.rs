use waldb::encoding::{BufMutExt, ByteCursor, BytesExt};

#[test]
fn test_var_u32_le() {
    let mut buf: Vec<u8> = Vec::new();
    for i in 0u32..32 * 32 {
        let v = (i / 32) << (i % 32);
        buf.put_var_u32_le(v);
    }
    let mut buf = ByteCursor::new(buf);
    for i in 0u32..32 * 32 {
        let v = (i / 32) << (i % 32);
        let t = buf.get_var_u32_le();
        assert_eq!(Some(v), t);
    }
    assert!(buf.get_var_u32_le().is_none());
}

#[test]
fn test_var_u64_le() {
    // special cases
    let mut data: Vec<u64> = vec![0, 100, !0, !0 - 1];
    for i in 0..64 {
        let base = 1u64 << i;
        data.push(base);
        data.push(base - 1);
        data.push(base + 1);
    }
    let mut buf: Vec<u8> = Vec::new();
    for &v in &data {
        buf.put_var_u64_le(v);
    }

    let mut buf = ByteCursor::new(buf);
    for &v in &data {
        assert_eq!(Some(v), buf.get_var_u64_le());
    }
    assert!(buf.get_var_u64_le().is_none());
}

#[test]
fn decode_fails_on_empty_input() {
    let mut cur = ByteCursor::new(Vec::new());
    assert!(cur.get_var_u32_le().is_none());
    assert!(cur.get_var_u64_le().is_none());
}

#[test]
fn decode_fails_without_terminator() {
    let mut cur = ByteCursor::new(vec![0x80, 0x80, 0x80]);
    assert!(cur.get_var_u32_le().is_none());
    assert_eq!(cur.remaining_len(), 3);
}

#[test]
fn decode_fails_past_five_bytes_for_u32() {
    let mut cur = ByteCursor::new(vec![0x80, 0x80, 0x80, 0x80, 0x80, 0x01]);
    assert!(cur.get_var_u32_le().is_none());
}

#[test]
fn decode_fails_on_u32_overflow() {
    // five groups of 7 bits encoding 2^35 - 1, which exceeds 32 bits
    let mut cur = ByteCursor::new(vec![0xFF, 0xFF, 0xFF, 0xFF, 0x7F]);
    assert!(cur.get_var_u32_le().is_none());
}

#[test]
fn decode_fails_on_u64_overflow() {
    // ten groups whose last carries more than bit 63
    let mut cur = ByteCursor::new(vec![
        0xFF, 0xFF, 0xFF, 0xFF, 0xFF, 0xFF, 0xFF, 0xFF, 0xFF, 0x02,
    ]);
    assert!(cur.get_var_u64_le().is_none());
}

#[test]
fn u32_boundary_values_round_trip() {
    for v in [0u32, 1, 127, 128, 16383, 16384, u32::MAX - 1, u32::MAX] {
        let mut buf: Vec<u8> = Vec::new();
        buf.put_var_u32_le(v);
        let mut cur = ByteCursor::new(buf);
        assert_eq!(cur.get_var_u32_le(), Some(v));
        assert_eq!(cur.remaining_len(), 0);
    }
}

#[test]
fn encoding_is_little_endian_base_128() {
    let mut buf: Vec<u8> = Vec::new();
    buf.put_var_u32_le(300);
    assert_eq!(buf, vec![0xAC, 0x02]);
    let mut buf: Vec<u8> = Vec::new();
    buf.put_var_u64_le(1);
    assert_eq!(buf, vec![0x01]);
}

#[test]
fn ten_byte_u64_values_decode() {
    // 2^63 takes the full ten bytes
    let mut buf: Vec<u8> = Vec::new();
    buf.put_var_u64_le(1u64 << 63);
    assert_eq!(buf.len(), 10);
    let mut cur = ByteCursor::new(buf);
    assert_eq!(cur.get_var_u64_le(), Some(1u64 << 63));
}

#[test]
fn cursor_take_reads_exactly_n_bytes() {
    let mut cur = ByteCursor::new(vec![1, 2, 3, 4, 5]);
    assert_eq!(cur.take(2), Some(vec![1, 2]));
    assert_eq!(cur.remaining_len(), 3);
    assert_eq!(cur.take(4), None);
    assert_eq!(cur.take(3), Some(vec![3, 4, 5]));
    assert_eq!(cur.remaining_len(), 0);
}
