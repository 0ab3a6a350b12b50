use crc::crc32::Hasher32;
use waldb::wal::{
    decode_kv, encode_kv, RecordType, WalError, WalFileReader, WalFileWriter, BLOCK_SIZE,
    HEADER_SIZE,
};

// frame one record by hand with the crc crate the writer relies on
fn handmade_record(ty: u8, payload: &[u8]) -> Vec<u8> {
    let mut digest = crc::crc32::Digest::new(crc::crc32::CASTAGNOLI);
    digest.write(&[ty]);
    digest.write(payload);
    let mut out = Vec::new();
    out.extend_from_slice(&digest.sum32().to_le_bytes());
    out.extend_from_slice(&(payload.len() as u16).to_le_bytes());
    out.push(ty);
    out.extend_from_slice(payload);
    out
}

fn gen_data(bytes: usize) -> Vec<u8> {
    let mut data = Vec::new();
    for i in 0..bytes {
        data.push((i % 256) as u8);
    }
    data
}

fn validate_data(data: &[u8]) -> bool {
    (0..data.len()).all(|i| data[i] == ((i % 256) as u8))
}

fn write(writer: &mut WalFileWriter, data: &str) {
    writer.write_data(data.as_bytes());
}

fn read(reader: &mut WalFileReader) -> String {
    reader
        .read_data()
        .unwrap()
        .as_ref()
        .map(|data| String::from_utf8_lossy(data).to_string())
        .unwrap_or_else(|| "EOF".to_string())
}

#[test]
fn test_wal_data_read_write() {
    let mut writer = WalFileWriter::new(Vec::new());
    write(&mut writer, "foo");
    write(&mut writer, "bar");
    write(&mut writer, "");
    write(&mut writer, "xxxx");
    let mut reader = WalFileReader::new(writer.into_inner());
    let reader = &mut reader;
    assert_eq!(read(reader), "foo");
    assert_eq!(read(reader), "bar");
    assert_eq!(read(reader), "");
    assert_eq!(read(reader), "xxxx");
    assert_eq!(read(reader), "EOF");
    assert_eq!(read(reader), "EOF");
}

#[test]
fn test_wal_data_many_blocks() {
    let mut writer = WalFileWriter::new(Vec::new());
    for _i in 0..10usize {
        writer.write_data(&gen_data(1024));
    }

    for _ in 0..10usize {
        writer.write_data(&gen_data(102400));
    }

    for _i in 0..100usize {
        writer.write_data(&gen_data(60));
    }
    let mut reader = WalFileReader::new(writer.into_inner());
    for _i in 0..10usize {
        let data = reader.read_data().unwrap().unwrap();
        assert_eq!(data.len(), 1024);
        assert!(validate_data(&data));
    }
    for _i in 0..10usize {
        let data = reader.read_data().unwrap().unwrap();
        assert_eq!(data.len(), 102400);
        assert!(validate_data(&data));
    }
    for _i in 0..100usize {
        let data = reader.read_data().unwrap().unwrap();
        assert_eq!(data.len(), 60);
        assert!(validate_data(&data));
    }
    assert!(reader.read_data().unwrap().is_none());
}

#[test]
fn payload_filling_block_stays_full() {
    // a payload of exactly BLOCK_SIZE - HEADER_SIZE bytes is one Full
    // record; the next payload starts at the next block boundary
    let first_len = BLOCK_SIZE - HEADER_SIZE;
    let mut writer = WalFileWriter::new(Vec::new());
    writer.write_data(&gen_data(first_len));
    writer.write_data(&gen_data(1));
    let file = writer.into_inner();
    assert_eq!(file[6], 1, "first record must be Full");
    assert_eq!(
        u16::from_le_bytes([file[4], file[5]]) as usize,
        first_len,
        "first record carries the whole payload"
    );
    assert_eq!(file[BLOCK_SIZE + 6], 1, "second record starts the next block as Full");
    let mut reader = WalFileReader::new(file);
    assert_eq!(reader.read_data().unwrap().unwrap().len(), first_len);
    assert_eq!(reader.read_data().unwrap().unwrap().len(), 1);
    assert!(reader.read_data().unwrap().is_none());
}

#[test]
fn payload_one_past_block_splits_first_last() {
    let len = BLOCK_SIZE - HEADER_SIZE + 1;
    let payload = gen_data(len);
    let mut writer = WalFileWriter::new(Vec::new());
    writer.write_data(&payload);
    let file = writer.into_inner();
    assert_eq!(file[6], 2, "first fragment must be First");
    assert_eq!(
        u16::from_le_bytes([file[4], file[5]]) as usize,
        BLOCK_SIZE - HEADER_SIZE,
        "the First fragment fills its block"
    );
    assert_eq!(file[BLOCK_SIZE + 6], 4, "second fragment must be Last");
    assert_eq!(u16::from_le_bytes([file[BLOCK_SIZE + 4], file[BLOCK_SIZE + 5]]), 1);
    let mut reader = WalFileReader::new(file);
    assert_eq!(reader.read_data().unwrap().unwrap(), payload);
    assert!(reader.read_data().unwrap().is_none());
}

#[test]
fn short_block_trailer_is_zero_filled() {
    // leave exactly HEADER_SIZE - 1 bytes in the first block
    let first_len = BLOCK_SIZE - HEADER_SIZE - (HEADER_SIZE - 1);
    let mut writer = WalFileWriter::new(Vec::new());
    writer.write_data(&gen_data(first_len));
    writer.write_data(b"abc");
    let file = writer.into_inner();
    let trailer_start = HEADER_SIZE + first_len;
    assert_eq!(BLOCK_SIZE - trailer_start, HEADER_SIZE - 1);
    for i in trailer_start..BLOCK_SIZE {
        assert_eq!(file[i], 0, "block trailer must be zero-filled");
    }
    assert_eq!(file[BLOCK_SIZE + 6], 1, "payload starts at the next block");
    assert_eq!(u16::from_le_bytes([file[BLOCK_SIZE + 4], file[BLOCK_SIZE + 5]]), 3);
    let mut reader = WalFileReader::new(file);
    assert_eq!(reader.read_data().unwrap().unwrap().len(), first_len);
    assert_eq!(reader.read_data().unwrap().unwrap(), b"abc".to_vec());
    assert!(reader.read_data().unwrap().is_none());
}

#[test]
fn corrupt_middle_fragment_fails_with_crc_mismatch() {
    // a payload long enough for a First/Middle/Last triple
    let len = 2 * (BLOCK_SIZE - HEADER_SIZE) + 100;
    let mut writer = WalFileWriter::new(Vec::new());
    writer.write_data(&gen_data(len));
    let mut file = writer.into_inner();
    assert_eq!(file[6], 2, "First");
    assert_eq!(file[BLOCK_SIZE + 6], 3, "Middle");
    assert_eq!(file[2 * BLOCK_SIZE + 6], 4, "Last");
    // flip one payload bit of the Middle record
    file[BLOCK_SIZE + HEADER_SIZE] ^= 1;
    let mut reader = WalFileReader::new(file);
    assert_eq!(reader.read_data(), Err(WalError::CrcMismatch));
}

#[test]
fn any_payload_bit_flip_is_rejected() {
    let mut writer = WalFileWriter::new(Vec::new());
    writer.write_data(b"hello");
    let file = writer.into_inner();
    for byte in HEADER_SIZE..file.len() {
        for bit in 0..8 {
            let mut copy = file.clone();
            copy[byte] ^= 1u8 << bit;
            let mut reader = WalFileReader::new(copy);
            assert_eq!(
                reader.read_data(),
                Err(WalError::CrcMismatch),
                "payload corruption must be caught"
            );
        }
    }
    // the type byte is covered by the checksum too; 1 ^ 2 == 3 keeps a
    // known record type, so only the checksum can reject it
    let mut copy = file.clone();
    copy[6] ^= 2;
    let mut reader = WalFileReader::new(copy);
    assert_eq!(reader.read_data(), Err(WalError::CrcMismatch));
}

#[test]
fn truncated_log_replays_a_prefix() {
    let payloads = [gen_data(100), gen_data(40000), gen_data(3)];
    let mut writer = WalFileWriter::new(Vec::new());
    for p in &payloads {
        writer.write_data(p);
    }
    let file = writer.into_inner();
    for cut in 0..=file.len() {
        let mut reader = WalFileReader::new(file[..cut].to_vec());
        let mut seen: Vec<Vec<u8>> = Vec::new();
        loop {
            match reader.read_data() {
                Ok(Some(p)) => seen.push(p),
                Ok(None) => break,
                Err(_) => break,
            }
        }
        assert!(seen.len() <= payloads.len());
        for (i, p) in seen.iter().enumerate() {
            assert_eq!(p, &payloads[i], "interior payloads must survive truncation");
        }
    }
}

#[test]
fn reader_accepts_handmade_record() {
    let payload = b"handmade";
    let file = handmade_record(1, payload);
    let mut reader = WalFileReader::new(file);
    assert_eq!(reader.read_data().unwrap().unwrap(), payload.to_vec());
    assert!(reader.read_data().unwrap().is_none());
}

#[test]
fn unknown_record_type_is_rejected() {
    let file = handmade_record(5, b"x");
    let mut reader = WalFileReader::new(file);
    assert_eq!(reader.read_data(), Err(WalError::InvalidRecordType));
}

#[test]
fn middle_without_first_is_invalid() {
    let file = handmade_record(3, b"stray");
    let mut reader = WalFileReader::new(file);
    assert_eq!(reader.read_data(), Err(WalError::InvalidWalFile));
}

#[test]
fn truncated_header_is_unexpected_eof() {
    let mut writer = WalFileWriter::new(Vec::new());
    writer.write_data(b"abc");
    let file = writer.into_inner();
    let mut reader = WalFileReader::new(file[..HEADER_SIZE - 2].to_vec());
    assert_eq!(reader.read_data(), Err(WalError::UnexpectedEof));
}

#[test]
fn record_type_bytes_round_trip() {
    assert_eq!(RecordType::from_u8(1), Ok(RecordType::Full));
    assert_eq!(RecordType::from_u8(2), Ok(RecordType::First));
    assert_eq!(RecordType::from_u8(3), Ok(RecordType::Middle));
    assert_eq!(RecordType::from_u8(4), Ok(RecordType::Last));
    assert_eq!(RecordType::from_u8(0), Err(WalError::InvalidRecordType));
    assert_eq!(RecordType::from_u8(5), Err(WalError::InvalidRecordType));
    assert_eq!(RecordType::calc(true, true), RecordType::Full);
    assert_eq!(RecordType::calc(true, false), RecordType::First);
    assert_eq!(RecordType::calc(false, false), RecordType::Middle);
    assert_eq!(RecordType::calc(false, true), RecordType::Last);
}

#[test]
fn kv_payload_round_trips() {
    let payload = encode_kv(b"key", b"value");
    let (k, v) = decode_kv(payload).unwrap();
    assert_eq!(k, b"key".to_vec());
    assert_eq!(v, b"value".to_vec());
    // empty key and value survive too
    let (k, v) = decode_kv(encode_kv(b"", b"")).unwrap();
    assert!(k.is_empty() && v.is_empty());
    // trailing garbage is not a key/value payload
    let mut bad = encode_kv(b"a", b"b");
    bad.push(0);
    assert!(decode_kv(bad).is_none());
    assert!(decode_kv(vec![0x80]).is_none());
}

#[test]
fn reopened_writer_continues_current_block() {
    let mut writer = WalFileWriter::new(Vec::new());
    writer.write_data(b"one");
    let file = writer.into_inner();
    let mut writer = WalFileWriter::new(file);
    writer.write_data(b"two");
    let mut reader = WalFileReader::new(writer.into_inner());
    assert_eq!(reader.read_data().unwrap().unwrap(), b"one".to_vec());
    assert_eq!(reader.read_data().unwrap().unwrap(), b"two".to_vec());
    assert!(reader.read_data().unwrap().is_none());
}

#[test]
fn record_validity_follows_its_checksum() {
    let mut writer = WalFileWriter::new(Vec::new());
    writer.write_data(b"check me");
    let mut reader = WalFileReader::new(writer.into_inner());
    let mut rec = reader.read_record().unwrap().unwrap();
    assert_eq!(rec.ty, RecordType::Full);
    assert_eq!(rec.len as usize, rec.data.len());
    assert!(rec.is_valid());
    rec.data[0] ^= 1;
    assert!(!rec.is_valid());
}
