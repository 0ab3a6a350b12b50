//! Write-ahead log framing: a block-structured, CRC-protected record
//! stream.
//!
//! The log is a sequence of 32 KiB blocks. Each block holds physical
//! records laid end to end; a record is a 7-byte header (32-bit CRC,
//! 16-bit payload length, 1-byte type, all little-endian) followed by the
//! payload. A logical payload is written as one `Full` record, or as a
//! `First` record, any number of `Middle` records and a `Last` record,
//! fragmented so that no record crosses a block boundary. When fewer than
//! 7 bytes remain in a block, the remainder is zero-filled and writing
//! continues in the next block.
//!
//! The writer and reader here work on in-memory buffers; the enclosing
//! runtime appends the writer's new bytes to the real file and feeds the
//! file's bytes to the reader.

use vstd::prelude::*;

use crate::encoding::{append_bytes, copy_bytes, spec_varint, BufMutExt, BytesExt};

verus! {

/// Bytes per log block.
pub const BLOCK_SIZE: usize = 32768;

/// Bytes in a physical record header: 32-bit CRC, 16-bit length, record
/// type byte.
pub const HEADER_SIZE: usize = 7;

/// Error surfaced by the log layer.
#[derive(Clone, Copy, Debug, PartialEq, Eq, Structural)]
pub enum WalError {
    /// The underlying file operations failed.
    IoError,
    /// The log ended inside a record header or payload.
    UnexpectedEof,
    /// A record header carried a type byte outside the four known kinds.
    InvalidRecordType,
    /// Record fragments appeared in an order no writer produces.
    InvalidWalFile,
    /// A record's payload did not match its checksum.
    CrcMismatch,
}

/// The CRC-32C (Castagnoli) checksum of a byte sequence, as the `crc`
/// crate computes it: table-driven, initial value zero, no final xor.
pub uninterp spec fn crc32c_of(data: Seq<u8>) -> u32;

/// Relies on crc::crc32::checksum_castagnoli: the checksum is a function
/// of the input bytes alone.
#[verifier::external_body]
fn crc32c(data: &[u8]) -> (r: u32)
    ensures
        r == crc32c_of(data@),
{
    crc::crc32::checksum_castagnoli(data)
}

/// Kind of one physical record.
#[derive(Clone, Copy, Debug, PartialEq, Eq, Structural)]
pub enum RecordType {
    /// A whole logical payload in one record.
    Full,
    /// The first fragment of a split payload.
    First,
    /// A fragment between the first and the last.
    Middle,
    /// The last fragment of a split payload.
    Last,
}

impl RecordType {
    /// The byte that stands for this kind on disk.
    pub open spec fn as_byte(self) -> u8 {
        match self {
            RecordType::Full => 1,
            RecordType::First => 2,
            RecordType::Middle => 3,
            RecordType::Last => 4,
        }
    }

    /// The kind for a fragment that starts and/or ends its payload.
    pub open spec fn spec_calc(is_begin: bool, is_end: bool) -> RecordType {
        match (is_begin, is_end) {
            (true, true) => RecordType::Full,
            (true, false) => RecordType::First,
            (false, true) => RecordType::Last,
            (false, false) => RecordType::Middle,
        }
    }

    /// The byte that stands for this kind on disk.
    pub fn to_u8(self) -> (b: u8)
        ensures
            b == self.as_byte(),
    {
        match self {
            RecordType::Full => 1,
            RecordType::First => 2,
            RecordType::Middle => 3,
            RecordType::Last => 4,
        }
    }

    /// The kind for a fragment that starts and/or ends its payload.
    pub fn calc(is_begin: bool, is_end: bool) -> (t: RecordType)
        ensures
            t == RecordType::spec_calc(is_begin, is_end),
    {
        match (is_begin, is_end) {
            (true, true) => RecordType::Full,
            (true, false) => RecordType::First,
            (false, true) => RecordType::Last,
            (false, false) => RecordType::Middle,
        }
    }

    /// Parse a type byte; any value outside 1 to 4 is rejected.
    pub fn from_u8(ty: u8) -> (r: Result<RecordType, WalError>)
        ensures
            match r {
                Ok(t) => 1 <= ty <= 4 && t.as_byte() == ty,
                Err(e) => (ty == 0 || ty > 4) && e == WalError::InvalidRecordType,
            },
    {
        match ty {
            1u8 => Ok(RecordType::Full),
            2u8 => Ok(RecordType::First),
            3u8 => Ok(RecordType::Middle),
            4u8 => Ok(RecordType::Last),
            _ => Err(WalError::InvalidRecordType),
        }
    }
}

/// The bytes of one physical record: CRC over the type byte and payload,
/// then payload length, type byte and payload.
pub open spec fn spec_record_bytes(ty: u8, payload: Seq<u8>) -> Seq<u8>
    recommends
        payload.len() < 0x10000,
{
    vstd::bytes::spec_u32_to_le_bytes(crc32c_of(seq![ty] + payload))
        + vstd::bytes::spec_u16_to_le_bytes(payload.len() as u16) + seq![ty] + payload
}

/// A physical record is its header and payload.
pub proof fn lemma_record_bytes_len(ty: u8, payload: Seq<u8>)
    ensures
        spec_record_bytes(ty, payload).len() == HEADER_SIZE + payload.len(),
{
    vstd::bytes::lemma_auto_spec_u32_to_from_le_bytes();
    vstd::bytes::lemma_auto_spec_u16_to_from_le_bytes();
}

/// `n` zero bytes: the fill of a block too short for another header.
pub open spec fn zero_bytes(n: int) -> Seq<u8> {
    Seq::new(n as nat, |i: int| 0u8)
}

/// The bytes the writer appends for the payload `data`, starting at
/// offset `off` within the current block; `is_begin` says whether `data`
/// opens its logical payload. When fewer than 7 bytes remain in the
/// block they are zero-filled; each emitted record carries as much of
/// the payload as its block allows.
pub open spec fn spec_wal_encode_frags(off: int, data: Seq<u8>, is_begin: bool) -> Seq<u8>
    recommends
        0 <= off <= BLOCK_SIZE,
    decreases data.len(), BLOCK_SIZE - off,
{
    let pad = if BLOCK_SIZE - off < HEADER_SIZE {
        zero_bytes(BLOCK_SIZE - off)
    } else {
        Seq::<u8>::empty()
    };
    let o = if BLOCK_SIZE - off < HEADER_SIZE {
        0int
    } else {
        off
    };
    let avail = BLOCK_SIZE - o - HEADER_SIZE;
    if data.len() <= avail {
        pad + spec_record_bytes(RecordType::spec_calc(is_begin, true).as_byte(), data)
    } else {
        pad + spec_record_bytes(RecordType::spec_calc(is_begin, false).as_byte(), data.take(avail))
            + spec_wal_encode_frags(BLOCK_SIZE as int, data.skip(avail), false)
    }
}

/// The bytes the writer appends for one whole logical payload, starting
/// at block offset `off`.
pub open spec fn spec_wal_encode(off: int, data: Seq<u8>) -> Seq<u8> {
    spec_wal_encode_frags(off, data, true)
}

/// Encoding from a block boundary is the same whether the offset is
/// given as 0 or as the block size.
pub proof fn lemma_encode_at_boundary(data: Seq<u8>, is_begin: bool)
    ensures
        spec_wal_encode_frags(BLOCK_SIZE as int, data, is_begin) == spec_wal_encode_frags(
            0,
            data,
            is_begin,
        ),
{
    assert(zero_bytes(0) =~= Seq::<u8>::empty());
    let avail = BLOCK_SIZE - HEADER_SIZE;
    if data.len() <= avail {
        assert(zero_bytes(0) + spec_record_bytes(
            RecordType::spec_calc(is_begin, true).as_byte(),
            data,
        ) =~= Seq::<u8>::empty() + spec_record_bytes(
            RecordType::spec_calc(is_begin, true).as_byte(),
            data,
        ));
    } else {
        let rec = spec_record_bytes(
            RecordType::spec_calc(is_begin, false).as_byte(),
            data.take(avail as int),
        );
        let rest = spec_wal_encode_frags(BLOCK_SIZE as int, data.skip(avail as int), false);
        assert(zero_bytes(0) + rec + rest =~= Seq::<u8>::empty() + rec + rest);
    }
}

/// Writer half of the log: appends framed records to an in-memory image
/// of the file.
pub struct WalFileWriter {
    file: Vec<u8>,
    flushed: usize,
}

impl WalFileWriter {
    /// No byte past the end of the file has been handed out.
    pub closed spec fn wf(&self) -> bool {
        self.flushed <= self.file@.len()
    }

    /// The whole contents of the log file.
    pub closed spec fn log(&self) -> Seq<u8> {
        self.file@
    }

    /// How many leading bytes of the file the caller has already taken
    /// to durable storage.
    pub closed spec fn flushed_to(&self) -> int {
        self.flushed as int
    }

    /// Resume writing a log whose current bytes are `contents`; they
    /// count as already flushed.
    pub fn new(contents: Vec<u8>) -> (w: WalFileWriter)
        ensures
            w.wf(),
            w.log() == contents@,
            w.flushed_to() == contents@.len(),
    {
        let flushed = contents.len();
        WalFileWriter { file: contents, flushed }
    }

    /// Give the file image back.
    pub fn into_inner(self) -> (v: Vec<u8>)
        ensures
            v@ == self.log(),
    {
        self.file
    }

    /// The bytes appended since the last hand-off, for the caller to
    /// append to the real file.
    pub fn take_pending(&mut self) -> (out: Vec<u8>)
        requires
            old(self).wf(),
        ensures
            final(self).wf(),
            out@ == old(self).log().skip(old(self).flushed_to()),
            final(self).log() == old(self).log(),
            final(self).flushed_to() == final(self).log().len(),
    {
        let out = copy_bytes(
            vstd::slice::slice_subrange(self.file.as_slice(), self.flushed, self.file.len()),
        );
        proof {
            assert(self.file@.subrange(self.flushed as int, self.file@.len() as int) =~= self.file@
                .skip(self.flushed as int));
        }
        self.flushed = self.file.len();
        out
    }

    /// Append one physical record for `rec` with kind `ty`.
    fn emit_physical_record(&mut self, ty: RecordType, rec: &[u8])
        requires
            rec@.len() < 0x10000,
        ensures
            final(self).file@ == old(self).file@ + spec_record_bytes(ty.as_byte(), rec@),
            final(self).flushed == old(self).flushed,
    {
        let ghost pre = self.file@;
        let mut tagged: Vec<u8> = Vec::new();
        tagged.push(ty.to_u8());
        append_bytes(&mut tagged, rec);
        proof {
            assert(tagged@ =~= seq![ty.as_byte()] + rec@);
        }
        let checksum = crc32c(tagged.as_slice());
        let crc_b = vstd::bytes::u32_to_le_bytes(checksum);
        append_bytes(&mut self.file, crc_b.as_slice());
        let len_b = vstd::bytes::u16_to_le_bytes(rec.len() as u16);
        append_bytes(&mut self.file, len_b.as_slice());
        self.file.push(ty.to_u8());
        append_bytes(&mut self.file, rec);
        proof {
            assert(self.file@ =~= pre + spec_record_bytes(ty.as_byte(), rec@));
        }
    }

    /// Append one logical payload, fragmenting it over blocks. An empty
    /// payload still emits a single `Full` record, so that readers
    /// observe it.
    #[verifier::rlimit(60)]
    #[verifier::spinoff_prover]
    pub fn write_data(&mut self, data: &[u8])
        requires
            old(self).wf(),
        ensures
            final(self).wf(),
            final(self).log() == old(self).log() + spec_wal_encode(
                old(self).log().len() as int % (BLOCK_SIZE as int),
                data@,
            ),
            final(self).flushed_to() == old(self).flushed_to(),
    {
        let ghost orig = self.file@;
        let ghost off0 = orig.len() as int % (BLOCK_SIZE as int);
        let mut idx: usize = 0;
        let mut is_begin = true;
        proof {
            assert(data@.skip(0) =~= data@);
        }
        loop
            invariant
                orig == old(self).file@,
                off0 == orig.len() as int % (BLOCK_SIZE as int),
                self.flushed == old(self).flushed,
                self.flushed <= orig.len(),
                orig.len() <= self.file@.len(),
                idx <= data@.len(),
                orig + spec_wal_encode_frags(off0, data@, true) == self.file@
                    + spec_wal_encode_frags(
                    self.file@.len() as int % (BLOCK_SIZE as int),
                    data@.skip(idx as int),
                    is_begin,
                ),
            decreases data@.len() - idx, ((BLOCK_SIZE as int) - (self.file@.len() as int % (
            BLOCK_SIZE as int))) % (BLOCK_SIZE as int),
        {
            let ghost file_pre = self.file@;
            let ghost off = file_pre.len() as int % (BLOCK_SIZE as int);
            let in_block = self.file.len() % BLOCK_SIZE;
            let left_over = BLOCK_SIZE - in_block;
            let ghost rest0 = data@.skip(idx as int);
            if left_over < HEADER_SIZE {
                // zero-fill the block trailer
                let mut k: usize = 0;
                while k < left_over
                    invariant
                        k <= left_over,
                        self.file@ == file_pre + zero_bytes(k as int),
                        self.flushed == old(self).flushed,
                    decreases left_over - k,
                {
                    self.file.push(0u8);
                    proof {
                        assert(self.file@ =~= file_pre + zero_bytes((k + 1) as int));
                    }
                    k = k + 1;
                }
                proof {
                    assert((file_pre.len() + left_over) as int % (BLOCK_SIZE as int) == 0) by {
                        vstd::arithmetic::div_mod::lemma_fundamental_div_mod(
                            file_pre.len() as int,
                            BLOCK_SIZE as int,
                        );
                        vstd::arithmetic::div_mod::lemma_mod_multiples_vanish(
                            file_pre.len() as int / (BLOCK_SIZE as int) + 1,
                            0,
                            BLOCK_SIZE as int,
                        );
                    }
                }
            }
            let ghost padded = self.file@;
            let ghost off2 = padded.len() as int % (BLOCK_SIZE as int);
            let in_block2 = self.file.len() % BLOCK_SIZE;
            let avail = BLOCK_SIZE - in_block2 - HEADER_SIZE;
            let rest = data.len() - idx;
            let is_end = rest <= avail;
            let cur_len = if is_end {
                rest
            } else {
                avail
            };
            let ty = RecordType::calc(is_begin, is_end);
            let frag = vstd::slice::slice_subrange(data, idx, idx + cur_len);
            self.emit_physical_record(ty, frag);
            proof {
                assert(frag@ =~= rest0.take(cur_len as int));
            }
            idx = idx + cur_len;
            if is_end {
                proof {
                    assert(rest0.take(cur_len as int) =~= rest0);
                    // one unfolding of the encoding at `off`
                    assert(spec_wal_encode_frags(off, rest0, is_begin) == (if BLOCK_SIZE as int
                        - off < HEADER_SIZE as int {
                        zero_bytes(BLOCK_SIZE as int - off)
                    } else {
                        Seq::<u8>::empty()
                    }) + spec_record_bytes(ty.as_byte(), rest0));
                    assert(self.file@ =~= file_pre + (if BLOCK_SIZE as int - off
                        < HEADER_SIZE as int {
                        zero_bytes(BLOCK_SIZE as int - off)
                    } else {
                        Seq::<u8>::empty()
                    }) + spec_record_bytes(ty.as_byte(), rest0));
                    assert(self.file@ =~= file_pre + spec_wal_encode_frags(off, rest0, is_begin));
                    assert(self.file@ == orig + spec_wal_encode_frags(off0, data@, true));
                }
                return ;
            }
            proof {
                let rest1 = rest0.skip(avail as int);
                assert(rest1 =~= data@.skip(idx as int));
                assert(spec_wal_encode_frags(off, rest0, is_begin) == (if BLOCK_SIZE as int - off
                    < HEADER_SIZE as int {
                    zero_bytes(BLOCK_SIZE as int - off)
                } else {
                    Seq::<u8>::empty()
                }) + spec_record_bytes(ty.as_byte(), rest0.take(avail as int))
                    + spec_wal_encode_frags(BLOCK_SIZE as int, rest1, false));
                lemma_encode_at_boundary(rest1, false);
                lemma_record_bytes_len(ty.as_byte(), rest0.take(avail as int));
                assert(self.file@.len() == padded.len() + HEADER_SIZE + avail);
                assert(self.file@.len() as int % (BLOCK_SIZE as int) == 0) by {
                    vstd::arithmetic::div_mod::lemma_fundamental_div_mod(
                        padded.len() as int,
                        BLOCK_SIZE as int,
                    );
                    vstd::arithmetic::div_mod::lemma_mod_multiples_vanish(
                        padded.len() as int / (BLOCK_SIZE as int) + 1,
                        0,
                        BLOCK_SIZE as int,
                    );
                }
                assert(self.file@ =~= file_pre + (if BLOCK_SIZE as int - off < HEADER_SIZE as int {
                    zero_bytes(BLOCK_SIZE as int - off)
                } else {
                    Seq::<u8>::empty()
                }) + spec_record_bytes(ty.as_byte(), rest0.take(avail as int)));
                assert(orig + spec_wal_encode_frags(off0, data@, true) == self.file@
                    + spec_wal_encode_frags(0, rest1, false)) by {
                    assert(file_pre + spec_wal_encode_frags(off, rest0, is_begin) =~= self.file@
                        + spec_wal_encode_frags(0, rest1, false));
                }
            }
            is_begin = false;
        }
    }
}

/// One physical record as parsed from the log.
pub struct Record {
    /// Stored checksum over the type byte and payload.
    pub crc: u32,
    /// Stored payload length.
    pub len: u16,
    /// Record kind.
    pub ty: RecordType,
    /// Payload bytes.
    pub data: Vec<u8>,
}

impl Record {
    /// Whether the stored checksum matches the record's own bytes.
    pub fn is_valid(&self) -> (r: bool)
        ensures
            r == (self.crc == crc32c_of(seq![self.ty.as_byte()] + self.data@)),
    {
        let mut tagged: Vec<u8> = Vec::new();
        tagged.push(self.ty.to_u8());
        append_bytes(&mut tagged, self.data.as_slice());
        proof {
            assert(tagged@ =~= seq![self.ty.as_byte()] + self.data@);
        }
        crc32c(tagged.as_slice()) == self.crc
    }
}

/// What reading one physical record from a given position yields.
pub enum RecordOutcome {
    /// The log ends cleanly at the position.
    Eof,
    /// The bytes at the position are not a whole, sound record.
    Fail(WalError),
    /// A record: its type byte, payload, and the position after it.
    Rec { ty: u8, payload: Seq<u8>, end: int },
}

/// Parse one physical record at `pos`. Block trailers too short for a
/// header are skipped without inspection, a zero type byte skips to the
/// next block boundary, and the checksum must match.
pub open spec fn spec_read_record(file: Seq<u8>, pos: int) -> RecordOutcome
    recommends
        0 <= pos <= file.len(),
    decreases file.len() - pos,
{
    if pos < 0 || pos >= file.len() {
        RecordOutcome::Eof
    } else {
        let in_block = pos % (BLOCK_SIZE as int);
        let left = BLOCK_SIZE - in_block;
        if left < HEADER_SIZE {
            let np = if pos + left <= file.len() {
                pos + left
            } else {
                file.len() as int
            };
            spec_read_record(file, np)
        } else if file.len() - pos < HEADER_SIZE {
            RecordOutcome::Fail(WalError::UnexpectedEof)
        } else {
            let ty = file[pos + 6];
            if ty == 0 {
                let np = if pos + left <= file.len() {
                    pos + left
                } else {
                    file.len() as int
                };
                spec_read_record(file, np)
            } else if ty > 4 {
                RecordOutcome::Fail(WalError::InvalidRecordType)
            } else {
                let l = vstd::bytes::spec_u16_from_le_bytes(file.subrange(pos + 4, pos + 6)) as int;
                if file.len() - (pos + HEADER_SIZE) < l {
                    RecordOutcome::Fail(WalError::UnexpectedEof)
                } else {
                    let crc = vstd::bytes::spec_u32_from_le_bytes(file.subrange(pos, pos + 4));
                    let payload = file.subrange(pos + HEADER_SIZE, pos + HEADER_SIZE + l);
                    if crc != crc32c_of(seq![ty] + payload) {
                        RecordOutcome::Fail(WalError::CrcMismatch)
                    } else {
                        RecordOutcome::Rec { ty, payload, end: pos + HEADER_SIZE + l }
                    }
                }
            }
        }
    }
}

/// A parsed record lies between its position and the end of the log.
pub proof fn lemma_read_record_advances(file: Seq<u8>, pos: int)
    requires
        0 <= pos <= file.len(),
    ensures
        spec_read_record(file, pos) matches RecordOutcome::Rec { end, .. } ==> pos < end
            <= file.len(),
    decreases file.len() - pos,
{
    if pos < file.len() {
        let in_block = pos % (BLOCK_SIZE as int);
        let left = BLOCK_SIZE - in_block;
        let np = if pos + left <= file.len() {
            pos + left
        } else {
            file.len() as int
        };
        if left < HEADER_SIZE {
            lemma_read_record_advances(file, np);
        } else if file.len() - pos >= HEADER_SIZE && file[pos + 6] == 0 {
            lemma_read_record_advances(file, np);
        }
    }
}

/// What reading one logical payload from a given position yields.
pub enum PayloadOutcome {
    /// The log ends cleanly at the position.
    Eof,
    /// The bytes at the position are not a whole, sound payload.
    Fail(WalError),
    /// A payload and the position after its last fragment.
    Payload { data: Seq<u8>, end: int },
}

/// Continue a fragmented payload at `pos` with `acc` already gathered:
/// only `Middle` fragments may follow, until a `Last` fragment closes
/// the payload. Anything else is an invalid log.
pub open spec fn spec_read_rest(file: Seq<u8>, pos: int, acc: Seq<u8>) -> PayloadOutcome
    recommends
        0 <= pos <= file.len(),
    decreases file.len() - pos,
{
    if pos < 0 || pos > file.len() {
        PayloadOutcome::Fail(WalError::InvalidWalFile)
    } else {
        match spec_read_record(file, pos) {
            RecordOutcome::Eof => PayloadOutcome::Fail(WalError::InvalidWalFile),
            RecordOutcome::Fail(e) => PayloadOutcome::Fail(e),
            RecordOutcome::Rec { ty, payload, end } => {
                if ty == 3 {
                    proof {
                        lemma_read_record_advances(file, pos);
                    }
                    spec_read_rest(file, end, acc + payload)
                } else if ty == 4 {
                    PayloadOutcome::Payload { data: acc + payload, end }
                } else {
                    PayloadOutcome::Fail(WalError::InvalidWalFile)
                }
            },
        }
    }
}

/// Read one logical payload at `pos`: a `Full` record alone, or a
/// `First` record followed by its `Middle` and `Last` fragments.
pub open spec fn spec_read_data(file: Seq<u8>, pos: int) -> PayloadOutcome {
    match spec_read_record(file, pos) {
        RecordOutcome::Eof => PayloadOutcome::Eof,
        RecordOutcome::Fail(e) => PayloadOutcome::Fail(e),
        RecordOutcome::Rec { ty, payload, end } => {
            if ty == 1 {
                PayloadOutcome::Payload { data: payload, end }
            } else if ty == 2 {
                spec_read_rest(file, end, payload)
            } else {
                PayloadOutcome::Fail(WalError::InvalidWalFile)
            }
        },
    }
}

/// A reassembled payload lies between its position and the end of the
/// log.
pub proof fn lemma_read_rest_advances(file: Seq<u8>, pos: int, acc: Seq<u8>)
    requires
        0 <= pos <= file.len(),
    ensures
        spec_read_rest(file, pos, acc) matches PayloadOutcome::Payload { end, .. } ==> pos < end
            <= file.len(),
    decreases file.len() - pos,
{
    let r = spec_read_record(file, pos);
    match r {
        RecordOutcome::Rec { ty, payload, end } => {
            lemma_read_record_advances(file, pos);
            if ty == 3 {
                lemma_read_rest_advances(file, end, acc + payload);
            }
        },
        _ => {},
    }
}

/// A reassembled payload lies between its position and the end of the
/// log.
pub proof fn lemma_read_data_advances(file: Seq<u8>, pos: int)
    requires
        0 <= pos <= file.len(),
    ensures
        spec_read_data(file, pos) matches PayloadOutcome::Payload { end, .. } ==> pos < end
            <= file.len(),
{
    let r = spec_read_record(file, pos);
    match r {
        RecordOutcome::Rec { ty, payload, end } => {
            lemma_read_record_advances(file, pos);
            if ty == 2 {
                lemma_read_rest_advances(file, end, payload);
            }
        },
        _ => {},
    }
}

/// Everything a replay of the log yields: the payloads read in order,
/// and what ended the replay.
pub struct Replay {
    /// The complete logical payloads, in file order.
    pub payloads: Seq<Seq<u8>>,
    /// `None` for a clean end of log, or the error met after the last
    /// whole payload.
    pub fault: Option<WalError>,
}

/// Read logical payloads from `pos` until the log ends or fails.
pub open spec fn spec_replay(file: Seq<u8>, pos: int) -> Replay
    recommends
        0 <= pos <= file.len(),
    decreases file.len() - pos,
{
    if pos < 0 || pos > file.len() {
        Replay { payloads: Seq::empty(), fault: Some(WalError::InvalidWalFile) }
    } else {
        match spec_read_data(file, pos) {
            PayloadOutcome::Eof => Replay { payloads: Seq::empty(), fault: None },
            PayloadOutcome::Fail(e) => Replay { payloads: Seq::empty(), fault: Some(e) },
            PayloadOutcome::Payload { data, end } => {
                proof {
                    lemma_read_data_advances(file, pos);
                }
                let r = spec_replay(file, end);
                Replay { payloads: seq![data] + r.payloads, fault: r.fault }
            },
        }
    }
}

/// Reader half of the log: parses physical records from an in-memory
/// image of the file and reassembles logical payloads.
pub struct WalFileReader {
    file: Vec<u8>,
    pos: usize,
}

impl WalFileReader {
    /// The cursor never passes the end of the file.
    #[verifier::type_invariant]
    spec fn type_wf(&self) -> bool {
        self.pos <= self.file@.len()
    }

    /// The whole contents of the log file.
    pub closed spec fn log(&self) -> Seq<u8> {
        self.file@
    }

    /// The position of the next read.
    pub closed spec fn cursor(&self) -> int {
        self.pos as int
    }

    /// Read a log whose bytes are `file`, from the start.
    pub fn new(file: Vec<u8>) -> (r: WalFileReader)
        ensures
            r.log() == file@,
            r.cursor() == 0,
            0 <= r.cursor() <= r.log().len(),
    {
        WalFileReader { file, pos: 0 }
    }

    /// Read the next physical record: `Ok(None)` at a clean end of log,
    /// a record with a verified checksum, or the first fault met.
    pub fn read_record(&mut self) -> (r: Result<Option<Record>, WalError>)
        ensures
            final(self).log() == old(self).log(),
            0 <= final(self).cursor() <= final(self).log().len(),
            match r {
                Ok(None) => spec_read_record(old(self).log(), old(self).cursor())
                    is Eof,
                Ok(Some(rec)) => spec_read_record(old(self).log(), old(self).cursor())
                    == (RecordOutcome::Rec {
                    ty: rec.ty.as_byte(),
                    payload: rec.data@,
                    end: final(self).cursor(),
                }) && rec.len == rec.data@.len() && rec.crc == crc32c_of(
                    seq![rec.ty.as_byte()] + rec.data@,
                ),
                Err(e) => spec_read_record(old(self).log(), old(self).cursor())
                    == RecordOutcome::Fail(e),
            },
    {
        proof {
            use_type_invariant(&*self);
        }
        let ghost file = self.file@;
        let ghost pos0 = self.pos as int;
        let len = self.file.len();
        loop
            invariant
                file == old(self).file@,
                pos0 == old(self).pos as int,
                self.file@ == file,
                self.pos <= len,
                len == file.len(),
                0 <= pos0 <= file.len(),
                spec_read_record(file, pos0) == spec_read_record(file, self.pos as int),
            decreases file.len() - self.pos,
        {
            let pos = self.pos;
            if pos == len {
                return Ok(None);
            }
            let in_block = pos % BLOCK_SIZE;
            let left = BLOCK_SIZE - in_block;
            if left < HEADER_SIZE {
                let np = if left <= len - pos {
                    pos + left
                } else {
                    len
                };
                self.pos = np;
                continue ;
            }
            if len - pos < HEADER_SIZE {
                return Err(WalError::UnexpectedEof);
            }
            let ty_byte = self.file[pos + 6];
            if ty_byte == 0 {
                let np = if left <= len - pos {
                    pos + left
                } else {
                    len
                };
                self.pos = np;
                continue ;
            }
            let ty = match RecordType::from_u8(ty_byte) {
                Ok(t) => t,
                Err(e) => {
                    return Err(e);
                },
            };
            let len_field = vstd::bytes::u16_from_le_bytes(
                vstd::slice::slice_subrange(self.file.as_slice(), pos + 4, pos + 6),
            );
            let l = len_field as usize;
            if len - (pos + HEADER_SIZE) < l {
                return Err(WalError::UnexpectedEof);
            }
            let crc = vstd::bytes::u32_from_le_bytes(
                vstd::slice::slice_subrange(self.file.as_slice(), pos, pos + 4),
            );
            let payload = copy_bytes(
                vstd::slice::slice_subrange(
                    self.file.as_slice(),
                    pos + HEADER_SIZE,
                    pos + HEADER_SIZE + l,
                ),
            );
            let mut tagged: Vec<u8> = Vec::new();
            tagged.push(ty_byte);
            append_bytes(&mut tagged, payload.as_slice());
            proof {
                assert(tagged@ =~= seq![ty_byte] + payload@);
            }
            let actual = crc32c(tagged.as_slice());
            if crc != actual {
                return Err(WalError::CrcMismatch);
            }
            self.pos = pos + HEADER_SIZE + l;
            return Ok(Some(Record { crc, len: len_field, ty, data: payload }));
        }
    }

    /// Read the next logical payload: `Ok(None)` at a clean end of log,
    /// the reassembled payload bytes, or the first fault met.
    pub fn read_data(&mut self) -> (r: Result<Option<Vec<u8>>, WalError>)
        ensures
            final(self).log() == old(self).log(),
            0 <= final(self).cursor() <= final(self).log().len(),
            match r {
                Ok(None) => spec_read_data(old(self).log(), old(self).cursor())
                    is Eof,
                Ok(Some(d)) => spec_read_data(old(self).log(), old(self).cursor())
                    == (PayloadOutcome::Payload { data: d@, end: final(self).cursor() }),
                Err(e) => spec_read_data(old(self).log(), old(self).cursor())
                    == PayloadOutcome::Fail(e),
            },
    {
        proof {
            use_type_invariant(&*self);
        }
        let ghost file = self.file@;
        let ghost pos0 = self.pos as int;
        let first = match self.read_record() {
            Err(e) => {
                return Err(e);
            },
            Ok(None) => {
                return Ok(None);
            },
            Ok(Some(rec)) => rec,
        };
        proof {
            use_type_invariant(&*self);
        }
        let mut acc = match first.ty {
            RecordType::Full => {
                return Ok(Some(first.data));
            },
            RecordType::First => first.data,
            _ => {
                return Err(WalError::InvalidWalFile);
            },
        };
        loop
            invariant
                file == old(self).file@,
                pos0 == old(self).pos as int,
                self.file@ == file,
                spec_read_data(file, pos0) == spec_read_rest(file, self.pos as int, acc@),
                self.pos <= file.len(),
            decreases file.len() - self.pos,
        {
            let ghost cur = self.pos as int;
            let rec = match self.read_record() {
                Err(e) => {
                    return Err(e);
                },
                Ok(None) => {
                    return Err(WalError::InvalidWalFile);
                },
                Ok(Some(rec)) => rec,
            };
            proof {
                use_type_invariant(&*self);
                lemma_read_record_advances(file, cur);
            }
            match rec.ty {
                RecordType::Middle => {
                    append_bytes(&mut acc, rec.data.as_slice());
                },
                RecordType::Last => {
                    append_bytes(&mut acc, rec.data.as_slice());
                    return Ok(Some(acc));
                },
                _ => {
                    return Err(WalError::InvalidWalFile);
                },
            }
        }
    }
}

/// The log payload of one `set`: the key's length, the key, the value's
/// length, the value, lengths varint-encoded.
pub open spec fn spec_kv_payload(key: Seq<u8>, value: Seq<u8>) -> Seq<u8> {
    spec_varint(key.len()) + key + spec_varint(value.len()) + value
}

/// Decode a `set` payload back into its key and value; `None` when the
/// bytes are not exactly a key/value payload.
pub open spec fn spec_kv_decode(p: Seq<u8>) -> Option<(Seq<u8>, Seq<u8>)> {
    match crate::encoding::spec_varint_decode(p) {
        None => None,
        Some((kl, n1)) => if kl >= 0x1_0000_0000 || n1 > 5 {
            None
        } else {
            let r1 = p.skip(n1 as int);
            if r1.len() < kl {
                None
            } else {
                let k = r1.take(kl as int);
                let r2 = r1.skip(kl as int);
                match crate::encoding::spec_varint_decode(r2) {
                    None => None,
                    Some((vl, n2)) => if vl >= 0x1_0000_0000 || n2 > 5 {
                        None
                    } else {
                        let r3 = r2.skip(n2 as int);
                        if r3.len() != vl {
                            None
                        } else {
                            Some((k, r3))
                        }
                    },
                }
            }
        },
    }
}

/// Round trip: a key/value payload decodes back to its key and value.
pub proof fn lemma_kv_round_trip(key: Seq<u8>, value: Seq<u8>)
    requires
        key.len() < 0x1_0000_0000,
        value.len() < 0x1_0000_0000,
    ensures
        spec_kv_decode(spec_kv_payload(key, value)) == Some((key, value)),
{
    crate::encoding::lemma_pow128_values();
    let p = spec_kv_payload(key, value);
    let ek = spec_varint(key.len());
    let ev = spec_varint(value.len());
    assert(p =~= ek + (key + ev + value));
    crate::encoding::lemma_varint_round_trip(key.len(), key + ev + value);
    crate::encoding::lemma_varint_len(key.len(), 5);
    let n1 = ek.len();
    let r1 = p.skip(n1 as int);
    assert(r1 =~= key + ev + value);
    assert(r1.take(key.len() as int) =~= key);
    let r2 = r1.skip(key.len() as int);
    assert(r2 =~= ev + value);
    crate::encoding::lemma_varint_round_trip(value.len(), value);
    crate::encoding::lemma_varint_len(value.len(), 5);
    let n2 = ev.len();
    let r3 = r2.skip(n2 as int);
    assert(r3 =~= value);
}

/// Build the log payload of one `set`.
pub fn encode_kv(key: &[u8], value: &[u8]) -> (out: Vec<u8>)
    requires
        key@.len() < 0x1_0000_0000,
        value@.len() < 0x1_0000_0000,
    ensures
        out@ == spec_kv_payload(key@, value@),
{
    let mut out: Vec<u8> = Vec::new();
    out.put_var_u32_le(key.len() as u32);
    append_bytes(&mut out, key);
    out.put_var_u32_le(value.len() as u32);
    append_bytes(&mut out, value);
    proof {
        assert(out@ =~= spec_kv_payload(key@, value@));
    }
    out
}

/// Decode the log payload of one `set` back into its key and value.
pub fn decode_kv(payload: Vec<u8>) -> (r: Option<(Vec<u8>, Vec<u8>)>)
    ensures
        match r {
            Some(kv) => spec_kv_decode(payload@) == Some((kv.0@, kv.1@)),
            None => spec_kv_decode(payload@) is None,
        },
{
    let ghost p = payload@;
    let mut cur = crate::encoding::ByteCursor::new(payload);
    let kl = match cur.get_var_u32_le() {
        None => {
            return None;
        },
        Some(x) => x,
    };
    let k = match cur.take(kl as usize) {
        None => {
            return None;
        },
        Some(k) => k,
    };
    let vl = match cur.get_var_u32_le() {
        None => {
            return None;
        },
        Some(x) => x,
    };
    if cur.remaining_len() != vl as usize {
        return None;
    }
    let v = match cur.take(vl as usize) {
        None => {
            return None;
        },
        Some(v) => v,
    };
    Some((k, v))
}

/// The write-ahead log of the store: key/value writes framed as logical
/// payloads.
pub struct Wal {
    writer: WalFileWriter,
}

impl Wal {
    /// The writer is in a sound state.
    pub closed spec fn wf(&self) -> bool {
        self.writer.wf()
    }

    /// The whole contents of the log file.
    pub closed spec fn log(&self) -> Seq<u8> {
        self.writer.log()
    }

    /// How many leading bytes of the file the caller has already taken
    /// to durable storage.
    pub closed spec fn flushed_to(&self) -> int {
        self.writer.flushed_to()
    }

    /// Resume a log whose current file bytes are `contents`.
    pub fn open(contents: Vec<u8>) -> (w: Wal)
        ensures
            w.wf(),
            w.log() == contents@,
            w.flushed_to() == contents@.len(),
    {
        Wal { writer: WalFileWriter::new(contents) }
    }

    /// Record one key/value write in the log.
    pub fn set(&mut self, key: &[u8], value: &[u8])
        requires
            old(self).wf(),
            key@.len() < 0x1_0000_0000,
            value@.len() < 0x1_0000_0000,
        ensures
            final(self).wf(),
            final(self).log() == old(self).log() + spec_wal_encode(
                old(self).log().len() as int % (BLOCK_SIZE as int),
                spec_kv_payload(key@, value@),
            ),
            final(self).flushed_to() == old(self).flushed_to(),
    {
        let payload = encode_kv(key, value);
        self.writer.write_data(payload.as_slice());
    }

    /// The bytes appended since the last hand-off, for the caller to
    /// append to the real file.
    pub fn take_pending(&mut self) -> (out: Vec<u8>)
        requires
            old(self).wf(),
        ensures
            final(self).wf(),
            out@ == old(self).log().skip(old(self).flushed_to()),
            final(self).log() == old(self).log(),
            final(self).flushed_to() == final(self).log().len(),
    {
        self.writer.take_pending()
    }
}

} // verus!
