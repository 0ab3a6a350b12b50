//! The store itself: a write-ahead log in front of an in-memory ordered
//! table.
//!
//! Every write reaches the log before it becomes visible; a lookup reads
//! the table. Opening a store replays the log's complete payloads into a
//! fresh table: a torn tail — the log ending inside a record or between
//! the fragments of one payload — is treated as crash truncation and
//! discarded, while any other fault is fatal.

use vstd::prelude::*;

use crate::encoding::copy_bytes;
use crate::mem_table::MemTable;
use crate::vfs::VfsError;
use crate::wal::{
    decode_kv, lemma_read_data_advances, spec_kv_decode, spec_kv_payload, spec_read_data,
    spec_wal_encode, PayloadOutcome, Wal, WalError, WalFileReader, BLOCK_SIZE,
};

verus! {

/// Error surfaced by the store.
#[derive(Clone, Copy, Debug, PartialEq, Eq, Structural)]
pub enum DbError {
    /// The underlying file operations failed.
    VfsError(VfsError),
    /// The write-ahead log could not be read or written.
    WalError(WalError),
}

/// The table that replaying the log from `pos` onto `m` leaves behind:
/// each complete payload is decoded into a key and value and inserted
/// in file order. A torn tail — an unexpected end of file or fragments
/// cut short — ends the replay quietly; a payload that is not a
/// key/value pair, or any other fault, is an error.
pub open spec fn spec_db_init_from(
    file: Seq<u8>,
    pos: int,
    m: Map<Seq<u8>, Seq<u8>>,
) -> Result<Map<Seq<u8>, Seq<u8>>, WalError>
    recommends
        0 <= pos <= file.len(),
    decreases file.len() - pos,
{
    if pos < 0 || pos > file.len() {
        Err(WalError::InvalidWalFile)
    } else {
        match spec_read_data(file, pos) {
            PayloadOutcome::Eof => Ok(m),
            PayloadOutcome::Fail(e) => {
                if e == WalError::UnexpectedEof || e == WalError::InvalidWalFile {
                    Ok(m)
                } else {
                    Err(e)
                }
            },
            PayloadOutcome::Payload { data, end } => {
                match spec_kv_decode(data) {
                    None => Err(WalError::InvalidWalFile),
                    Some(kv) => {
                        proof {
                            lemma_read_data_advances(file, pos);
                        }
                        spec_db_init_from(file, end, m.insert(kv.0, kv.1))
                    },
                }
            },
        }
    }
}

/// The table that opening a store over the log bytes `file` builds.
pub open spec fn spec_db_init(file: Seq<u8>) -> Result<Map<Seq<u8>, Seq<u8>>, WalError> {
    spec_db_init_from(file, 0, Map::empty())
}

/// The table left by applying a sequence of key/value writes, in order,
/// on top of `m`; a later write to the same key overrides an earlier
/// one.
pub open spec fn spec_mem_after(
    m: Map<Seq<u8>, Seq<u8>>,
    pairs: Seq<(Seq<u8>, Seq<u8>)>,
) -> Map<Seq<u8>, Seq<u8>>
    decreases pairs.len(),
{
    if pairs.len() == 0 {
        m
    } else {
        spec_mem_after(m.insert(pairs[0].0, pairs[0].1), pairs.skip(1))
    }
}

/// An embedded ordered key/value store: ordered table plus write-ahead
/// log.
pub struct Db {
    mem: MemTable,
    wal: Wal,
}

impl Db {
    /// Table and log are each in a sound state.
    pub closed spec fn wf(&self) -> bool {
        self.mem.wf() && self.wal.wf()
    }

    /// The mapping the store holds.
    pub closed spec fn map_view(&self) -> Map<Seq<u8>, Seq<u8>> {
        self.mem.map_view()
    }

    /// The whole contents of the log file.
    pub closed spec fn log(&self) -> Seq<u8> {
        self.wal.log()
    }

    /// How many leading bytes of the log the caller has already taken
    /// to durable storage.
    pub closed spec fn flushed_to(&self) -> int {
        self.wal.flushed_to()
    }

    /// Open a store over a log whose current file bytes are `contents`,
    /// replaying its complete payloads into a fresh table.
    pub fn create(contents: Vec<u8>) -> (r: Result<Db, DbError>)
        ensures
            match r {
                Ok(db) => db.wf() && spec_db_init(contents@) == Ok::<_, WalError>(db.map_view())
                    && db.log() == contents@ && db.flushed_to() == contents@.len(),
                Err(e) => e matches DbError::WalError(we) && spec_db_init(contents@)
                    == Err::<Map<Seq<u8>, Seq<u8>>, _>(we),
            },
    {
        let ghost file = contents@;
        let mut mem = MemTable::new();
        let mut reader = WalFileReader::new(copy_bytes(contents.as_slice()));
        loop
            invariant
                file == contents@,
                mem.wf(),
                reader.log() == file,
                0 <= reader.cursor() <= file.len(),
                spec_db_init(file) == spec_db_init_from(file, reader.cursor(), mem.map_view()),
            decreases file.len() - reader.cursor(),
        {
            let ghost cur = reader.cursor();
            match reader.read_data() {
                Ok(None) => {
                    return Ok(Db { mem, wal: Wal::open(contents) });
                },
                Ok(Some(payload)) => {
                    proof {
                        lemma_read_data_advances(file, cur);
                    }
                    match decode_kv(payload) {
                        None => {
                            return Err(DbError::WalError(WalError::InvalidWalFile));
                        },
                        Some(kv) => {
                            mem.set(kv.0.as_slice(), kv.1.as_slice());
                        },
                    }
                },
                Err(e) => {
                    match e {
                        WalError::UnexpectedEof | WalError::InvalidWalFile => {
                            return Ok(Db { mem, wal: Wal::open(contents) });
                        },
                        _ => {
                            return Err(DbError::WalError(e));
                        },
                    }
                },
            }
        }
    }

    /// The value held for `key`, if any.
    pub fn get(&self, key: &[u8]) -> (r: Option<Vec<u8>>)
        requires
            self.wf(),
        ensures
            match r {
                Some(v) => self.map_view().contains_key(key@) && v@ == self.map_view()[key@],
                None => !self.map_view().contains_key(key@),
            },
    {
        self.mem.get(key)
    }

    /// Set `key` to `value`: record the write in the log, then make it
    /// visible in the table.
    pub fn set(&mut self, key: &[u8], value: &[u8])
        requires
            old(self).wf(),
            key@.len() < 0x1_0000_0000,
            value@.len() < 0x1_0000_0000,
        ensures
            final(self).wf(),
            final(self).map_view() == old(self).map_view().insert(key@, value@),
            final(self).log() == old(self).log() + spec_wal_encode(
                old(self).log().len() as int % (BLOCK_SIZE as int),
                spec_kv_payload(key@, value@),
            ),
            final(self).flushed_to() == old(self).flushed_to(),
    {
        self.wal.set(key, value);
        self.mem.set(key, value);
    }

    /// The log bytes appended since the last hand-off, for the caller
    /// to append to the real file.
    pub fn take_pending(&mut self) -> (out: Vec<u8>)
        requires
            old(self).wf(),
        ensures
            final(self).wf(),
            out@ == old(self).log().skip(old(self).flushed_to()),
            final(self).log() == old(self).log(),
            final(self).flushed_to() == final(self).log().len(),
            final(self).map_view() == old(self).map_view(),
    {
        self.wal.take_pending()
    }
}

} // verus!
