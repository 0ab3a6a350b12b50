//! Sorted-string-table block builder: a prefix-compressed block of
//! ascending key/value pairs with periodic restart points.
//!
//! Each entry stores how many leading bytes it shares with the previous
//! key, the rest of its key and its value, lengths varint-encoded. Every
//! 16th entry is a restart: it is stored without prefix compression and
//! its byte offset is recorded. Building the block appends the restart
//! offsets and their count as little-endian 32-bit words, so a reader
//! can find the restart array from the block's tail.

use vstd::prelude::*;

use crate::encoding::{append_bytes, copy_bytes, spec_varint, BufMutExt};

verus! {

/// How many entries share one restart point.
pub const RESTART_THRESHOLD: usize = 16;

/// The length of the longest common prefix of two byte strings.
pub open spec fn lcp_len(a: Seq<u8>, b: Seq<u8>) -> int
    decreases a.len(),
{
    if a.len() == 0 || b.len() == 0 || a[0] != b[0] {
        0
    } else {
        1 + lcp_len(a.skip(1), b.skip(1))
    }
}

/// The common prefix is no longer than either string.
pub proof fn lemma_lcp_le(a: Seq<u8>, b: Seq<u8>)
    ensures
        0 <= lcp_len(a, b),
        lcp_len(a, b) <= a.len(),
        lcp_len(a, b) <= b.len(),
    decreases a.len(),
{
    if a.len() > 0 && b.len() > 0 && a[0] == b[0] {
        lemma_lcp_le(a.skip(1), b.skip(1));
    }
}

/// The bytes of one block entry: shared prefix length, non-shared
/// length, value length, then the key's non-shared bytes and the value.
pub open spec fn spec_block_entry(
    prev: Seq<u8>,
    key: Seq<u8>,
    value: Seq<u8>,
    restart: bool,
) -> Seq<u8> {
    let shared = if restart {
        0int
    } else {
        lcp_len(prev, key)
    };
    spec_varint(shared as nat) + spec_varint((key.len() - shared) as nat) + spec_varint(
        value.len(),
    ) + key.skip(shared) + value
}

/// The entry bytes of a block, in order; the entry at an index that is
/// a multiple of 16 is a restart and shares nothing.
pub open spec fn spec_block_body(entries: Seq<(Seq<u8>, Seq<u8>)>) -> Seq<u8>
    decreases entries.len(),
{
    if entries.len() == 0 {
        Seq::empty()
    } else {
        let i = entries.len() - 1;
        let prev = if i == 0 {
            Seq::<u8>::empty()
        } else {
            entries[i - 1].0
        };
        spec_block_body(entries.drop_last()) + spec_block_entry(
            prev,
            entries[i].0,
            entries[i].1,
            i % (RESTART_THRESHOLD as int) == 0,
        )
    }
}

/// The byte offsets at which the block's restart entries begin.
pub open spec fn spec_restart_offsets(entries: Seq<(Seq<u8>, Seq<u8>)>) -> Seq<int>
    decreases entries.len(),
{
    if entries.len() == 0 {
        Seq::empty()
    } else {
        let r = spec_restart_offsets(entries.drop_last());
        if (entries.len() - 1) % (RESTART_THRESHOLD as int) == 0 {
            r.push(spec_block_body(entries.drop_last()).len() as int)
        } else {
            r
        }
    }
}

/// There are no more restart points than entries.
pub proof fn lemma_restart_offsets_len(entries: Seq<(Seq<u8>, Seq<u8>)>)
    ensures
        spec_restart_offsets(entries).len() <= entries.len(),
    decreases entries.len(),
{
    if entries.len() > 0 {
        lemma_restart_offsets_len(entries.drop_last());
    }
}

/// The restart offsets serialized as little-endian 32-bit words.
pub open spec fn spec_restart_array(offs: Seq<int>) -> Seq<u8>
    decreases offs.len(),
{
    if offs.len() == 0 {
        Seq::empty()
    } else {
        spec_restart_array(offs.drop_last()) + vstd::bytes::spec_u32_to_le_bytes(
            offs.last() as u32,
        )
    }
}

/// The finished block: entries, restart offsets, restart count.
pub open spec fn spec_block_bytes(entries: Seq<(Seq<u8>, Seq<u8>)>) -> Seq<u8> {
    spec_block_body(entries) + spec_restart_array(spec_restart_offsets(entries))
        + vstd::bytes::spec_u32_to_le_bytes(spec_restart_offsets(entries).len() as u32)
}

/// The length of the longest common prefix of two byte strings.
pub fn shared_prefix_len(a: &[u8], b: &[u8]) -> (r: usize)
    ensures
        r == lcp_len(a@, b@),
        r <= a@.len(),
        r <= b@.len(),
{
    let na = a.len();
    let nb = b.len();
    let mut i: usize = 0;
    proof {
        assert(a@.skip(0) =~= a@);
        assert(b@.skip(0) =~= b@);
    }
    loop
        invariant
            i <= na,
            i <= nb,
            na == a@.len(),
            nb == b@.len(),
            lex_prefix_inv(a@, b@, i as int),
        decreases na - i,
    {
        if i == na || i == nb || a[i] != b[i] {
            proof {
                assert(lcp_len(a@.skip(i as int), b@.skip(i as int)) == 0) by {
                    if i < na && i < nb {
                        assert(a@.skip(i as int)[0] == a@[i as int]);
                        assert(b@.skip(i as int)[0] == b@[i as int]);
                    }
                }
            }
            return i;
        }
        proof {
            assert(a@.skip(i as int)[0] == a@[i as int]);
            assert(b@.skip(i as int)[0] == b@[i as int]);
            assert(a@.skip(i as int).skip(1) =~= a@.skip(i as int + 1));
            assert(b@.skip(i as int).skip(1) =~= b@.skip(i as int + 1));
        }
        i = i + 1;
    }
}

/// After `i` equal leading bytes, the common prefix is `i` plus what the
/// tails share.
pub open spec fn lex_prefix_inv(a: Seq<u8>, b: Seq<u8>, i: int) -> bool {
    lcp_len(a, b) == i + lcp_len(a.skip(i), b.skip(i))
}

/// Builds one sorted-string-table block from ascending key/value pairs.
pub struct BlockBuilder {
    buf: Vec<u8>,
    restarts: Vec<u32>,
    num_entries: usize,
    last_key: Vec<u8>,
    entries: Ghost<Seq<(Seq<u8>, Seq<u8>)>>,
}

impl BlockBuilder {
    /// The buffer, restart list and last key track the entries added.
    pub closed spec fn wf(&self) -> bool {
        &&& self.buf@ == spec_block_body(self.entries@)
        &&& self.num_entries == self.entries@.len()
        &&& self.last_key@ == (if self.entries@.len() == 0 {
            Seq::<u8>::empty()
        } else {
            self.entries@.last().0
        })
        &&& self.restarts@.len() == spec_restart_offsets(self.entries@).len()
        &&& (forall|k: int|
            0 <= k < self.restarts@.len() ==> #[trigger] self.restarts@[k] as int
                == spec_restart_offsets(self.entries@)[k])
    }

    /// The key/value pairs added so far.
    pub closed spec fn entries_view(&self) -> Seq<(Seq<u8>, Seq<u8>)> {
        self.entries@
    }

    /// How many bytes of entry data the block holds so far.
    pub closed spec fn size(&self) -> int {
        self.buf@.len() as int
    }

    /// Start an empty block.
    pub fn new() -> (b: BlockBuilder)
        ensures
            b.wf(),
            b.entries_view() == Seq::<(Seq<u8>, Seq<u8>)>::empty(),
            b.size() == 0,
    {
        BlockBuilder {
            buf: Vec::new(),
            restarts: Vec::new(),
            num_entries: 0,
            last_key: Vec::new(),
            entries: Ghost(Seq::empty()),
        }
    }

    /// Append one entry. Keys are expected in ascending order; the
    /// entry is prefix-compressed against the previous key unless it
    /// falls on a restart point.
    pub fn add(&mut self, key: &[u8], value: &[u8])
        requires
            old(self).wf(),
            key@.len() < 0x1_0000_0000,
            value@.len() < 0x1_0000_0000,
            old(self).entries_view().len() < 0xFFFF_FFFF,
            old(self).size() + 15 + key@.len() + value@.len() <= 0xFFFF_FFFF,
        ensures
            final(self).wf(),
            final(self).entries_view() == old(self).entries_view().push((key@, value@)),
    {
        let ghost es = self.entries@;
        let ghost offs = spec_restart_offsets(es);
        proof {
            crate::encoding::lemma_pow128_values();
            lemma_lcp_le(self.last_key@, key@);
        }
        let restart = self.num_entries % RESTART_THRESHOLD == 0;
        let shared: usize = if restart {
            self.restarts.push(self.buf.len() as u32);
            0
        } else {
            shared_prefix_len(self.last_key.as_slice(), key)
        };
        self.buf.put_var_u32_le(shared as u32);
        self.buf.put_var_u32_le((key.len() - shared) as u32);
        self.buf.put_var_u32_le(value.len() as u32);
        append_bytes(&mut self.buf, vstd::slice::slice_subrange(key, shared, key.len()));
        append_bytes(&mut self.buf, value);
        self.last_key = copy_bytes(key);
        self.num_entries = self.num_entries + 1;
        proof {
            self.entries@ = es.push((key@, value@));
        }
        proof {
            let es2 = self.entries@;
            let ghost prev = if es.len() == 0 {
                Seq::<u8>::empty()
            } else {
                es.last().0
            };
            assert(es2.drop_last() =~= es);
            assert(key@.subrange(shared as int, key@.len() as int) =~= key@.skip(shared as int));
            assert(self.buf@ =~= spec_block_body(es) + spec_block_entry(
                prev,
                key@,
                value@,
                es.len() as int % (RESTART_THRESHOLD as int) == 0,
            ));
            assert(self.buf@ == spec_block_body(es2));
            if es.len() as int % (RESTART_THRESHOLD as int) == 0 {
                assert(spec_restart_offsets(es2) =~= offs.push(spec_block_body(es).len() as int));
            } else {
                assert(spec_restart_offsets(es2) =~= offs);
            }
        }
    }

    /// Serialize the restart offsets and their count after the entries
    /// and hand the block back.
    pub fn build(self) -> (out: Vec<u8>)
        requires
            self.wf(),
            self.entries_view().len() < 0xFFFF_FFFF,
        ensures
            out@ == spec_block_bytes(self.entries_view()),
    {
        let ghost es = self.entries@;
        let ghost offs = spec_restart_offsets(es);
        proof {
            lemma_restart_offsets_len(es);
            assert(spec_restart_array(offs.take(0)) =~= Seq::<u8>::empty());
        }
        let BlockBuilder { mut buf, restarts, num_entries: _, last_key: _, entries: _ } = self;
        let n = restarts.len();
        let mut k: usize = 0;
        while k < n
            invariant
                k <= n,
                n == restarts@.len(),
                n == offs.len(),
                forall|j: int| 0 <= j < n ==> #[trigger] restarts@[j] as int == offs[j],
                buf@ == spec_block_body(es) + spec_restart_array(offs.take(k as int)),
            decreases n - k,
        {
            let word = vstd::bytes::u32_to_le_bytes(restarts[k]);
            append_bytes(&mut buf, word.as_slice());
            proof {
                assert(offs.take(k as int + 1).drop_last() =~= offs.take(k as int));
                assert(offs.take(k as int + 1).last() == offs[k as int]);
                assert(buf@ =~= spec_block_body(es) + spec_restart_array(offs.take(k as int + 1)));
            }
            k = k + 1;
        }
        let word = vstd::bytes::u32_to_le_bytes(n as u32);
        append_bytes(&mut buf, word.as_slice());
        proof {
            assert(offs.take(offs.len() as int) =~= offs);
            assert(buf@ =~= spec_block_bytes(es));
        }
        buf
    }
}

} // verus!
