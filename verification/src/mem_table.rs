//! The in-memory ordered table: the write buffer that live writes and
//! log replay fill, and that point lookups read.
//!
//! Keys are opaque byte strings compared lexicographically as unsigned
//! bytes; at most one value is held per key, and the entries stay in
//! ascending key order.

use vstd::prelude::*;

use crate::encoding::copy_bytes;

verus! {

/// Strict lexicographic order on byte strings: a proper prefix comes
/// first, otherwise the first differing byte decides.
pub open spec fn lex_lt(a: Seq<u8>, b: Seq<u8>) -> bool
    decreases a.len(),
{
    if b.len() == 0 {
        false
    } else if a.len() == 0 {
        true
    } else if a[0] < b[0] {
        true
    } else if a[0] > b[0] {
        false
    } else {
        lex_lt(a.skip(1), b.skip(1))
    }
}

/// No byte string precedes itself.
pub proof fn lemma_lex_lt_irrefl(a: Seq<u8>)
    ensures
        !lex_lt(a, a),
    decreases a.len(),
{
    if a.len() > 0 {
        lemma_lex_lt_irrefl(a.skip(1));
    }
}

/// Strictly ordered byte strings differ.
pub proof fn lemma_lex_lt_ne(a: Seq<u8>, b: Seq<u8>)
    requires
        lex_lt(a, b),
    ensures
        a != b,
{
    if a == b {
        lemma_lex_lt_irrefl(a);
    }
}

/// The lexicographic order is transitive.
pub proof fn lemma_lex_lt_trans(a: Seq<u8>, b: Seq<u8>, c: Seq<u8>)
    requires
        lex_lt(a, b),
        lex_lt(b, c),
    ensures
        lex_lt(a, c),
    decreases a.len(),
{
    if a.len() > 0 && b.len() > 0 && c.len() > 0 {
        if a[0] == b[0] && b[0] == c[0] {
            lemma_lex_lt_trans(a.skip(1), b.skip(1), c.skip(1));
        }
    }
}

/// Dropping one equal leading byte from both sides keeps the order.
proof fn lemma_lex_lt_step(a: Seq<u8>, b: Seq<u8>)
    requires
        a.len() > 0,
        b.len() > 0,
        a[0] == b[0],
    ensures
        lex_lt(a, b) == lex_lt(a.skip(1), b.skip(1)),
{
}

/// Compare two byte strings: -1, 0 or 1 as the first is below, equal to
/// or above the second in lexicographic order.
pub fn byte_seq_cmp(a: &[u8], b: &[u8]) -> (r: i8)
    ensures
        (r == 0) <==> (a@ == b@),
        (r == -1) <==> lex_lt(a@, b@),
        (r == 1) <==> lex_lt(b@, a@),
        r == -1 || r == 0 || r == 1,
{
    let mut i: usize = 0;
    let na = a.len();
    let nb = b.len();
    proof {
        assert(a@.skip(0) =~= a@);
        assert(b@.skip(0) =~= b@);
        assert(a@.take(0) =~= b@.take(0));
    }
    loop
        invariant
            i <= na,
            i <= nb,
            na == a@.len(),
            nb == b@.len(),
            a@.take(i as int) == b@.take(i as int),
            lex_lt(a@, b@) == lex_lt(a@.skip(i as int), b@.skip(i as int)),
            lex_lt(b@, a@) == lex_lt(b@.skip(i as int), a@.skip(i as int)),
        decreases na - i,
    {
        if i == na && i == nb {
            proof {
                assert(a@.take(i as int) =~= a@);
                assert(b@.take(i as int) =~= b@);
                assert(a@ =~= b@);
                lemma_lex_lt_irrefl(a@);
            }
            return 0;
        }
        if i == na {
            // a is a proper prefix of b
            proof {
                assert(a@.skip(i as int).len() == 0);
                assert(b@.skip(i as int).len() > 0);
            }
            return -1;
        }
        if i == nb {
            proof {
                assert(b@.skip(i as int).len() == 0);
                assert(a@.skip(i as int).len() > 0);
            }
            return 1;
        }
        let x = a[i];
        let y = b[i];
        proof {
            assert(a@.skip(i as int)[0] == a@[i as int]);
            assert(b@.skip(i as int)[0] == b@[i as int]);
        }
        if x < y {
            proof {
                assert(a@[i as int] != b@[i as int]);
                assert(a@ != b@);
            }
            return -1;
        }
        if x > y {
            proof {
                assert(a@ != b@);
            }
            return 1;
        }
        proof {
            lemma_lex_lt_step(a@.skip(i as int), b@.skip(i as int));
            lemma_lex_lt_step(b@.skip(i as int), a@.skip(i as int));
            assert(a@.skip(i as int).skip(1) =~= a@.skip(i as int + 1));
            assert(b@.skip(i as int).skip(1) =~= b@.skip(i as int + 1));
            assert(a@.take(i as int + 1) =~= b@.take(i as int + 1));
        }
        i = i + 1;
    }
}

/// The map held by a sequence of entries; a later entry for the same
/// key overrides an earlier one.
spec fn entries_map(s: Seq<(Vec<u8>, Vec<u8>)>) -> Map<Seq<u8>, Seq<u8>>
    decreases s.len(),
{
    if s.len() == 0 {
        Map::empty()
    } else {
        entries_map(s.drop_last()).insert(s.last().0@, s.last().1@)
    }
}

/// An entry whose key recurs nowhere later is in the map with its value.
proof fn lemma_entries_map_has(s: Seq<(Vec<u8>, Vec<u8>)>, i: int)
    requires
        0 <= i < s.len(),
        forall|j: int| i < j < s.len() ==> s[j].0@ != s[i].0@,
    ensures
        entries_map(s).contains_key(s[i].0@),
        entries_map(s)[s[i].0@] == s[i].1@,
    decreases s.len(),
{
    if i < s.len() - 1 {
        lemma_entries_map_has(s.drop_last(), i);
    }
}

/// A key under no entry is not in the map.
proof fn lemma_entries_map_absent(s: Seq<(Vec<u8>, Vec<u8>)>, k: Seq<u8>)
    requires
        forall|j: int| 0 <= j < s.len() ==> s[j].0@ != k,
    ensures
        !entries_map(s).contains_key(k),
    decreases s.len(),
{
    if s.len() > 0 {
        lemma_entries_map_absent(s.drop_last(), k);
    }
}

/// Placing a fresh entry anywhere before entries with other keys
/// inserts its pair into the map.
proof fn lemma_entries_map_insert(s: Seq<(Vec<u8>, Vec<u8>)>, p: int, e: (Vec<u8>, Vec<u8>))
    requires
        0 <= p <= s.len(),
        forall|j: int| p <= j < s.len() ==> s[j].0@ != e.0@,
    ensures
        entries_map(s.insert(p, e)) == entries_map(s).insert(e.0@, e.1@),
    decreases s.len(),
{
    let s2 = s.insert(p, e);
    if p == s.len() {
        assert(s2.drop_last() =~= s);
        assert(s2.last() == e);
    } else {
        assert(s2.last() == s.last());
        assert(s2.drop_last() =~= s.drop_last().insert(p, e));
        lemma_entries_map_insert(s.drop_last(), p, e);
        assert(s.last().0@ != e.0@);
        assert(entries_map(s.drop_last()).insert(e.0@, e.1@).insert(s.last().0@, s.last().1@)
            =~= entries_map(s.drop_last()).insert(s.last().0@, s.last().1@).insert(e.0@, e.1@));
    }
}

/// Overwriting the entry of a key that recurs nowhere later replaces
/// its value in the map.
proof fn lemma_entries_map_update(s: Seq<(Vec<u8>, Vec<u8>)>, p: int, e: (Vec<u8>, Vec<u8>))
    requires
        0 <= p < s.len(),
        s[p].0@ == e.0@,
        forall|j: int| p < j < s.len() ==> s[j].0@ != e.0@,
    ensures
        entries_map(s.update(p, e)) == entries_map(s).insert(e.0@, e.1@),
    decreases s.len(),
{
    let s2 = s.update(p, e);
    if p == s.len() - 1 {
        assert(s2.drop_last() =~= s.drop_last());
        assert(s2.last() == e);
        assert(entries_map(s.drop_last()).insert(e.0@, e.1@) =~= entries_map(
            s.drop_last(),
        ).insert(s.last().0@, s.last().1@).insert(e.0@, e.1@));
    } else {
        assert(s2.last() == s.last());
        assert(s2.drop_last() =~= s.drop_last().update(p, e));
        lemma_entries_map_update(s.drop_last(), p, e);
        assert(s.last().0@ != e.0@);
        assert(entries_map(s.drop_last()).insert(e.0@, e.1@).insert(s.last().0@, s.last().1@)
            =~= entries_map(s.drop_last()).insert(s.last().0@, s.last().1@).insert(e.0@, e.1@));
    }
}

/// Taking out the only entry of a key removes that key from the map.
proof fn lemma_entries_map_remove(s: Seq<(Vec<u8>, Vec<u8>)>, p: int)
    requires
        0 <= p < s.len(),
        forall|j: int| 0 <= j < s.len() && j != p ==> s[j].0@ != s[p].0@,
    ensures
        entries_map(s.remove(p)) == entries_map(s).remove(s[p].0@),
    decreases s.len(),
{
    let k = s[p].0@;
    let s2 = s.remove(p);
    if p == s.len() - 1 {
        assert(s2 =~= s.drop_last());
        lemma_entries_map_absent(s.drop_last(), k);
        assert(entries_map(s.drop_last()) =~= entries_map(s.drop_last()).insert(
            k,
            s[p].1@,
        ).remove(k));
    } else {
        assert(s2.last() == s.last());
        assert(s2.drop_last() =~= s.drop_last().remove(p));
        lemma_entries_map_remove(s.drop_last(), p);
        assert(s.last().0@ != k);
        assert(entries_map(s.drop_last()).remove(k).insert(s.last().0@, s.last().1@)
            =~= entries_map(s.drop_last()).insert(s.last().0@, s.last().1@).remove(k));
    }
}

/// An ordered table in memory: keys ascend, one value per key.
pub struct MemTable {
    entries: Vec<(Vec<u8>, Vec<u8>)>,
}

impl MemTable {
    /// The entries are strictly ascending by key.
    pub closed spec fn wf(&self) -> bool {
        forall|i: int, j: int|
            0 <= i < j < self.entries@.len() ==> lex_lt(
                #[trigger] self.entries@[i].0@,
                #[trigger] self.entries@[j].0@,
            )
    }

    /// The mapping the table holds.
    pub closed spec fn map_view(&self) -> Map<Seq<u8>, Seq<u8>> {
        entries_map(self.entries@)
    }

    /// Create an empty table.
    pub fn new() -> (t: MemTable)
        ensures
            t.wf(),
            t.map_view() == Map::<Seq<u8>, Seq<u8>>::empty(),
    {
        MemTable { entries: Vec::new() }
    }

    /// The value held for `key`, if any.
    pub fn get(&self, key: &[u8]) -> (r: Option<Vec<u8>>)
        requires
            self.wf(),
        ensures
            match r {
                Some(v) => self.map_view().contains_key(key@) && v@ == self.map_view()[key@],
                None => !self.map_view().contains_key(key@),
            },
    {
        let n = self.entries.len();
        let mut i: usize = 0;
        while i < n
            invariant
                i <= n,
                n == self.entries@.len(),
                self.wf(),
                forall|j: int| 0 <= j < i ==> self.entries@[j].0@ != key@,
            decreases n - i,
        {
            let c = byte_seq_cmp(self.entries[i].0.as_slice(), key);
            if c == 0 {
                proof {
                    assert forall|j: int|
                        i < j < self.entries@.len() implies self.entries@[j].0@
                        != self.entries@[i as int].0@ by {
                        lemma_lex_lt_ne(self.entries@[i as int].0@, self.entries@[j].0@);
                    }
                    lemma_entries_map_has(self.entries@, i as int);
                }
                return Some(copy_bytes(self.entries[i].1.as_slice()));
            }
            i = i + 1;
        }
        proof {
            lemma_entries_map_absent(self.entries@, key@);
        }
        None
    }

    /// Whether the table holds a value for `key`.
    pub fn contains(&self, key: &[u8]) -> (r: bool)
        requires
            self.wf(),
        ensures
            r == self.map_view().contains_key(key@),
    {
        self.get(key).is_some()
    }

    /// Place `(key, value)` at position `i`, between the lesser and the
    /// greater keys.
    fn insert_at(&mut self, i: usize, key: &[u8], value: &[u8])
        requires
            old(self).wf(),
            i <= old(self).entries@.len(),
            forall|j: int| 0 <= j < i ==> lex_lt(#[trigger] old(self).entries@[j].0@, key@),
            forall|j: int|
                i <= j < old(self).entries@.len() ==> lex_lt(
                    key@,
                    #[trigger] old(self).entries@[j].0@,
                ),
        ensures
            final(self).wf(),
            final(self).map_view() == old(self).map_view().insert(key@, value@),
            !old(self).map_view().contains_key(key@),
    {
        let ghost s = self.entries@;
        let e = (copy_bytes(key), copy_bytes(value));
        proof {
            assert forall|j: int| i <= j < s.len() implies s[j].0@ != e.0@ by {
                lemma_lex_lt_ne(key@, s[j].0@);
            }
            lemma_entries_map_insert(s, i as int, e);
            assert forall|j: int| 0 <= j < s.len() implies s[j].0@ != key@ by {
                if j < i {
                    lemma_lex_lt_ne(s[j].0@, key@);
                } else {
                    lemma_lex_lt_ne(key@, s[j].0@);
                }
            }
            lemma_entries_map_absent(s, key@);
        }
        self.entries.insert(i, e);
        proof {
            let s2 = self.entries@;
            assert forall|p: int, q: int| 0 <= p < q < s2.len() implies lex_lt(
                #[trigger] s2[p].0@,
                #[trigger] s2[q].0@,
            ) by {
                if p < i && q == i {
                } else if p == i && q > i {
                } else if p < i && q > i {
                    lemma_lex_lt_trans(s2[p].0@, key@, s2[q].0@);
                }
            }
        }
    }

    /// Set `key` to `value`, returning the value it replaces, if any.
    pub fn set(&mut self, key: &[u8], value: &[u8]) -> (prior: Option<Vec<u8>>)
        requires
            old(self).wf(),
        ensures
            final(self).wf(),
            final(self).map_view() == old(self).map_view().insert(key@, value@),
            match prior {
                Some(p) => old(self).map_view().contains_key(key@)
                    && p@ == old(self).map_view()[key@],
                None => !old(self).map_view().contains_key(key@),
            },
    {
        let n = self.entries.len();
        let mut i: usize = 0;
        while i < n
            invariant
                i <= n,
                n == self.entries@.len(),
                *self == *old(self),
                self.wf(),
                forall|j: int| 0 <= j < i ==> lex_lt(#[trigger] self.entries@[j].0@, key@),
            decreases n - i,
        {
            let c = byte_seq_cmp(self.entries[i].0.as_slice(), key);
            if c == 0 {
                let ghost s = self.entries@;
                let e = (copy_bytes(key), copy_bytes(value));
                proof {
                    assert forall|j: int| i < j < s.len() implies s[j].0@ != e.0@ by {
                        lemma_lex_lt_ne(s[i as int].0@, s[j].0@);
                    }
                    lemma_entries_map_update(s, i as int, e);
                    lemma_entries_map_has(s, i as int);
                }
                let prior = self.entries.remove(i);
                self.entries.insert(i, e);
                proof {
                    assert(self.entries@ =~= s.update(i as int, e));
                    let s2 = self.entries@;
                    assert forall|p: int, q: int| 0 <= p < q < s2.len() implies lex_lt(
                        #[trigger] s2[p].0@,
                        #[trigger] s2[q].0@,
                    ) by {
                        assert(s2[p].0@ == s[p].0@);
                        assert(s2[q].0@ == s[q].0@);
                    }
                }
                return Some(prior.1);
            }
            if c == 1 {
                proof {
                    assert forall|j: int|
                        i <= j < self.entries@.len() implies lex_lt(
                        key@,
                        #[trigger] self.entries@[j].0@,
                    ) by {
                        if j > i {
                            lemma_lex_lt_trans(
                                key@,
                                self.entries@[i as int].0@,
                                self.entries@[j].0@,
                            );
                        }
                    }
                }
                self.insert_at(i, key, value);
                return None;
            }
            i = i + 1;
        }
        self.insert_at(n, key, value);
        None
    }

    /// Take the value held for `key` out of the table, if any.
    pub fn remove(&mut self, key: &[u8]) -> (r: Option<Vec<u8>>)
        requires
            old(self).wf(),
        ensures
            final(self).wf(),
            final(self).map_view() == old(self).map_view().remove(key@),
            match r {
                Some(v) => old(self).map_view().contains_key(key@)
                    && v@ == old(self).map_view()[key@],
                None => !old(self).map_view().contains_key(key@),
            },
    {
        let n = self.entries.len();
        let mut i: usize = 0;
        while i < n
            invariant
                i <= n,
                n == self.entries@.len(),
                *self == *old(self),
                self.wf(),
                forall|j: int| 0 <= j < i ==> self.entries@[j].0@ != key@,
            decreases n - i,
        {
            let c = byte_seq_cmp(self.entries[i].0.as_slice(), key);
            if c == 0 {
                let ghost s = self.entries@;
                proof {
                    assert forall|j: int| 0 <= j < s.len() && j != i implies s[j].0@
                        != s[i as int].0@ by {
                        if j > i {
                            lemma_lex_lt_ne(s[i as int].0@, s[j].0@);
                        }
                    }
                    lemma_entries_map_remove(s, i as int);
                    lemma_entries_map_has(s, i as int);
                }
                let e = self.entries.remove(i);
                proof {
                    let s2 = self.entries@;
                    assert forall|p: int, q: int| 0 <= p < q < s2.len() implies lex_lt(
                        #[trigger] s2[p].0@,
                        #[trigger] s2[q].0@,
                    ) by {
                        if q < i {
                        } else if p < i {
                            assert(s2[q].0@ == s[q + 1].0@);
                        } else {
                            assert(s2[p].0@ == s[p + 1].0@);
                            assert(s2[q].0@ == s[q + 1].0@);
                        }
                    }
                }
                return Some(e.1);
            }
            i = i + 1;
        }
        proof {
            lemma_entries_map_absent(self.entries@, key@);
            assert(self.map_view().remove(key@) =~= self.map_view());
        }
        None
    }
}

} // verus!
