//! Variable-length integer codec: little-endian LEB128 for unsigned 32-bit
//! and 64-bit values.
//!
//! Each emitted byte carries 7 payload bits, least significant group first;
//! the high bit of a byte is set exactly when more bytes follow. A decoder
//! accumulates groups until it meets a byte with the high bit clear, and
//! fails when the input ends first, when more than the maximum number of
//! bytes for the width are consumed, or when the value would not fit the
//! declared width.

use vstd::prelude::*;

verus! {

/// 128 raised to the `i`th power; the weight of the `i`th varint byte.
pub open spec fn pow128(i: nat) -> nat
    decreases i,
{
    if i == 0 {
        1
    } else {
        128 * pow128((i - 1) as nat)
    }
}

/// The powers of 128 that bound what fits in 32 and in 64 bits.
pub proof fn lemma_pow128_values()
    ensures
        pow128(0) == 1,
        pow128(1) == 128,
        pow128(2) == 0x4000,
        pow128(3) == 0x200000,
        pow128(4) == 0x10000000,
        pow128(5) == 0x8_0000_0000,
        pow128(6) == 0x400_0000_0000,
        pow128(7) == 0x2_0000_0000_0000,
        pow128(8) == 0x100_0000_0000_0000,
        pow128(9) == 0x8000_0000_0000_0000,
{
    assert(pow128(0) == 1);
    assert(pow128(1) == 128);
    assert(pow128(2) == 0x4000);
    assert(pow128(3) == 0x200000);
    assert(pow128(4) == 0x10000000);
    assert(pow128(5) == 0x8_0000_0000);
    assert(pow128(6) == 0x400_0000_0000);
    assert(pow128(7) == 0x2_0000_0000_0000);
    assert(pow128(8) == 0x100_0000_0000_0000);
    assert(pow128(9) == 0x8000_0000_0000_0000);
}

/// Powers of 128 do not decrease.
pub proof fn lemma_pow128_mono(i: nat, j: nat)
    requires
        i <= j,
    ensures
        pow128(i) <= pow128(j),
    decreases j,
{
    if i < j {
        lemma_pow128_mono(i, (j - 1) as nat);
        assert(pow128(j) == 128 * pow128((j - 1) as nat));
    }
}

/// The varint encoding of `n`: 7 payload bits per byte, least significant
/// first, high bit set on every byte but the last.
pub open spec fn spec_varint(n: nat) -> Seq<u8>
    decreases n,
{
    if n < 128 {
        seq![n as u8]
    } else {
        seq![(n % 128 + 128) as u8] + spec_varint(n / 128)
    }
}

/// Plain LEB128 decoding of a prefix of `s`: the decoded value and the
/// number of bytes consumed, or `None` when `s` ends before a byte with
/// the high bit clear.
pub open spec fn spec_varint_decode(s: Seq<u8>) -> Option<(nat, nat)>
    decreases s.len(),
{
    if s.len() == 0 {
        None
    } else if s[0] < 128 {
        Some((s[0] as nat, 1nat))
    } else {
        match spec_varint_decode(s.skip(1)) {
            None => None,
            Some((v, k)) => Some((((s[0] - 128) as nat + 128 * v) as nat, (k + 1) as nat)),
        }
    }
}

/// The value carried by the first `i` bytes of `s`, taken as continuation
/// bytes.
pub open spec fn varint_partial(s: Seq<u8>, i: int) -> nat
    decreases i,
{
    if i <= 0 {
        0
    } else {
        ((s[0] - 128) as nat + 128 * varint_partial(s.skip(1), i - 1)) as nat
    }
}

/// Extending a partial value by one more continuation byte adds that
/// byte's group at the next power of 128.
pub proof fn lemma_varint_partial_snoc(s: Seq<u8>, i: int)
    requires
        0 <= i < s.len(),
    ensures
        varint_partial(s, i + 1) == varint_partial(s, i) + (s[i] - 128) as nat * pow128(i as nat),
    decreases i,
{
    if i == 0 {
        assert(varint_partial(s.skip(1), 0) == 0);
        assert(varint_partial(s, 1) == (s[0] - 128) as nat);
        assert((s[0] - 128) as nat * 1 == (s[0] - 128) as nat);
    } else {
        let t = s.skip(1);
        lemma_varint_partial_snoc(t, i - 1);
        assert(t[i - 1] == s[i]);
        let g = (s[i] - 128) as nat;
        let p = pow128((i - 1) as nat);
        assert(varint_partial(t, i) == varint_partial(t, i - 1) + g * p);
        assert(128 * (varint_partial(t, i - 1) + g * p) == 128 * varint_partial(t, i - 1) + 128 * (
        g * p)) by (nonlinear_arith);
        assert(128 * (g * p) == g * (128 * p)) by (nonlinear_arith);
        assert(128 * p == pow128(i as nat));
    }
}

/// Decoding past `i` leading continuation bytes: the whole decode is the
/// partial value of those bytes plus the decode of the rest, scaled by
/// the `i`th power of 128.
pub proof fn lemma_varint_decode_prefix(s: Seq<u8>, i: int)
    requires
        0 <= i <= s.len(),
        forall|j: int| 0 <= j < i ==> s[j] >= 128,
    ensures
        spec_varint_decode(s) == match spec_varint_decode(s.skip(i)) {
            None => None::<(nat, nat)>,
            Some((v, k)) => Some(
                ((varint_partial(s, i) + pow128(i as nat) * v) as nat, (k + i) as nat),
            ),
        },
    decreases i,
{
    if i == 0 {
        assert(s.skip(0) =~= s);
        match spec_varint_decode(s) {
            None => {},
            Some((v, k)) => {
                assert(varint_partial(s, 0) + pow128(0) * v == v) by (nonlinear_arith)
                    requires
                        varint_partial(s, 0) == 0,
                        pow128(0nat) == 1,
                ;
            },
        }
    } else {
        assert(s[0] >= 128);
        let t = s.skip(1);
        assert forall|j: int| 0 <= j < i - 1 implies t[j] >= 128 by {
            assert(t[j] == s[j + 1]);
        }
        lemma_varint_decode_prefix(t, i - 1);
        assert(t.skip(i - 1) =~= s.skip(i));
        match spec_varint_decode(s.skip(i)) {
            None => {},
            Some((v, k)) => {
                let pv = varint_partial(t, i - 1);
                let p = pow128((i - 1) as nat);
                assert(spec_varint_decode(t) == Some::<(nat, nat)>(
                    ((pv + p * v) as nat, (k + i - 1) as nat),
                ));
                assert(spec_varint_decode(s) == Some::<(nat, nat)>(
                    (((s[0] - 128) as nat + 128 * ((pv + p * v) as nat)) as nat, (k + i) as nat),
                ));
                assert(128 * (pv + p * v) == 128 * pv + 128 * (p * v)) by (nonlinear_arith);
                assert(128 * (p * v) == (128 * p) * v) by (nonlinear_arith);
                assert(128 * p == pow128(i as nat));
                assert(varint_partial(s, i) == (s[0] - 128) as nat + 128 * pv);
            },
        }
    }
}

/// A successful decode consumes at least one byte and no more than the
/// input holds.
pub proof fn lemma_varint_decode_consumes(s: Seq<u8>)
    ensures
        spec_varint_decode(s) matches Some(p) ==> 1 <= p.1 <= s.len(),
    decreases s.len(),
{
    if s.len() > 0 && s[0] >= 128 {
        lemma_varint_decode_consumes(s.skip(1));
    }
}

/// Encodings are never empty, and a value below the `k`th power of 128
/// takes at most `k` bytes.
pub proof fn lemma_varint_len(n: nat, k: nat)
    requires
        n < pow128(k),
        k >= 1,
    ensures
        1 <= spec_varint(n).len() <= k,
    decreases n,
{
    if n >= 128 {
        assert(k >= 2) by {
            if k == 1 {
                assert(pow128(0) == 1);
                assert(pow128(1) == 128);
            }
        }
        assert(pow128(k) == 128 * pow128((k - 1) as nat));
        assert(n / 128 < pow128((k - 1) as nat)) by (nonlinear_arith)
            requires
                n < 128 * pow128((k - 1) as nat),
        ;
        lemma_varint_len(n / 128, (k - 1) as nat);
    }
}

/// Round trip: decoding an encoding, followed by anything, yields the
/// encoded value and consumes exactly the encoding.
pub proof fn lemma_varint_round_trip(n: nat, rest: Seq<u8>)
    ensures
        spec_varint_decode(spec_varint(n) + rest) == Some((n, spec_varint(n).len())),
    decreases n,
{
    let s = spec_varint(n) + rest;
    if n < 128 {
        assert(s[0] == n as u8);
        assert(spec_varint(n).len() == 1);
    } else {
        let b0 = (n % 128 + 128) as u8;
        assert(s[0] == b0);
        assert(b0 >= 128);
        lemma_varint_round_trip(n / 128, rest);
        assert(s.skip(1) =~= spec_varint(n / 128) + rest);
        let v = n / 128;
        let k = spec_varint(n / 128).len();
        assert(spec_varint_decode(s) == Some::<(nat, nat)>(
            (((b0 - 128) as nat + 128 * v) as nat, (k + 1) as nat),
        ));
        assert((b0 - 128) as nat == n % 128);
        assert(n % 128 + 128 * (n / 128) == n);
        assert(spec_varint(n).len() == 1 + k);
    }
}

/// Append `src` to `dst`.
pub fn append_bytes(dst: &mut Vec<u8>, src: &[u8])
    ensures
        final(dst)@ == old(dst)@ + src@,
{
    let ghost pre = dst@;
    dst.extend_from_slice(src);
    proof {
        assert forall|i: int| 0 <= i < dst@.len() implies dst@[i] == (pre + src@)[i] by {
            if i >= pre.len() {
                assert(cloned::<u8>(src@[i - pre.len()], dst@[i]));
            }
        }
        assert(dst@ =~= pre + src@);
    }
}

/// Copy a byte slice into an owned buffer.
pub fn copy_bytes(src: &[u8]) -> (out: Vec<u8>)
    ensures
        out@ == src@,
{
    vstd::slice::slice_to_vec(src)
}

/// A byte sink that can take varint-encoded integers.
pub trait BufMutExt {
    /// The bytes held so far.
    spec fn buf(&self) -> Seq<u8>;

    /// Append the varint encoding of `n`.
    fn put_var_u32_le(&mut self, n: u32)
        ensures
            final(self).buf() == old(self).buf() + spec_varint(n as nat),
    ;

    /// Append the varint encoding of `n`.
    fn put_var_u64_le(&mut self, n: u64)
        ensures
            final(self).buf() == old(self).buf() + spec_varint(n as nat),
    ;
}

impl BufMutExt for Vec<u8> {
    open spec fn buf(&self) -> Seq<u8> {
        self@
    }

    fn put_var_u32_le(&mut self, n: u32) {
        self.put_var_u64_le(n as u64);
    }

    fn put_var_u64_le(&mut self, n: u64) {
        let mut b: u64 = n;
        while b >= 128
            invariant
                old(self)@ + spec_varint(n as nat) == self@ + spec_varint(b as nat),
            decreases b,
        {
            let byte: u8 = (b % 128) as u8 + 128;
            let ghost pre = self@;
            self.push(byte);
            proof {
                assert(spec_varint(b as nat) == seq![byte] + spec_varint((b as nat) / 128));
                assert((pre + seq![byte]) + spec_varint((b as nat) / 128) =~= pre + (seq![byte]
                    + spec_varint((b as nat) / 128)));
                assert((b / 128) as nat == (b as nat) / 128);
                broadcast use vstd::arithmetic::div_mod::lemma_div_decreases;

            }
            b = b / 128;
        }
        let ghost pre = self@;
        self.push(b as u8);
        proof {
            assert(spec_varint(b as nat) =~= seq![b as u8]);
            assert(pre + spec_varint(b as nat) =~= self@);
        }
    }
}

/// A byte source that yields varint-encoded integers from the front.
pub trait BytesExt {
    /// The bytes not yet consumed.
    spec fn remaining(&self) -> Seq<u8>;

    /// Read one varint as a 32-bit value. Fails, consuming nothing, when
    /// the bytes end before a terminating byte, when more than 5 bytes
    /// would be needed, or when the value does not fit in 32 bits.
    fn get_var_u32_le(&mut self) -> (r: Option<u32>)
        ensures
            ({
                let d = spec_varint_decode(old(self).remaining());
                match r {
                    Some(v) => d matches Some(p) && p.0 == v as nat && p.1 <= 5
                        && final(self).remaining() == old(self).remaining().skip(p.1 as int),
                    None => final(self).remaining() == old(self).remaining() && match d {
                        Some(p) => !(p.0 < 0x1_0000_0000 && p.1 <= 5),
                        None => true,
                    },
                }
            }),
    ;

    /// Read one varint as a 64-bit value. Fails, consuming nothing, when
    /// the bytes end before a terminating byte, when more than 10 bytes
    /// would be needed, or when the value does not fit in 64 bits.
    fn get_var_u64_le(&mut self) -> (r: Option<u64>)
        ensures
            ({
                let d = spec_varint_decode(old(self).remaining());
                match r {
                    Some(v) => d matches Some(p) && p.0 == v as nat && p.1 <= 10
                        && final(self).remaining() == old(self).remaining().skip(p.1 as int),
                    None => final(self).remaining() == old(self).remaining() && match d {
                        Some(p) => !(p.0 < 0x1_0000_0000_0000_0000 && p.1 <= 10),
                        None => true,
                    },
                }
            }),
    ;
}

/// A read cursor over an owned byte buffer.
pub struct ByteCursor {
    data: Vec<u8>,
    pos: usize,
}

impl ByteCursor {
    /// The cursor never passes the end of the buffer.
    #[verifier::type_invariant]
    spec fn wf(&self) -> bool {
        self.pos <= self.data@.len()
    }

    /// The bytes at and after the cursor.
    pub closed spec fn rest(&self) -> Seq<u8> {
        self.data@.skip(self.pos as int)
    }

    /// Start a cursor at the front of `data`.
    pub fn new(data: Vec<u8>) -> (c: ByteCursor)
        ensures
            c.rest() == data@,
    {
        let c = ByteCursor { data, pos: 0 };
        proof {
            assert(c.rest() =~= c.data@);
        }
        c
    }

    /// How many bytes are left.
    pub fn remaining_len(&self) -> (n: usize)
        ensures
            n == self.rest().len(),
    {
        proof {
            use_type_invariant(&*self);
        }
        self.data.len() - self.pos
    }

    /// Take the next `n` bytes, or fail, consuming nothing, when fewer
    /// are left.
    pub fn take(&mut self, n: usize) -> (r: Option<Vec<u8>>)
        ensures
            match r {
                Some(v) => n <= old(self).rest().len() && v@ == old(self).rest().take(n as int)
                    && final(self).rest() == old(self).rest().skip(n as int),
                None => n > old(self).rest().len() && *final(self) == *old(self),
            },
    {
        proof {
            use_type_invariant(&*self);
        }
        if n > self.data.len() - self.pos {
            return None;
        }
        let out = vstd::slice::slice_to_vec(
            vstd::slice::slice_subrange(self.data.as_slice(), self.pos, self.pos + n),
        );
        proof {
            assert(out@ =~= self.rest().take(n as int));
            assert(self.data@.skip((self.pos + n) as int) =~= self.rest().skip(n as int));
        }
        self.pos = self.pos + n;
        Some(out)
    }
}

impl BytesExt for ByteCursor {
    open spec fn remaining(&self) -> Seq<u8> {
        self.rest()
    }

    fn get_var_u32_le(&mut self) -> (r: Option<u32>) {
        proof {
            use_type_invariant(&*self);
        }
        let ghost rem = self.rest();
        let n = self.data.len();
        let start = self.pos;
        let mut acc: u32 = 0;
        let mut m: u32 = 1;
        let mut i: usize = 0;
        proof {
            lemma_pow128_values();
        }
        loop
            invariant
                *self == *old(self),
                start == self.pos,
                start <= n,
                n == self.data@.len(),
                rem == self.rest(),
                rem.len() == n - start,
                i <= 4,
                i <= n - start,
                forall|j: int| 0 <= j < i ==> rem[j] >= 128,
                acc == varint_partial(rem, i as int),
                m == pow128(i as nat),
                acc < m,
                m <= 0x10000000,
            decreases 5 - i,
        {
            proof {
                lemma_pow128_values();
            }
            if i >= n - start {
                proof {
                    lemma_varint_decode_prefix(rem, i as int);
                }
                return None;
            }
            let b = self.data[start + i];
            proof {
                assert(rem[i as int] == b);
            }
            let group: u8 = b % 128;
            if b < 128 {
                proof {
                    lemma_varint_decode_prefix(rem, i as int);
                    assert(rem.skip(i as int)[0] == b);
                }
                if i == 4 && b >= 16 {
                    proof {
                        assert(varint_partial(rem, 4) + pow128(4) * (b as nat) >= 0x1_0000_0000)
                            by (nonlinear_arith)
                            requires
                                b >= 16,
                                pow128(4nat) == 0x10000000,
                                varint_partial(rem, 4) >= 0,
                        ;
                    }
                    return None;
                }
                proof {
                    if i == 4 {
                        assert(acc + (b as nat) * (m as nat) < 0x1_0000_0000) by (nonlinear_arith)
                            requires
                                b < 16,
                                m == 0x10000000,
                                acc < m,
                        ;
                    } else {
                        assert(m <= 0x200000) by {
                            lemma_pow128_mono(i as nat, 3);
                            lemma_pow128_values();
                        }
                        assert(acc + (b as nat) * (m as nat) < 0x1_0000_0000) by (nonlinear_arith)
                            requires
                                b < 128,
                                m <= 0x200000,
                                acc < m,
                        ;
                    }
                }
                let v: u32 = acc + (group as u32) * m;
                proof {
                    assert((v as nat) == varint_partial(rem, i as int) + pow128(i as nat) * (
                    b as nat)) by (nonlinear_arith)
                        requires
                            v == acc + (b as nat) * (m as nat),
                            acc == varint_partial(rem, i as int),
                            m == pow128(i as nat),
                    ;
                }
                self.pos = start + i + 1;
                proof {
                    assert(self.rest() =~= rem.skip((i + 1) as int));
                }
                return Some(v);
            }
            if i == 4 {
                proof {
                    lemma_varint_decode_prefix(rem, 5);
                    lemma_varint_decode_consumes(rem.skip(5));
                }
                return None;
            }
            proof {
                lemma_varint_partial_snoc(rem, i as int);
                assert(acc + (group as nat) * (m as nat) < 128 * (m as nat)) by (nonlinear_arith)
                    requires
                        acc < m,
                        group < 128,
                ;
                assert(m <= 0x200000) by {
                    lemma_pow128_mono(i as nat, 3);
                    lemma_pow128_values();
                }
                assert(128 * (m as nat) == pow128((i + 1) as nat));
            }
            acc = acc + (group as u32) * m;
            m = m * 128;
            i = i + 1;
        }
    }

    fn get_var_u64_le(&mut self) -> (r: Option<u64>) {
        proof {
            use_type_invariant(&*self);
        }
        let ghost rem = self.rest();
        let n = self.data.len();
        let start = self.pos;
        let mut acc: u64 = 0;
        let mut m: u64 = 1;
        let mut i: usize = 0;
        proof {
            lemma_pow128_values();
        }
        loop
            invariant
                *self == *old(self),
                start == self.pos,
                start <= n,
                n == self.data@.len(),
                rem == self.rest(),
                rem.len() == n - start,
                i <= 9,
                i <= n - start,
                forall|j: int| 0 <= j < i ==> rem[j] >= 128,
                acc == varint_partial(rem, i as int),
                m == pow128(i as nat),
                acc < m,
                m <= 0x8000_0000_0000_0000,
            decreases 10 - i,
        {
            proof {
                lemma_pow128_values();
            }
            if i >= n - start {
                proof {
                    lemma_varint_decode_prefix(rem, i as int);
                }
                return None;
            }
            let b = self.data[start + i];
            proof {
                assert(rem[i as int] == b);
            }
            let group: u8 = b % 128;
            if b < 128 {
                proof {
                    lemma_varint_decode_prefix(rem, i as int);
                    assert(rem.skip(i as int)[0] == b);
                }
                if i == 9 && b >= 2 {
                    proof {
                        assert(varint_partial(rem, 9) + pow128(9) * (b as nat)
                            >= 0x1_0000_0000_0000_0000) by (nonlinear_arith)
                            requires
                                b >= 2,
                                pow128(9nat) == 0x8000_0000_0000_0000,
                                varint_partial(rem, 9) >= 0,
                        ;
                    }
                    return None;
                }
                proof {
                    if i == 9 {
                        assert(acc + (b as nat) * (m as nat) < 0x1_0000_0000_0000_0000)
                            by (nonlinear_arith)
                            requires
                                b < 2,
                                m == 0x8000_0000_0000_0000,
                                acc < m,
                        ;
                    } else {
                        assert(m <= 0x100_0000_0000_0000) by {
                            lemma_pow128_mono(i as nat, 8);
                            lemma_pow128_values();
                        }
                        assert(acc + (b as nat) * (m as nat) < 0x1_0000_0000_0000_0000)
                            by (nonlinear_arith)
                            requires
                                b < 128,
                                m <= 0x100_0000_0000_0000,
                                acc < m,
                        ;
                    }
                }
                let v: u64 = acc + (group as u64) * m;
                proof {
                    assert((v as nat) == varint_partial(rem, i as int) + pow128(i as nat) * (
                    b as nat)) by (nonlinear_arith)
                        requires
                            v == acc + (b as nat) * (m as nat),
                            acc == varint_partial(rem, i as int),
                            m == pow128(i as nat),
                    ;
                }
                self.pos = start + i + 1;
                proof {
                    assert(self.rest() =~= rem.skip((i + 1) as int));
                }
                return Some(v);
            }
            if i == 9 {
                proof {
                    lemma_varint_decode_prefix(rem, 10);
                    lemma_varint_decode_consumes(rem.skip(10));
                }
                return None;
            }
            proof {
                lemma_varint_partial_snoc(rem, i as int);
                assert(acc + (group as nat) * (m as nat) < 128 * (m as nat)) by (nonlinear_arith)
                    requires
                        acc < m,
                        group < 128,
                ;
                assert(m <= 0x100_0000_0000_0000) by {
                    lemma_pow128_mono(i as nat, 8);
                    lemma_pow128_values();
                }
                assert(128 * (m as nat) == pow128((i + 1) as nat));
            }
            acc = acc + (group as u64) * m;
            m = m * 128;
            i = i + 1;
        }
    }
}

} // verus!
