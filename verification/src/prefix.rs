use vstd::prelude::*;
use crate::digest::{Digest, digest_bit, word_bit};

verus! {

/// A trie position: the first `depth` bits of `bits` name the region of the
/// key space below this node. Bits at or beyond `depth` are kept at zero so
/// that equal prefixes are structurally equal.
#[derive(Clone, Copy, PartialEq, Eq, Structural, Debug)]
pub struct Prefix {
    pub bits: Digest,
    pub depth: u16,
}

impl Prefix {
    /// Canonical form: depth in range and no stray bits beyond it.
    pub open spec fn wf(self) -> bool {
        &&& self.depth <= 256
        &&& forall|i: int| self.depth <= i < 256 ==> !digest_bit(self.bits, i)
    }

    /// The prefix as the sequence of its bits.
    pub open spec fn view(self) -> Seq<bool> {
        Seq::new(self.depth as nat, |i: int| digest_bit(self.bits, i))
    }

    /// Whether every leaf below this prefix has a path that begins with it.
    pub open spec fn spec_contains(self, path: Digest) -> bool {
        forall|i: int| 0 <= i < self.depth ==> digest_bit(path, i) == digest_bit(self.bits, i)
    }

    /// The whole key space: the empty prefix.
    pub fn root() -> (r: Prefix)
        ensures
            r.wf(),
            r.depth == 0,
            r@ == Seq::<bool>::empty(),
    {
        let r = Prefix { bits: Digest { w0: 0, w1: 0, w2: 0, w3: 0 }, depth: 0 };
        proof {
            assert forall|i: int| 0 <= i < 256 implies !digest_bit(r.bits, i) by {
                lemma_shr_and_zero((63 - (i % 64)) as u64);
            };
            assert(r@ =~= Seq::<bool>::empty());
        }
        r
    }

    /// The region reached by descending towards bit value zero.
    pub fn left(&self) -> (r: Prefix)
        requires
            self.wf(),
            self.depth < 256,
        ensures
            r.wf(),
            r.depth == self.depth + 1,
            r@ == self@.push(false),
    {
        let r = Prefix { bits: self.bits, depth: self.depth + 1 };
        proof {
            assert(!digest_bit(self.bits, self.depth as int));
            assert(r@ =~= self@.push(false));
        }
        r
    }

    /// The region reached by descending towards bit value one.
    pub fn right(&self) -> (r: Prefix)
        requires
            self.wf(),
            self.depth < 256,
        ensures
            r.wf(),
            r.depth == self.depth + 1,
            r@ == self@.push(true),
    {
        let d = self.depth;
        let mut bits = self.bits;
        let off: u16 = d % 64;
        let ghost olds = bits;
        if d < 64 {
            bits.w0 = bits.w0 | (1u64 << ((63 - off) as u64));
        } else if d < 128 {
            bits.w1 = bits.w1 | (1u64 << ((63 - off) as u64));
        } else if d < 192 {
            bits.w2 = bits.w2 | (1u64 << ((63 - off) as u64));
        } else {
            bits.w3 = bits.w3 | (1u64 << ((63 - off) as u64));
        }
        proof {
            assert(d < 64 ==> d % 64 == d) by (bit_vector);
            assert(64 <= d < 128 ==> d % 64 == d - 64) by (bit_vector);
            assert(128 <= d < 192 ==> d % 64 == d - 128) by (bit_vector);
            assert(192 <= d < 256 ==> d % 64 == d - 192) by (bit_vector);
            assert forall|i: int| 0 <= i < 256 implies digest_bit(bits, i) == (digest_bit(
                olds,
                i,
            ) || i == d as int) by {
                let iw: u64 = ((63 - (i % 64)) as u64);
                lemma_or_bit(word_of(olds, i), (63 - off) as u64, iw);
            };
        }
        let r = Prefix { bits, depth: d + 1 };
        proof {
            assert(r@ =~= self@.push(true));
        }
        r
    }

    /// Whether `path` lies in the region this prefix names.
    pub fn contains(&self, path: &Digest) -> (r: bool)
        requires
            self.wf(),
        ensures
            r == self.spec_contains(*path),
    {
        let d = self.depth;
        let r0 = word_prefix_eq(path.w0, self.bits.w0, if d < 64 { d as u64 } else { 64 });
        let r1 = word_prefix_eq(
            path.w1,
            self.bits.w1,
            if d < 64 { 0 } else if d < 128 { (d - 64) as u64 } else { 64 },
        );
        let r2 = word_prefix_eq(
            path.w2,
            self.bits.w2,
            if d < 128 { 0 } else if d < 192 { (d - 128) as u64 } else { 64 },
        );
        let r3 = word_prefix_eq(
            path.w3,
            self.bits.w3,
            if d < 192 { 0 } else { (d - 192) as u64 },
        );
        let r = r0 && r1 && r2 && r3;
        proof {
            if r {
                assert forall|i: int| 0 <= i < self.depth implies digest_bit(*path, i)
                    == digest_bit(self.bits, i) by {
                    if i < 64 {
                        assert(word_bit(path.w0, i) == word_bit(self.bits.w0, i));
                    } else if i < 128 {
                        assert(word_bit(path.w1, i - 64) == word_bit(self.bits.w1, i - 64));
                    } else if i < 192 {
                        assert(word_bit(path.w2, i - 128) == word_bit(self.bits.w2, i - 128));
                    } else {
                        assert(word_bit(path.w3, i - 192) == word_bit(self.bits.w3, i - 192));
                    }
                }
            }
            if self.spec_contains(*path) {
                assert forall|i: int|
                    0 <= i < (if d < 64 { d as int } else { 64 }) implies word_bit(path.w0, i)
                    == word_bit(self.bits.w0, i) by {
                    assert(digest_bit(*path, i) == digest_bit(self.bits, i));
                }
                assert forall|i: int|
                    0 <= i < (if d < 64 { 0int } else if d < 128 { d - 64 } else { 64 }) implies
                    word_bit(path.w1, i) == word_bit(self.bits.w1, i) by {
                    assert(digest_bit(*path, i + 64) == digest_bit(self.bits, i + 64));
                }
                assert forall|i: int|
                    0 <= i < (if d < 128 { 0int } else if d < 192 { d - 128 } else { 64 }) implies
                    word_bit(path.w2, i) == word_bit(self.bits.w2, i) by {
                    assert(digest_bit(*path, i + 128) == digest_bit(self.bits, i + 128));
                }
                assert forall|i: int|
                    0 <= i < (if d < 192 { 0int } else { d - 192 }) implies word_bit(path.w3, i)
                    == word_bit(self.bits.w3, i) by {
                    assert(digest_bit(*path, i + 192) == digest_bit(self.bits, i + 192));
                }
                assert(r0 && r1 && r2 && r3);
            }
        }
        r
    }
}

/// The word of `d` that holds bit `i`.
pub open spec fn word_of(d: Digest, i: int) -> u64 {
    if i < 64 {
        d.w0
    } else if i < 128 {
        d.w1
    } else if i < 192 {
        d.w2
    } else {
        d.w3
    }
}

/// Zero shifted and masked is zero.
pub proof fn lemma_shr_and_zero(s: u64)
    by (bit_vector)
    ensures
        (0u64 >> s) & 1 == 0,
{
}

/// Setting bit `s` (counting from the least significant end) changes exactly
/// that bit.
pub proof fn lemma_or_bit(w: u64, s: u64, i: u64)
    by (bit_vector)
    requires
        s < 64,
        i < 64,
    ensures
        ((w | (1u64 << s)) >> i) & 1 == (if i == s {
            1u64
        } else {
            (w >> i) & 1
        }),
{
}

/// Compares the first `rem` bits of two words, counting from the most
/// significant end.
fn word_prefix_eq(a: u64, b: u64, rem: u64) -> (r: bool)
    requires
        rem <= 64,
    ensures
        r == (forall|i: int| 0 <= i < rem ==> word_bit(a, i) == word_bit(b, i)),
{
    if rem == 0 {
        true
    } else {
        let sh: u64 = 64 - rem;
        let mask: u64 = !0u64 << sh;
        let r = (a & mask) == (b & mask);
        proof {
            let m = mask;
            if r {
                assert forall|i: int| 0 <= i < rem implies word_bit(a, i) == word_bit(b, i) by {
                    let iw = (63 - i) as u64;
                    lemma_mask_bit(a, sh, iw);
                    lemma_mask_bit(b, sh, iw);
                    lemma_bit_is_bool(a, iw);
                    lemma_bit_is_bool(b, iw);
                    assert(((a & m) >> iw) & 1 == ((b & m) >> iw) & 1);
                }
            } else {
                if forall|i: int| 0 <= i < rem ==> word_bit(a, i) == word_bit(b, i) {
                    assert forall|iw: u64| iw < 64 implies ((a & m) >> iw) & 1 == ((b & m) >> iw)
                        & 1 by {
                        lemma_mask_bit(a, sh, iw);
                        lemma_mask_bit(b, sh, iw);
                        lemma_bit_is_bool(a, iw);
                        lemma_bit_is_bool(b, iw);
                        if iw >= sh {
                            let i = 63 - (iw as int);
                            assert(0 <= i < rem);
                            assert(word_bit(a, i) == word_bit(b, i));
                            assert((a >> iw) & 1 == (b >> iw) & 1);
                        }
                    }
                    lemma_word_sum(a & m);
                    lemma_word_sum(b & m);
                    assert(false);
                }
            }
        }
        r
    }
}

/// A mask of ones from bit `sh` up keeps exactly the bits from `sh` up.
proof fn lemma_mask_bit(w: u64, sh: u64, i: u64)
    by (bit_vector)
    requires
        sh < 64,
        i < 64,
    ensures
        ((w & (!0u64 << sh)) >> i) & 1 == (if i >= sh {
            (w >> i) & 1
        } else {
            0u64
        }),
{
}

/// A single extracted bit is zero or one.
pub proof fn lemma_bit_is_bool(w: u64, i: u64)
    by (bit_vector)
    ensures
        (w >> i) & 1 == 0 || (w >> i) & 1 == 1,
{
}

/// A word is the weighted sum of its bits.
proof fn lemma_word_sum(w: u64)
    by (bit_vector)
    ensures
        w == ((w >> 0u64) & 1) + 2u64 * ((w >> 1u64) & 1) + 4u64 * ((w >> 2u64) & 1) + 8u64 * ((w >> 3u64) & 1) + 16u64 * ((w >> 4u64) & 1) + 32u64 * ((w >> 5u64) & 1) + 64u64 * ((w >> 6u64) & 1) + 128u64 * ((w >> 7u64) & 1) + 256u64 * ((w >> 8u64) & 1) + 512u64 * ((w >> 9u64) & 1) + 1024u64 * ((w >> 10u64) & 1) + 2048u64 * ((w >> 11u64) & 1) + 4096u64 * ((w >> 12u64) & 1) + 8192u64 * ((w >> 13u64) & 1) + 16384u64 * ((w >> 14u64) & 1) + 32768u64 * ((w >> 15u64) & 1) + 65536u64 * ((w >> 16u64) & 1) + 131072u64 * ((w >> 17u64) & 1) + 262144u64 * ((w >> 18u64) & 1) + 524288u64 * ((w >> 19u64) & 1) + 1048576u64 * ((w >> 20u64) & 1) + 2097152u64 * ((w >> 21u64) & 1) + 4194304u64 * ((w >> 22u64) & 1) + 8388608u64 * ((w >> 23u64) & 1) + 16777216u64 * ((w >> 24u64) & 1) + 33554432u64 * ((w >> 25u64) & 1) + 67108864u64 * ((w >> 26u64) & 1) + 134217728u64 * ((w >> 27u64) & 1) + 268435456u64 * ((w >> 28u64) & 1) + 536870912u64 * ((w >> 29u64) & 1) + 1073741824u64 * ((w >> 30u64) & 1) + 2147483648u64 * ((w >> 31u64) & 1) + 4294967296u64 * ((w >> 32u64) & 1) + 8589934592u64 * ((w >> 33u64) & 1) + 17179869184u64 * ((w >> 34u64) & 1) + 34359738368u64 * ((w >> 35u64) & 1) + 68719476736u64 * ((w >> 36u64) & 1) + 137438953472u64 * ((w >> 37u64) & 1) + 274877906944u64 * ((w >> 38u64) & 1) + 549755813888u64 * ((w >> 39u64) & 1) + 1099511627776u64 * ((w >> 40u64) & 1) + 2199023255552u64 * ((w >> 41u64) & 1) + 4398046511104u64 * ((w >> 42u64) & 1) + 8796093022208u64 * ((w >> 43u64) & 1) + 17592186044416u64 * ((w >> 44u64) & 1) + 35184372088832u64 * ((w >> 45u64) & 1) + 70368744177664u64 * ((w >> 46u64) & 1) + 140737488355328u64 * ((w >> 47u64) & 1) + 281474976710656u64 * ((w >> 48u64) & 1) + 562949953421312u64 * ((w >> 49u64) & 1) + 1125899906842624u64 * ((w >> 50u64) & 1) + 2251799813685248u64 * ((w >> 51u64) & 1) + 4503599627370496u64 * ((w >> 52u64) & 1) + 9007199254740992u64 * ((w >> 53u64) & 1) + 18014398509481984u64 * ((w >> 54u64) & 1) + 36028797018963968u64 * ((w >> 55u64) & 1) + 72057594037927936u64 * ((w >> 56u64) & 1) + 144115188075855872u64 * ((w >> 57u64) & 1) + 288230376151711744u64 * ((w >> 58u64) & 1) + 576460752303423488u64 * ((w >> 59u64) & 1) + 1152921504606846976u64 * ((w >> 60u64) & 1) + 2305843009213693952u64 * ((w >> 61u64) & 1) + 4611686018427387904u64 * ((w >> 62u64) & 1) + 9223372036854775808u64 * ((w >> 63u64) & 1),
{
}

/// Two words whose bits agree everywhere are equal.
pub proof fn lemma_word_eq_from_bits(x: u64, y: u64)
    requires
        forall|i: int| 0 <= i < 64 ==> word_bit(x, i) == word_bit(y, i),
    ensures
        x == y,
{
    assert forall|iw: u64| iw < 64 implies ((x >> iw) & 1) == ((y >> iw) & 1) by {
        lemma_bit_is_bool(x, iw);
        lemma_bit_is_bool(y, iw);
        let i = 63 - (iw as int);
        assert(0 <= i < 64);
        assert(word_bit(x, i) == word_bit(y, i));
        assert((63 - i) as u64 == iw);
    }
    lemma_word_sum(x);
    lemma_word_sum(y);
}

/// Two digests whose bits agree everywhere are equal.
pub proof fn lemma_digest_eq_from_bits(a: Digest, b: Digest)
    requires
        forall|i: int| 0 <= i < 256 ==> digest_bit(a, i) == digest_bit(b, i),
    ensures
        a == b,
{
    assert forall|i: int| 0 <= i < 64 implies word_bit(a.w0, i) == word_bit(b.w0, i) by {
        assert(digest_bit(a, i) == digest_bit(b, i));
    }
    assert forall|i: int| 0 <= i < 64 implies word_bit(a.w1, i) == word_bit(b.w1, i) by {
        assert(digest_bit(a, i + 64) == digest_bit(b, i + 64));
    }
    assert forall|i: int| 0 <= i < 64 implies word_bit(a.w2, i) == word_bit(b.w2, i) by {
        assert(digest_bit(a, i + 128) == digest_bit(b, i + 128));
    }
    assert forall|i: int| 0 <= i < 64 implies word_bit(a.w3, i) == word_bit(b.w3, i) by {
        assert(digest_bit(a, i + 192) == digest_bit(b, i + 192));
    }
    lemma_word_eq_from_bits(a.w0, b.w0);
    lemma_word_eq_from_bits(a.w1, b.w1);
    lemma_word_eq_from_bits(a.w2, b.w2);
    lemma_word_eq_from_bits(a.w3, b.w3);
}

/// In a word whose top `off` bits agree, a one-bit right after them puts the
/// word above one with a zero there.
proof fn lemma_word_prefix_order(x: u64, y: u64, off: u64)
    by (bit_vector)
    requires
        off < 64,
        off == 0 || x >> ((64 - off) as u64) == y >> ((64 - off) as u64),
        (x >> ((63 - off) as u64)) & 1 == 1,
        (y >> ((63 - off) as u64)) & 1 == 0,
    ensures
        y < x,
{
}

/// Between two digests that agree on their first `d` bits, the one with a
/// zero at position `d` is the smaller.
pub proof fn lemma_digest_bit_order(a: Digest, b: Digest, d: int)
    requires
        0 <= d < 256,
        forall|i: int| 0 <= i < d ==> digest_bit(a, i) == digest_bit(b, i),
        !digest_bit(a, d),
        digest_bit(b, d),
    ensures
        crate::digest::digest_lt(a, b),
{
    let wi = d / 64;
    let off = d % 64;
    let wa = word_of(a, d);
    let wb = word_of(b, d);
    assert forall|k: int| 0 <= k < d implies digest_bit(a, k) == digest_bit(b, k) by {}
    if wi >= 1 {
        assert forall|i: int| 0 <= i < 64 implies word_bit(a.w0, i) == word_bit(b.w0, i) by {
            assert(digest_bit(a, i) == digest_bit(b, i));
        }
        lemma_word_eq_from_bits(a.w0, b.w0);
    }
    if wi >= 2 {
        assert forall|i: int| 0 <= i < 64 implies word_bit(a.w1, i) == word_bit(b.w1, i) by {
            assert(digest_bit(a, i + 64) == digest_bit(b, i + 64));
        }
        lemma_word_eq_from_bits(a.w1, b.w1);
    }
    if wi >= 3 {
        assert forall|i: int| 0 <= i < 64 implies word_bit(a.w2, i) == word_bit(b.w2, i) by {
            assert(digest_bit(a, i + 128) == digest_bit(b, i + 128));
        }
        lemma_word_eq_from_bits(a.w2, b.w2);
    }
    if off > 0 {
        assert forall|iw: u64| iw < 64 && 64 - iw <= off implies ((wa >> iw) & 1) == ((wb >> iw)
            & 1) by {
            lemma_bit_is_bool(wa, iw);
            lemma_bit_is_bool(wb, iw);
            let i = 63 - (iw as int);
            assert(0 <= i < off);
            assert(digest_bit(a, 64 * wi + i) == digest_bit(b, 64 * wi + i));
            assert(word_bit(wa, i) == word_bit(wb, i));
            assert((63 - i) as u64 == iw);
        }
        lemma_mask_eq_from_high_bits(wa, wb, off as u64);
    }
    assert(!word_bit(wa, off) && word_bit(wb, off));
    assert((wa >> ((63 - off) as u64)) & 1 != 1);
    lemma_bit_is_bool(wa, (63 - off) as u64);
    assert(wa < wb) by {
        lemma_word_prefix_order(wb, wa, off as u64);
    }
    if wi == 0 {
        assert(crate::digest::digest_lt(a, b));
    } else if wi == 1 {
        assert(crate::digest::digest_lt(a, b));
    } else if wi == 2 {
        assert(crate::digest::digest_lt(a, b));
    } else {
        assert(crate::digest::digest_lt(a, b));
    }
}

/// Agreement on the top `off` bits, written as equal shifted words.
proof fn lemma_mask_eq_from_high_bits(x: u64, y: u64, off: u64)
    requires
        0 < off < 64,
        forall|iw: u64| iw < 64 && 64 - iw <= off ==> ((x >> iw) & 1) == #[trigger] ((y >> iw) & 1),
    ensures
        x >> ((64 - off) as u64) == y >> ((64 - off) as u64),
{
    let s = (64 - off) as u64;
    assert forall|j: u64| j < 64 implies (((x >> s) >> j) & 1) == (((y >> s) >> j) & 1) by {
        lemma_shr_shr(x, s, j);
        lemma_shr_shr(y, s, j);
        if s + j < 64 {
            let iw = (s + j) as u64;
            assert(((x >> iw) & 1) == ((y >> iw) & 1));
        }
    }
    lemma_word_sum(x >> s);
    lemma_word_sum(y >> s);
}

/// Composing two right shifts reads the bit the summed shift would.
proof fn lemma_shr_shr(x: u64, s: u64, j: u64)
    by (bit_vector)
    requires
        s < 64,
        j < 64,
    ensures
        ((x >> s) >> j) & 1 == (if s + j < 64 {
            (x >> ((s + j) as u64)) & 1
        } else {
            0u64
        }),
{
}

} // verus!
