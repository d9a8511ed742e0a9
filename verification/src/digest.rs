use vstd::prelude::*;

verus! {

/// A 256-bit content digest, stored as four 64-bit words, most significant
/// word first. Digests identify nodes and, derived from a key, give the
/// path at which the key's leaf lives in the trie.
#[derive(Clone, Copy, PartialEq, Eq, Structural, Debug, Hash)]
pub struct Digest {
    pub w0: u64,
    pub w1: u64,
    pub w2: u64,
    pub w3: u64,
}

/// Bit `i` of a word, counting from the most significant bit.
pub open spec fn word_bit(w: u64, i: int) -> bool {
    (w >> (63 - i) as u64) & 1 == 1
}

/// Bit `i` of a digest, counting from the most significant bit of the first word.
pub open spec fn digest_bit(d: Digest, i: int) -> bool {
    if i < 64 {
        word_bit(d.w0, i)
    } else if i < 128 {
        word_bit(d.w1, i - 64)
    } else if i < 192 {
        word_bit(d.w2, i - 128)
    } else {
        word_bit(d.w3, i - 192)
    }
}

/// The digest as the sequence of its 256 bits, most significant first.
pub open spec fn digest_bits(d: Digest) -> Seq<bool> {
    Seq::new(256, |i: int| digest_bit(d, i))
}

/// Strict numeric order on digests, treating them as 256-bit big-endian numbers.
pub open spec fn digest_lt(a: Digest, b: Digest) -> bool {
    if a.w0 != b.w0 {
        a.w0 < b.w0
    } else if a.w1 != b.w1 {
        a.w1 < b.w1
    } else if a.w2 != b.w2 {
        a.w2 < b.w2
    } else {
        a.w3 < b.w3
    }
}

/// Byte `i` of a digest, big-endian within each word.
pub open spec fn digest_byte(d: Digest, i: int) -> u8 {
    if i < 8 {
        (d.w0 >> ((56 - 8 * i) as u64)) as u8
    } else if i < 16 {
        (d.w1 >> ((56 - 8 * (i - 8)) as u64)) as u8
    } else if i < 24 {
        (d.w2 >> ((56 - 8 * (i - 16)) as u64)) as u8
    } else {
        (d.w3 >> ((56 - 8 * (i - 24)) as u64)) as u8
    }
}

/// The digest as its 32 bytes, most significant first.
pub open spec fn digest_bytes(d: Digest) -> Seq<u8> {
    Seq::new(32, |i: int| digest_byte(d, i))
}

impl Digest {
    /// Reads one bit, counting from the most significant end.
    pub fn bit(&self, index: u16) -> (b: bool)
        requires
            index < 256,
        ensures
            b == digest_bit(*self, index as int),
    {
        let word: u64 = if index < 64 {
            self.w0
        } else if index < 128 {
            self.w1
        } else if index < 192 {
            self.w2
        } else {
            self.w3
        };
        let off: u16 = index % 64;
        proof {
            assert(index < 64 ==> index % 64 == index) by (bit_vector);
            assert(64 <= index < 128 ==> index % 64 == index - 64) by (bit_vector);
            assert(128 <= index < 192 ==> index % 64 == index - 128) by (bit_vector);
            assert(192 <= index < 256 ==> index % 64 == index - 192) by (bit_vector);
        }
        (word >> (63 - off) as u64) & 1 == 1
    }

    /// The first byte, which selects the shard of a leaf label.
    pub fn first_byte(&self) -> (b: u8)
        ensures
            b == digest_byte(*self, 0),
    {
        (self.w0 >> 56u64) as u8
    }

    /// Writes the digest out as its 32 bytes, most significant first.
    pub fn to_bytes(&self) -> (r: Vec<u8>)
        ensures
            r@ == digest_bytes(*self),
    {
        let mut out: Vec<u8> = Vec::new();
        push_word_bytes(&mut out, self.w0);
        let ghost o1 = out@;
        push_word_bytes(&mut out, self.w1);
        let ghost o2 = out@;
        push_word_bytes(&mut out, self.w2);
        let ghost o3 = out@;
        push_word_bytes(&mut out, self.w3);
        proof {
            assert forall|i: int| 0 <= i < 32 implies #[trigger] out@[i] == digest_byte(*self, i) by {
                if i < 8 {
                    assert(o1[0 + i] == (self.w0 >> ((56 - 8 * i) as u64)) as u8);
                    assert(o2[i] == o1[i]);
                    assert(o3[i] == o2[i]);
                    assert(out@[i] == o3[i]);
                } else if i < 16 {
                    assert(o2[8 + (i - 8)] == (self.w1 >> ((56 - 8 * (i - 8)) as u64)) as u8);
                    assert(o3[i] == o2[i]);
                    assert(out@[i] == o3[i]);
                } else if i < 24 {
                    assert(o3[16 + (i - 16)] == (self.w2 >> ((56 - 8 * (i - 16)) as u64)) as u8);
                    assert(out@[i] == o3[i]);
                } else {
                    assert(out@[24 + (i - 24)] == (self.w3 >> ((56 - 8 * (i - 24)) as u64)) as u8);
                }
            };
            assert(out@ =~= digest_bytes(*self));
        }
        out
    }
}

/// Appends the eight bytes of one word, most significant first.
fn push_word_bytes(out: &mut Vec<u8>, w: u64)
    ensures
        final(out)@.len() == old(out)@.len() + 8,
        forall|i: int| 0 <= i < old(out)@.len() ==> #[trigger] final(out)@[i] == old(out)@[i],
        forall|j: int|
            0 <= j < 8 ==> #[trigger] final(out)@[old(out)@.len() + j] == (w >> ((56 - 8 * j)
                as u64)) as u8,
{
    let ghost base = out@.len() as int;
    out.push((w >> 56u64) as u8);
    out.push((w >> 48u64) as u8);
    out.push((w >> 40u64) as u8);
    out.push((w >> 32u64) as u8);
    out.push((w >> 24u64) as u8);
    out.push((w >> 16u64) as u8);
    out.push((w >> 8u64) as u8);
    out.push((w >> 0u64) as u8);
    proof {
        assert forall|j: int|
            0 <= j < 8 implies #[trigger] out@[base + j] == (w >> ((56 - 8 * j) as u64)) as u8 by {
            if j == 0 {
                assert(out@[base + 0] == (w >> 56u64) as u8);
            } else if j == 1 {
                assert(out@[base + 1] == (w >> 48u64) as u8);
            } else if j == 2 {
                assert(out@[base + 2] == (w >> 40u64) as u8);
            } else if j == 3 {
                assert(out@[base + 3] == (w >> 32u64) as u8);
            } else if j == 4 {
                assert(out@[base + 4] == (w >> 24u64) as u8);
            } else if j == 5 {
                assert(out@[base + 5] == (w >> 16u64) as u8);
            } else if j == 6 {
                assert(out@[base + 6] == (w >> 8u64) as u8);
            } else {
                assert(out@[base + 7] == (w >> 0u64) as u8);
            }
        }
    }
}

} // verus!
