//! The word-aligned row layout for mutable aggregate state: per
//! state field one eight-byte validity word and one eight-byte value
//! word, so accumulators update fields in place at fixed offsets.

use vstd::prelude::*;

use crate::hashing::le_bytes;
use crate::rowcodec::from_le;

verus! {

/// The fixed width of a word-aligned row of `m` state fields.
pub open spec fn spec_fixed_width(m: nat) -> nat {
    16 * m
}

/// The value of the `wi`-th eight-byte word of a buffer.
pub open spec fn word_at(buf: Seq<u8>, wi: int) -> nat {
    from_le(buf.subrange(8 * wi, 8 * wi + 8))
}

/// The fixed width of a word-aligned row of `m` state fields.
pub fn fixed_part_width(m: usize) -> (r: usize)
    requires
        16 * m <= usize::MAX,
    ensures
        r == spec_fixed_width(m as nat),
{
    16 * m
}

/// An all-zero word-aligned row: every field null, every value zero.
pub fn wa_zeros(m: usize) -> (r: Vec<u8>)
    requires
        16 * m <= usize::MAX,
    ensures
        r@.len() == spec_fixed_width(m as nat),
        forall|wi: int| 0 <= wi < 2 * m ==> #[trigger] word_at(r@, wi) == 0,
{
    let width = 16 * m;
    let mut r: Vec<u8> = Vec::new();
    let mut i: usize = 0;
    while i < width
        invariant
            i <= width,
            r@.len() == i,
            forall|q: int| 0 <= q < i ==> #[trigger] r@[q] == 0u8,
        decreases width - i,
    {
        r.push(0);
        i = i + 1;
    }
    proof {
        assert forall|wi: int| 0 <= wi < 2 * m implies #[trigger] word_at(r@, wi) == 0 by {
            lemma_from_le_zero(r@.subrange(8 * wi, 8 * wi + 8));
        }
    }
    r
}

/// A string of zero bytes reads back as zero.
proof fn lemma_from_le_zero(s: Seq<u8>)
    requires
        forall|q: int| 0 <= q < s.len() ==> #[trigger] s[q] == 0u8,
    ensures
        from_le(s) == 0,
    decreases s.len(),
{
    if s.len() > 0 {
        lemma_from_le_zero(s.drop_first());
    }
}

/// Reads the `wi`-th word of a buffer.
pub fn read_word(buf: &Vec<u8>, wi: usize) -> (r: u64)
    requires
        8 * wi + 8 <= buf@.len(),
    ensures
        r as nat == word_at(buf@, wi as int),
{
    let l = buf.len();
    proof {
        assert(8 * wi + 8 <= l);
    }
    crate::rowcodec::read_le_u64(buf, 8 * wi, 8)
}

/// Writes the `wi`-th word of a buffer in place, leaving every other
/// byte untouched.
pub fn write_word(buf: &mut Vec<u8>, wi: usize, v: u64)
    requires
        8 * wi + 8 <= old(buf)@.len(),
    ensures
        final(buf)@.len() == old(buf)@.len(),
        word_at(final(buf)@, wi as int) == v,
        forall|q: int|
            0 <= q < old(buf)@.len() && !(8 * wi <= q < 8 * wi + 8) ==> #[trigger] final(buf)@[q]
                == old(buf)@[q],
        forall|w2: int|
            0 <= w2 && 8 * w2 + 8 <= old(buf)@.len() && w2 != wi ==> #[trigger] word_at(
                final(buf)@,
                w2,
            ) == word_at(old(buf)@, w2),
{
    let mut tmp: Vec<u8> = Vec::new();
    crate::hashing::push_le_bytes(&mut tmp, v, 8);
    proof {
        crate::rowcodec::lemma_le_bytes_len(v, 8);
    }
    let l = buf.len();
    proof {
        assert(8 * wi + 8 <= l);
    }
    let mut j: usize = 0;
    while j < 8
        invariant
            j <= 8,
            8 * wi + 8 <= l,
            l == old(buf)@.len(),
            buf@.len() == old(buf)@.len(),
            tmp@ == le_bytes(v, 8),
            tmp@.len() == 8,
            forall|q: int|
                0 <= q < old(buf)@.len() && !(8 * wi <= q < 8 * wi + j) ==> #[trigger] buf@[q]
                    == old(buf)@[q],
            forall|q: int| 0 <= q < j ==> #[trigger] buf@[8 * wi + q] == tmp@[q],
        decreases 8 - j,
    {
        let b = tmp[j];
        buf.set(8 * wi + j, b);
        j = j + 1;
    }
    proof {
        crate::hashing::lemma_pow256_values();
        assert forall|q: int| 0 <= q < 8 implies buf@.subrange(8 * wi, 8 * wi + 8)[q] == le_bytes(
            v,
            8,
        )[q] by {
            assert(buf@[8 * wi + q] == tmp@[q]);
        }
        assert(buf@.subrange(8 * wi, 8 * wi + 8) =~= le_bytes(v, 8));
        crate::rowcodec::lemma_from_le_le_bytes_exact(v, 8);
        assert forall|w2: int|
            0 <= w2 && 8 * w2 + 8 <= old(buf)@.len() && w2 != wi implies #[trigger] word_at(
            buf@,
            w2,
        ) == word_at(old(buf)@, w2) by {
            assert(buf@.subrange(8 * w2, 8 * w2 + 8) =~= old(buf)@.subrange(8 * w2, 8 * w2 + 8));
        }
    }
}

} // verus!
