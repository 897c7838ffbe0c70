//! Single bits of 64-bit words, and of sequences of them.
use crate::model::bit;
use crate::model::bits;
use crate::model::word_bit;
use crate::model::BITMAP_LENGTH;
use vstd::prelude::*;

verus! {

proof fn lemma_or_bit(w: u64, b: u64, c: u64)
    by (bit_vector)
    requires
        b < 64,
        c < 64,
    ensures
        ((w | (1u64 << b)) >> c) & 1 == 1 <==> (c == b || (w >> c) & 1 == 1),
{
}

proof fn lemma_mask_bit(w: u64, b: u64)
    by (bit_vector)
    requires
        b < 64,
    ensures
        (w & (1u64 << b)) != 0 <==> (w >> b) & 1 == 1,
{
}

proof fn lemma_no_bit(c: u64)
    by (bit_vector)
    ensures
        (0u64 >> c) & 1 == 0,
{
}

proof fn lemma_bit_or_none(w: u64, c: u64)
    by (bit_vector)
    ensures
        (w >> c) & 1 == 0 || (w >> c) & 1 == 1,
{
}

proof fn lemma_other_bit(w: u64, v: u64, c: u64)
    by (bit_vector)
    ensures
        ((w ^ v) >> c) & 1 == 1 ==> (w >> c) & 1 != (v >> c) & 1,
        w ^ v == 0 ==> w == v,
{
}

/// Words with the same bits are the same.
pub proof fn lemma_same_word(w: u64, v: u64)
    requires
        forall|b: int| 0 <= b < 64 ==> (#[trigger] word_bit(w, b) <==> word_bit(v, b)),
    ensures
        w == v,
{
    if w != v {
        let x = w ^ v;
        lemma_other_bit(w, v, 0);
        vstd::std_specs::bits::axiom_u64_trailing_zeros(x);
        let b = vstd::std_specs::bits::u64_trailing_zeros(x);
        lemma_other_bit(w, v, b as u64);
        lemma_bit_or_none(x, b as u64);
        lemma_bit_or_none(w, b as u64);
        lemma_bit_or_none(v, b as u64);
        assert(word_bit(w, b as int) <==> word_bit(v, b as int));
    }
}

/// No bit of the zero word is set.
pub proof fn lemma_zero_word()
    ensures
        forall|b: int| !word_bit(0, b),
{
    assert forall|b: int| !word_bit(0, b) by {
        lemma_no_bit(b as u64);
    }
}

/// Sets bit `b` of a word.
pub fn with_bit(w: u64, b: u32) -> (r: u64)
    requires
        b < 64,
    ensures
        forall|c: int| 0 <= c < 64 ==> (#[trigger] word_bit(r, c) <==> c == b || word_bit(w, c)),
{
    let r = w | (1u64 << b);
    proof {
        assert forall|c: int| 0 <= c < 64 implies (#[trigger] word_bit(r, c) <==> c == b
            || word_bit(w, c)) by {
            lemma_or_bit(w, b as u64, c as u64);
        }
    }
    r
}

/// Tests bit `b` of a word.
pub fn test_bit(w: u64, b: u32) -> (r: bool)
    requires
        b < 64,
    ensures
        r == word_bit(w, b as int),
{
    proof {
        lemma_mask_bit(w, b as u64);
    }
    (w & (1u64 << b)) != 0
}

/// The lowest set bit of a word that is not zero.
pub fn lowest_bit(w: u64) -> (r: u32)
    requires
        w != 0,
    ensures
        r < 64,
        word_bit(w, r as int),
        forall|c: int| 0 <= c < r ==> !#[trigger] word_bit(w, c),
{
    let r = w.trailing_zeros();
    proof {
        vstd::std_specs::bits::axiom_u64_trailing_zeros(w);
        assert forall|c: int| 0 <= c < r implies !#[trigger] word_bit(w, c) by {
            let d = c as u64;
            assert((w >> d) & 1u64 == 0u64);
        }
    }
    r
}

/// The highest set bit of a word that is not zero.
pub fn highest_bit(w: u64) -> (r: u32)
    requires
        w != 0,
    ensures
        r < 64,
        word_bit(w, r as int),
        forall|c: int| r < c < 64 ==> !#[trigger] word_bit(w, c),
{
    let zeros = w.leading_zeros();
    proof {
        vstd::std_specs::bits::axiom_u64_leading_zeros(w);
    }
    let r = 63 - zeros;
    proof {
        lemma_bit_or_none(w, r as u64);
        assert forall|c: int| r < c < 64 implies !#[trigger] word_bit(w, c) by {
            let d = c as u64;
            assert((w >> d) & 1u64 == 0u64);
        }
    }
    r
}

/// The bits after one word has got one more bit.
pub proof fn lemma_bits_with(words: Seq<u64>, x: u16, w: u64)
    requires
        words.len() == BITMAP_LENGTH,
        forall|c: int|
            0 <= c < 64 ==> (#[trigger] word_bit(w, c) <==> c == x as int % 64 || word_bit(
                words[x as int / 64],
                c,
            )),
    ensures
        bits(words.update(x as int / 64, w)) == bits(words).insert(x),
{
    let after = words.update(x as int / 64, w);
    assert forall|y: u16| bits(after).contains(y) <==> bits(words).insert(x).contains(y) by {
        assert(bit(after, y) <==> y == x || bit(words, y));
    }
    assert(bits(after) =~= bits(words).insert(x));
}

/// The lowest set bit of the first word that is not zero comes before all others.
pub proof fn lemma_first_bit(words: Seq<u64>, i: int, b: int)
    requires
        words.len() == BITMAP_LENGTH,
        0 <= i < BITMAP_LENGTH,
        0 <= b < 64,
        forall|j: int| 0 <= j < i ==> words[j] == 0,
        word_bit(words[i], b),
        forall|c: int| 0 <= c < b ==> !#[trigger] word_bit(words[i], c),
    ensures
        bit(words, (64 * i + b) as u16),
        forall|y: u16| #[trigger] bit(words, y) ==> 64 * i + b <= y,
{
    lemma_zero_word();
    assert forall|y: u16| #[trigger] bit(words, y) implies 64 * i + b <= y by {
        let j = y as int / 64;
        if j == i {
            assert(word_bit(words[i], y as int % 64));
        } else if j < i {
            assert(words[j] == 0);
        }
    }
}

/// The highest set bit of the last word that is not zero comes behind all others.
pub proof fn lemma_last_bit(words: Seq<u64>, i: int, b: int)
    requires
        words.len() == BITMAP_LENGTH,
        0 <= i < BITMAP_LENGTH,
        0 <= b < 64,
        forall|j: int| i < j < BITMAP_LENGTH ==> words[j] == 0,
        word_bit(words[i], b),
        forall|c: int| b < c < 64 ==> !#[trigger] word_bit(words[i], c),
    ensures
        bit(words, (64 * i + b) as u16),
        forall|y: u16| #[trigger] bit(words, y) ==> y <= 64 * i + b,
{
    lemma_zero_word();
    assert forall|y: u16| #[trigger] bit(words, y) implies y <= 64 * i + b by {
        let j = y as int / 64;
        if j == i {
            assert(word_bit(words[i], y as int % 64));
        } else if j > i {
            assert(words[j] == 0);
        }
    }
}

/// Where every word is zero no bit is set.
pub proof fn lemma_no_bits(words: Seq<u64>)
    requires
        words.len() == BITMAP_LENGTH,
        forall|j: int| 0 <= j < BITMAP_LENGTH ==> words[j] == 0,
    ensures
        forall|y: u16| !#[trigger] bit(words, y),
{
    lemma_zero_word();
    assert forall|y: u16| !#[trigger] bit(words, y) by {
        assert(words[y as int / 64] == 0);
    }
}

} // verus!
