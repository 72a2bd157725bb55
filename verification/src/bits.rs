//! Sets of the digits 1 to 9 packed into the low nine bits of a `u32`: bit
//! `d - 1` stands for the digit `d`.

use vstd::prelude::*;

verus! {

/// The mask that holds all nine digits.
pub const ALL_DIGITS: u32 = 0b111_111_111;

/// True if the mask holds the digit `d`.
pub open spec fn has_digit(mask: u32, d: int) -> bool {
    1 <= d <= 9 && (mask >> ((d - 1) as u32)) & 1 == 1
}

/// The digits that the mask holds, as a set.
pub open spec fn digit_set(mask: u32) -> Set<int> {
    Set::new(|d: int| has_digit(mask, d))
}

/// The set of the digits 1 to 9.
pub open spec fn all_digits() -> Set<int> {
    Set::new(|d: int| 1 <= d <= 9)
}

/// How many of the digits 1 to `k` the mask holds.
pub open spec fn digits_up_to(mask: u32, k: int) -> int
    decreases k,
{
    if k <= 0 {
        0
    } else {
        digits_up_to(mask, k - 1) + if has_digit(mask, k) {
            1int
        } else {
            0int
        }
    }
}

proof fn lemma_shifted_or(mask: u32, s: u32, t: u32)
    by (bit_vector)
    requires
        s < 9,
        t < 9,
    ensures
        (((mask | (1u32 << s)) >> t) & 1 == 1) <==> (((mask >> t) & 1 == 1) || s == t),
        mask <= 0x1ff ==> (mask | (1u32 << s)) <= 0x1ff,
{
}

proof fn lemma_shifted_and_not(mask: u32, s: u32, t: u32)
    by (bit_vector)
    requires
        s < 9,
        t < 9,
    ensures
        (((mask & !(1u32 << s)) >> t) & 1 == 1) <==> (((mask >> t) & 1 == 1) && s != t),
        mask <= 0x1ff ==> (mask & !(1u32 << s)) <= 0x1ff,
{
}

proof fn lemma_shifted_and(a: u32, b: u32, t: u32)
    by (bit_vector)
    requires
        t < 9,
    ensures
        (((a & b) >> t) & 1 == 1) <==> (((a >> t) & 1 == 1) && ((b >> t) & 1 == 1)),
        a <= 0x1ff ==> (a & b) <= 0x1ff,
{
}

proof fn lemma_shifted_constants(t: u32)
    by (bit_vector)
    requires
        t < 9,
    ensures
        (0x1ffu32 >> t) & 1 == 1,
        (0u32 >> t) & 1 == 0,
{
}

/// Adding the digit `d` to a mask adds `d` and nothing else.
pub proof fn lemma_with_digit(mask: u32, d: u32)
    requires
        1 <= d <= 9,
    ensures
        forall|e: int|
            has_digit(mask | (1u32 << ((d - 1) as u32)), e) == (has_digit(mask, e) || e == d),
        mask <= ALL_DIGITS ==> (mask | (1u32 << ((d - 1) as u32))) <= ALL_DIGITS,
{
    let s = (d - 1) as u32;
    assert forall|e: int|
        has_digit(mask | (1u32 << s), e) == (has_digit(mask, e) || e == d) by {
        if 1 <= e <= 9 {
            lemma_shifted_or(mask, s, (e - 1) as u32);
        }
    }
    lemma_shifted_or(mask, s, 0);
}

/// Removing the digit `d` from a mask removes `d` and nothing else.
pub proof fn lemma_without_digit(mask: u32, d: u32)
    requires
        1 <= d <= 9,
    ensures
        forall|e: int|
            has_digit(mask & !(1u32 << ((d - 1) as u32)), e) == (has_digit(mask, e) && e != d),
        mask <= ALL_DIGITS ==> (mask & !(1u32 << ((d - 1) as u32))) <= ALL_DIGITS,
{
    let s = (d - 1) as u32;
    assert forall|e: int|
        has_digit(mask & !(1u32 << s), e) == (has_digit(mask, e) && e != d) by {
        if 1 <= e <= 9 {
            lemma_shifted_and_not(mask, s, (e - 1) as u32);
        }
    }
    lemma_shifted_and_not(mask, s, 0);
}

/// The bitwise `&` of two masks holds the digits that both hold.
pub proof fn lemma_common_digits(a: u32, b: u32)
    ensures
        forall|e: int| has_digit(a & b, e) == (has_digit(a, e) && has_digit(b, e)),
        a <= ALL_DIGITS ==> (a & b) <= ALL_DIGITS,
{
    assert forall|e: int| has_digit(a & b, e) == (has_digit(a, e) && has_digit(b, e)) by {
        if 1 <= e <= 9 {
            lemma_shifted_and(a, b, (e - 1) as u32);
        }
    }
    lemma_shifted_and(a, b, 0);
}

/// `ALL_DIGITS` holds each digit, and the mask 0 holds none.
pub proof fn lemma_full_and_empty()
    ensures
        forall|e: int| has_digit(ALL_DIGITS, e) == (1 <= e <= 9),
        forall|e: int| !has_digit(0, e),
{
    assert forall|e: int| has_digit(ALL_DIGITS, e) == (1 <= e <= 9) by {
        if 1 <= e <= 9 {
            lemma_shifted_constants((e - 1) as u32);
        }
    }
    assert forall|e: int| !has_digit(0, e) by {
        if 1 <= e <= 9 {
            lemma_shifted_constants((e - 1) as u32);
        }
    }
}

proof fn lemma_shifted_bit(mask: u32, t: u32)
    by (bit_vector)
    requires
        t < 9,
    ensures
        (mask >> t) & 1 == 0 || (mask >> t) & 1 == 1,
{
}

/// The digits up to `k` that a mask holds form a finite set, whose size is
/// `digits_up_to`.
pub proof fn lemma_digits_up_to(mask: u32, k: int)
    requires
        0 <= k,
    ensures
        digit_set(mask).filter(|d: int| d <= k).finite(),
        digit_set(mask).filter(|d: int| d <= k).len() == digits_up_to(mask, k),
        0 <= digits_up_to(mask, k) <= k,
    decreases k,
{
    let here = digit_set(mask).filter(|d: int| d <= k);
    if k == 0 {
        assert(here =~= Set::<int>::empty());
    } else {
        lemma_digits_up_to(mask, k - 1);
        let below = digit_set(mask).filter(|d: int| d <= k - 1);
        if has_digit(mask, k) {
            assert(here =~= below.insert(k));
        } else {
            assert(here =~= below);
        }
    }
}

/// A mask holds finitely many digits: as many as `digits_up_to` counts up to 9.
pub proof fn lemma_digit_set(mask: u32)
    ensures
        digit_set(mask).finite(),
        digit_set(mask).len() == digits_up_to(mask, 9),
        digit_set(mask).len() <= 9,
        forall|d: int| digit_set(mask).contains(d) ==> 1 <= d <= 9,
{
    lemma_digits_up_to(mask, 9);
    assert(digit_set(mask).filter(|d: int| d <= 9) =~= digit_set(mask));
}

/// Count the digits that a mask holds.
pub fn count_digits(mask: u32) -> (count: u32)
    ensures
        count == digit_set(mask).len(),
        count <= 9,
{
    let mut count: u32 = 0;
    for i in 0..9u32
        invariant
            count == digits_up_to(mask, i as int),
            count <= i,
    {
        proof {
            lemma_shifted_bit(mask, i);
        }
        count += (mask >> i) & 1;
    }
    proof {
        lemma_digit_set(mask);
    }
    count
}

proof fn lemma_shifted_complement(mask: u32, t: u32)
    by (bit_vector)
    requires
        t < 9,
    ensures
        (((0x1ffu32 & !mask) >> t) & 1 == 1) <==> !((mask >> t) & 1 == 1),
        (0x1ffu32 & !mask) <= 0x1ff,
{
}

/// The mask of the digits that `present` lacks.
pub fn complement(present: u32) -> (mask: u32)
    ensures
        mask <= ALL_DIGITS,
        forall|d: int| has_digit(mask, d) == (1 <= d <= 9 && !has_digit(present, d)),
{
    proof {
        lemma_shifted_complement(present, 0);
        assert forall|d: int|
            has_digit(ALL_DIGITS & !present, d) == (1 <= d <= 9 && !has_digit(present, d)) by {
            if 1 <= d <= 9 {
                lemma_shifted_complement(present, (d - 1) as u32);
            }
        }
    }
    ALL_DIGITS & !present
}

} // verus!
