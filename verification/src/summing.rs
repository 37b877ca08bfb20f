//! The sum of the scalar values of a text's characters.

use vstd::prelude::*;

verus! {

/// The sum of the Unicode scalar values of the characters of `text`.
pub open spec fn scalar_sum(text: Seq<char>) -> nat
    decreases text.len(),
{
    if text.len() == 0 {
        0
    } else {
        scalar_sum(text.drop_last()) + text.last() as nat
    }
}

/// The number of values that a `u64` can take.
pub open spec fn u64_range() -> nat {
    0x1_0000_0000_0000_0000
}

/// A character's scalar value is at most `0x10FFFF`.
pub proof fn lemma_char_range(c: char)
    ensures
        0 <= c as int <= 0x10FFFF,
{
}

/// Adding to a sum and to its remainder gives the same remainder.
proof fn lemma_add_under_modulus(a: nat, b: nat)
    ensures
        (a % u64_range() + b) % u64_range() == (a + b) % u64_range(),
{
    let r: int = 0x1_0000_0000_0000_0000;
    assert((a % (r as nat) + b) % (r as nat) == (a + b) % (r as nat)) by (nonlinear_arith)
        requires
            r > 0,
    ;
}

/// The sum of the Unicode scalar values of the characters of `text`, not
/// only of its ASCII characters. A sum that a `u64` cannot hold wraps round:
/// the result is the sum modulo two to the power of 64.
pub fn str_ascii(text: &str) -> (sum: u64)
    ensures
        sum == scalar_sum(text@) % u64_range(),
        scalar_sum(text@) <= u64::MAX ==> sum == scalar_sum(text@),
{
    let mut sum: u64 = 0;
    for c in it: text.chars()
        invariant
            it.seq() == text@,
            sum == scalar_sum(text@.take(it.index())) % u64_range(),
    {
        let ghost before = scalar_sum(text@.take(it.index()));
        let value: u64 = c as u32 as u64;
        proof {
            assert(text@.take(it.index() + 1).drop_last() =~= text@.take(it.index()));
            assert(text@.take(it.index() + 1).last() == c);
            lemma_char_range(c);
            lemma_add_under_modulus(before, value as nat);
        }
        sum = sum.wrapping_add(value);
    }
    assert(text@.take(text@.len() as int) =~= text@);
    sum
}

} // verus!
