//! Counting the occurrences of one text in another, without regard to case.

use crate::matching::{count_from_left, occurrences};
use crate::text::chars_of;
use vstd::prelude::*;

verus! {

/// The lower-case form of `text` by the rules of Unicode, as `str::to_lowercase`
/// gives it.
pub uninterp spec fn lowercase(text: Seq<char>) -> Seq<char>;

/// Calls `str::to_lowercase`, which maps a text to its lower-case equivalent
/// as Unicode defines it. Trusted: that the result depends on `text` alone.
#[verifier::external_body]
fn to_lowercase(text: &str) -> (lower: String)
    ensures
        lower@ == lowercase(text@),
{
    text.to_lowercase()
}

/// A count as a 32-bit signed number: the count itself where it is at most
/// `i32::MAX`, and else its low 32 bits.
pub open spec fn count_as_i32(count: nat) -> i32 {
    count as i32
}

/// How often `needle` occurs in `haystack`, letter for letter, counted as
/// `occurrences` describes.
pub fn count_exact(haystack: &str, needle: &str) -> (count: i32)
    ensures
        count == count_as_i32(occurrences(haystack@, needle@)),
        occurrences(haystack@, needle@) <= i32::MAX ==> count == occurrences(
            haystack@,
            needle@,
        ),
{
    let hay = chars_of(haystack);
    let pin = chars_of(needle);
    if pin.len() == 0 {
        let total: u128 = hay.len() as u128 + 1;
        #[verifier::truncate]
        (total as i32)
    } else {
        let total: usize = count_from_left(&hay, &pin);
        #[verifier::truncate]
        (total as i32)
    }
}

/// How often `data2` occurs in `data1` when capitals and small letters count
/// as the same: both texts are brought to lower case, and the occurrences
/// are counted as `occurrences` describes.
pub fn str_count(data1: &str, data2: &str) -> (count: i32)
    ensures
        count == count_as_i32(occurrences(lowercase(data1@), lowercase(data2@))),
        occurrences(lowercase(data1@), lowercase(data2@)) <= i32::MAX ==> count == occurrences(
            lowercase(data1@),
            lowercase(data2@),
        ),
{
    let data1_lower = to_lowercase(data1);
    let data2_lower = to_lowercase(data2);
    count_exact(data1_lower.as_str(), data2_lower.as_str())
}

} // verus!
