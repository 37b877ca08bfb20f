//! The fingerprint of a collection of texts: its canonical joined form and
//! the MD5 digest of that form.
//!
//! The joined form puts `@` between the sorted texts and escapes nothing, so
//! collections whose texts themselves hold `@` can share a fingerprint:
//! `["a@b"]` and `["a", "b"]` both join to `a@b`.

use crate::sorting::{arranged, is_descending, law_sorting_ignores_input_order, sort_package};
use crate::text::{lower_ascii, lowered};
use e9571_lib1::e9571_lib1::default_encode_md5;
use vstd::prelude::*;

verus! {

/// The text that stands between two neighbours of the joined form.
pub open spec fn separator() -> Seq<char> {
    seq!['@']
}

/// The texts of `list` one after another, with `sep` between neighbours and
/// none at either end.
pub open spec fn joined(list: Seq<Seq<char>>, sep: Seq<char>) -> Seq<char>
    decreases list.len(),
{
    if list.len() == 0 {
        Seq::empty()
    } else if list.len() == 1 {
        list[0]
    } else {
        joined(list.drop_last(), sep) + sep + list.last()
    }
}

/// One of `0`..`9`, `A`..`F`.
pub open spec fn is_upper_hex_digit(c: char) -> bool {
    '0' <= c <= '9' || 'A' <= c <= 'F'
}

/// One of `0`..`9`, `a`..`f`.
pub open spec fn is_lower_hex_digit(c: char) -> bool {
    '0' <= c <= '9' || 'a' <= c <= 'f'
}

/// The texts of `list` with `@` between neighbours.
pub fn join_texts(list: &[String]) -> (out: String)
    ensures
        out@ == joined(list.deep_view(), separator()),
{
    let ghost texts = list.deep_view();
    let mut out = String::new();
    let mut i: usize = 0;
    while i < list.len()
        invariant
            i <= list.len(),
            texts == list.deep_view(),
            out@ == joined(texts.take(i as int), separator()),
        decreases list.len() - i,
    {
        proof {
            reveal_strlit("@");
            assert("@"@ =~= separator());
            assert(texts.take(i + 1).drop_last() =~= texts.take(i as int));
            assert(texts.take(i + 1).last() == list[i as int]@);
        }
        if i > 0 {
            out.append("@");
        }
        out.append(list[i].as_str());
        proof {
            if i == 0 {
                assert(out@ =~= list[0]@);
            }
        }
        i += 1;
    }
    assert(texts.take(list.len() as int) =~= texts);
    out
}

/// The MD5 digest of the UTF-8 bytes of `text`, as `default_encode_md5` of
/// `e9571_lib1` reports it: in hexadecimal with capital letters.
pub uninterp spec fn md5_upper_hex(text: Seq<char>) -> Seq<char>;

/// 32 characters, each of `0`..`9`, `A`..`F`.
pub open spec fn is_upper_hex_digest(digest: Seq<char>) -> bool {
    &&& digest.len() == 32
    &&& forall|i: int| 0 <= i < digest.len() ==> is_upper_hex_digit(#[trigger] digest[i])
}

/// 32 characters, each of `0`..`9`, `a`..`f`.
pub open spec fn is_lower_hex_digest(digest: Seq<char>) -> bool {
    &&& digest.len() == 32
    &&& forall|i: int| 0 <= i < digest.len() ==> is_lower_hex_digit(#[trigger] digest[i])
}

/// Calls `e9571_lib1::e9571_lib1::default_encode_md5`, which hands the bytes
/// of `text` to `md5::compute` and formats the 16 bytes of the digest with
/// `{:X}`, two capital hexadecimal digits for each. Trusted: that the result
/// depends on `text` alone, and that it has this shape.
#[verifier::external_body]
fn md5_digest_upper_hex(text: &str) -> (digest: String)
    ensures
        digest@ == md5_upper_hex(text@),
        is_upper_hex_digest(digest@),
{
    default_encode_md5(text)
}

/// The digest part of a fingerprint: the MD5 digest of `text` in lower-case
/// hexadecimal.
pub open spec fn digest_of(text: Seq<char>) -> Seq<char> {
    lowered(md5_upper_hex(text))
}

/// The text part of a fingerprint: the texts in canonical order, joined.
pub open spec fn canonical_text(list: Seq<Seq<char>>, descending: bool) -> Seq<char> {
    joined(arranged(list, descending), separator())
}

/// Lowering a digest in capital hexadecimal gives one in lower-case
/// hexadecimal.
pub proof fn lemma_lowered_digest(digest: Seq<char>)
    requires
        is_upper_hex_digest(digest),
    ensures
        is_lower_hex_digest(lowered(digest)),
{
    assert forall|i: int| 0 <= i < digest.len() implies is_lower_hex_digit(
        #[trigger] lowered(digest)[i],
    ) by {
        assert(is_upper_hex_digit(digest[i]));
    }
}

/// The digest of a joined text, in lower-case hexadecimal.
pub fn digest_text(text: &str) -> (digest: String)
    ensures
        digest@ == digest_of(text@),
        is_lower_hex_digest(digest@),
{
    let upper = md5_digest_upper_hex(text);
    proof {
        lemma_lowered_digest(upper@);
    }
    lower_ascii(upper.as_str())
}

/// The fingerprint of `data`: its texts in canonical order (ascending when
/// `sort_type` is zero, descending otherwise) joined with `@`, and the MD5
/// digest of that joined text in lower-case hexadecimal.
pub fn sort_package_str(data: &[String], sort_type: i32) -> (out: (String, String))
    ensures
        out.0@ == canonical_text(data.deep_view(), is_descending(sort_type)),
        out.1@ == digest_of(out.0@),
        is_lower_hex_digest(out.1@),
{
    let list = sort_package(data, sort_type);
    let str_tmp = join_texts(list.as_slice());
    let md5_hash = digest_text(str_tmp.as_str());
    (str_tmp, md5_hash)
}

/// A fingerprint depends only on which texts the collection holds and how
/// often, not on the order in which they are given.
pub proof fn law_fingerprint_ignores_input_order(
    list: Seq<Seq<char>>,
    permuted: Seq<Seq<char>>,
    descending: bool,
)
    requires
        permuted.to_multiset() == list.to_multiset(),
    ensures
        canonical_text(permuted, descending) == canonical_text(list, descending),
        digest_of(canonical_text(permuted, descending)) == digest_of(
            canonical_text(list, descending),
        ),
{
    law_sorting_ignores_input_order(list, permuted, descending);
}

/// The separator is not escaped: one text that holds an `@` joins to the
/// same text as the two texts on either side of that `@`.
pub proof fn law_separator_inside_a_text_collides(a: Seq<char>, b: Seq<char>)
    ensures
        joined(seq![a + separator() + b], separator()) == joined(seq![a, b], separator()),
{
    let pair = seq![a, b];
    assert(pair.drop_last() =~= seq![a]);
    assert(joined(seq![a], separator()) == a);
    assert(joined(pair, separator()) == a + separator() + b);
}

} // verus!
