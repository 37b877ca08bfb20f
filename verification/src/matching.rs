//! Finding the occurrences of a needle in a haystack in one pass over the
//! haystack, with a table of the needle's borders to fall back on.

use vstd::prelude::*;

verus! {

/// Whether `needle` stands at the start of `haystack`.
pub open spec fn starts_with(haystack: Seq<char>, needle: Seq<char>) -> bool {
    needle.len() <= haystack.len() && haystack.take(needle.len() as int) == needle
}

/// How often `needle` occurs in `haystack` when the haystack is read from
/// left to right and the search goes on behind each occurrence found, so
/// that occurrences never overlap.
///
/// The empty needle occurs before every character and once more at the end:
/// one time more than the haystack has characters.
pub open spec fn occurrences(haystack: Seq<char>, needle: Seq<char>) -> nat
    decreases haystack.len(),
{
    if needle.len() == 0 {
        haystack.len() + 1
    } else if haystack.len() < needle.len() {
        0
    } else if starts_with(haystack, needle) {
        1 + occurrences(haystack.skip(needle.len() as int), needle)
    } else {
        occurrences(haystack.skip(1), needle)
    }
}

/// The first `k` characters of `needle` stand in `text` directly before
/// position `end`, and begin at position `from` or later.
spec fn fits(needle: Seq<char>, k: int, text: Seq<char>, from: int, end: int) -> bool {
    &&& 0 <= k <= needle.len()
    &&& 0 <= from <= end - k
    &&& end <= text.len()
    &&& text.subrange(end - k, end) == needle.take(k)
}

/// `k` is the greatest length that fits.
spec fn longest_fit(
    needle: Seq<char>,
    k: int,
    text: Seq<char>,
    from: int,
    end: int,
) -> bool {
    &&& fits(needle, k, text, from, end)
    &&& forall|b: int| k < b <= needle.len() ==> !fits(needle, b, text, from, end)
}

/// For each length from 1 up to `upto`, the table holds the length of the
/// longest border of the needle's prefix of that length: the longest
/// beginning of the prefix, short of the whole, that is also its end.
spec fn borders_known(needle: Seq<char>, table: Seq<usize>, upto: int) -> bool {
    &&& upto < table.len()
    &&& forall|x: int|
        1 <= x <= upto ==> longest_fit(needle, (#[trigger] table[x]) as int, needle, 1, x)
}

/// Below a length that fits, a length fits in the text exactly if it fits
/// as a border of the needle's prefix of the greater length.
proof fn lemma_shorter_fit(
    needle: Seq<char>,
    k: int,
    text: Seq<char>,
    from: int,
    end: int,
    b: int,
)
    requires
        fits(needle, k, text, from, end),
        0 <= b < k,
    ensures
        fits(needle, b, text, from, end) == fits(needle, b, needle, 1, k),
{
    let tail_of_text = text.subrange(end - b, end);
    let tail_of_prefix = needle.subrange(k - b, k);
    assert forall|x: int| 0 <= x < b implies tail_of_text[x] == tail_of_prefix[x] by {
        assert(text.subrange(end - k, end)[k - b + x] == needle.take(k)[k - b + x]);
    }
    assert(tail_of_text =~= tail_of_prefix);
}

/// One character more fits exactly if the length before it fitted and the
/// next character of the text is the next of the needle.
proof fn lemma_longer_fit(needle: Seq<char>, k: int, text: Seq<char>, from: int, end: int)
    requires
        0 <= k < needle.len(),
        0 <= from <= end - k,
        end < text.len(),
    ensures
        fits(needle, k + 1, text, from, end + 1) == (fits(needle, k, text, from, end) && text[end]
            == needle[k]),
{
    let longer = text.subrange(end - k, end + 1);
    let shorter = text.subrange(end - k, end);
    if fits(needle, k + 1, text, from, end + 1) {
        assert forall|x: int| 0 <= x < k implies shorter[x] == needle.take(k)[x] by {
            assert(longer[x] == needle.take(k + 1)[x]);
        }
        assert(shorter =~= needle.take(k));
        assert(longer[k] == needle.take(k + 1)[k]);
    }
    if fits(needle, k, text, from, end) && text[end] == needle[k] {
        assert forall|x: int| 0 <= x < k + 1 implies longer[x] == needle.take(k + 1)[x] by {
            if x < k {
                assert(shorter[x] == needle.take(k)[x]);
            }
        }
        assert(longer =~= needle.take(k + 1));
    }
}

/// The greatest length that fits before position `end + 1`, from the
/// greatest that fits before `end` and the character `next` at `end`.
fn advance(
    needle: &Vec<char>,
    table: &Vec<usize>,
    k: usize,
    next: char,
    Ghost(text): Ghost<Seq<char>>,
    Ghost(from): Ghost<int>,
    Ghost(end): Ghost<int>,
) -> (grown: usize)
    requires
        k < needle.len(),
        borders_known(needle@, table@, k as int),
        longest_fit(needle@, k as int, text, from, end),
        end < text.len(),
        text[end] == next,
        from <= end + 1,
    ensures
        grown <= needle.len(),
        grown <= k + 1,
        longest_fit(needle@, grown as int, text, from, end + 1),
{
    let mut k: usize = k;
    while k > 0 && next != needle[k]
        invariant
            k < needle.len(),
            borders_known(needle@, table@, k as int),
            fits(needle@, k as int, text, from, end),
            end < text.len(),
            text[end] == next,
            forall|b: int|
                k < b < needle.len() && fits(needle@, b, text, from, end) ==> needle[b] != next,
        decreases k,
    {
        let shorter: usize = table[k];
        proof {
            assert(longest_fit(needle@, shorter as int, needle@, 1, k as int));
            lemma_shorter_fit(needle@, k as int, text, from, end, shorter as int);
            assert forall|b: int|
                shorter < b < needle.len() && fits(needle@, b, text, from, end) implies needle[b]
                != next by {
                if b < k {
                    lemma_shorter_fit(needle@, k as int, text, from, end, b);
                }
            }
        }
        k = shorter;
    }
    if next == needle[k] {
        proof {
            lemma_longer_fit(needle@, k as int, text, from, end);
            assert forall|b: int| k + 1 < b <= needle.len() implies !#[trigger] fits(
                needle@,
                b,
                text,
                from,
                end + 1,
            ) by {
                if from <= end + 1 - b {
                    lemma_longer_fit(needle@, b - 1, text, from, end);
                }
            }
        }
        k + 1
    } else {
        proof {
            assert(text.subrange(end + 1, end + 1) =~= needle@.take(0));
            assert forall|b: int| 0 < b <= needle.len() implies !#[trigger] fits(
                needle@,
                b,
                text,
                from,
                end + 1,
            ) by {
                if from <= end + 1 - b {
                    lemma_longer_fit(needle@, b - 1, text, from, end);
                }
            }
        }
        0
    }
}

/// The table of the needle's borders, for each length short of the whole.
fn border_table(needle: &Vec<char>) -> (table: Vec<usize>)
    requires
        needle.len() > 0,
    ensures
        table.len() == needle.len(),
        borders_known(needle@, table@, needle.len() - 1),
{
    let mut table: Vec<usize> = Vec::new();
    table.push(0);
    if needle.len() == 1 {
        return table;
    }
    table.push(0);
    let mut end: usize = 1;
    let mut k: usize = 0;
    proof {
        assert(needle@.subrange(1, 1) =~= needle@.take(0));
    }
    while end + 1 < needle.len()
        invariant
            1 <= end < needle.len(),
            table.len() == end + 1,
            k == table[end as int],
            borders_known(needle@, table@, end as int),
        decreases needle.len() - end,
    {
        let ghost known = table@;
        k = advance(needle, &table, k, needle[end], Ghost(needle@), Ghost(1), Ghost(end as int));
        table.push(k);
        proof {
            assert forall|x: int| 1 <= x <= end + 1 implies longest_fit(
                needle@,
                (#[trigger] table@[x]) as int,
                needle@,
                1,
                x,
            ) by {
                if x <= end {
                    assert(table@[x] == known[x]);
                }
            }
        }
        end += 1;
    }
    table
}

/// No occurrence of the needle in `text` begins at `from` or later and ends
/// at `end` or before.
spec fn none_between(needle: Seq<char>, text: Seq<char>, from: int, end: int) -> bool {
    forall|at: int|
        from <= at && at + needle.len() <= end ==> #[trigger] text.subrange(
            at,
            at + needle.len(),
        ) != needle
}

/// Where the first occurrence from `from` on begins at `at`, the count from
/// `from` is one more than the count behind that occurrence.
proof fn lemma_first_occurrence(text: Seq<char>, needle: Seq<char>, from: int, at: int)
    requires
        needle.len() > 0,
        0 <= from <= at,
        at + needle.len() <= text.len(),
        text.subrange(at, at + needle.len()) == needle,
        none_between(needle, text, from, at + needle.len() - 1),
    ensures
        occurrences(text.skip(from), needle) == 1 + occurrences(
            text.skip(at + needle.len()),
            needle,
        ),
    decreases at - from,
{
    let rest = text.skip(from);
    assert(rest.take(needle.len() as int) =~= text.subrange(from, from + needle.len()));
    if from == at {
        assert(rest.skip(needle.len() as int) =~= text.skip(at + needle.len()));
    } else {
        assert(rest.skip(1) =~= text.skip(from + 1));
        lemma_first_occurrence(text, needle, from + 1, at);
    }
}

/// Where no occurrence begins at `from` or later, the count from `from` is 0.
proof fn lemma_no_occurrence(text: Seq<char>, needle: Seq<char>, from: int)
    requires
        needle.len() > 0,
        0 <= from <= text.len(),
        none_between(needle, text, from, text.len() as int),
    ensures
        occurrences(text.skip(from), needle) == 0,
    decreases text.len() - from,
{
    let rest = text.skip(from);
    if rest.len() >= needle.len() {
        assert(rest.take(needle.len() as int) =~= text.subrange(from, from + needle.len()));
        assert(rest.skip(1) =~= text.skip(from + 1));
        lemma_no_occurrence(text, needle, from + 1);
    }
}

/// How often `needle` occurs in `haystack`, found in one pass over the
/// haystack. The needle must not be empty: the empty needle occurs one time
/// more than the haystack has characters, which a `usize` need not hold.
pub fn count_from_left(haystack: &Vec<char>, needle: &Vec<char>) -> (count: usize)
    requires
        needle.len() > 0,
    ensures
        count == occurrences(haystack@, needle@),
{
    let table = border_table(needle);
    let mut count: usize = 0;
    let mut k: usize = 0;
    let mut end: usize = 0;
    let ghost mut from: int = 0;
    proof {
        assert(haystack@.skip(0) =~= haystack@);
        assert(haystack@.subrange(0, 0) =~= needle@.take(0));
    }
    while end < haystack.len()
        invariant
            0 <= from <= end <= haystack.len(),
            count <= end,
            needle.len() > 0,
            k < needle.len(),
            table.len() == needle.len(),
            borders_known(needle@, table@, needle.len() - 1),
            longest_fit(needle@, k as int, haystack@, from, end as int),
            none_between(needle@, haystack@, from, end as int),
            count + occurrences(haystack@.skip(from), needle@) == occurrences(
                haystack@,
                needle@,
            ),
        decreases haystack.len() - end,
    {
        k = advance(
            needle,
            &table,
            k,
            haystack[end],
            Ghost(haystack@),
            Ghost(from),
            Ghost(end as int),
        );
        proof {
            assert(needle@.take(needle.len() as int) =~= needle@);
            assert forall|at: int| from <= at && at + needle.len() <= end + 1 implies (
            #[trigger] haystack@.subrange(at, at + needle.len())) != needle@ || k
                == needle.len() by {
                if at + needle.len() == end + 1 && k < needle.len() {
                    assert(!fits(needle@, needle.len() as int, haystack@, from, end + 1));
                }
            }
        }
        end += 1;
        if k == needle.len() {
            proof {
                lemma_first_occurrence(haystack@, needle@, from, end - needle.len());
                from = end as int;
                assert(haystack@.subrange(end as int, end as int) =~= needle@.take(0));
            }
            count += 1;
            k = 0;
        }
    }
    proof {
        lemma_no_occurrence(haystack@, needle@, from);
    }
    count
}

} // verus!
