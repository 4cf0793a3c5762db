use vstd::prelude::*;
use vstd::std_specs::iter::IteratorSpec;

verus! {

broadcast use vstd::string::group_string_axioms, vstd::string::next_postcondition;

/// Number of UTF-16 code units that encode `c`: two for a character outside
/// the Basic Multilingual Plane, one otherwise.
pub open spec fn utf16_len(c: char) -> nat {
    if (c as u32) >= 0x10000 {
        2
    } else {
        1
    }
}

/// Number of UTF-16 code units that encode the characters of `s`.
pub open spec fn utf16_units(s: Seq<char>) -> nat
    decreases s.len(),
{
    if s.len() == 0 {
        0
    } else {
        utf16_units(s.drop_last()) + utf16_len(s.last())
    }
}

/// The UTF-16 offset of character offset `offset` in `src`; an offset past
/// the end of `src` maps to 0.
pub open spec fn utf16_offset(src: Seq<char>, offset: int) -> nat {
    if offset > src.len() {
        0
    } else {
        utf16_units(src.take(offset))
    }
}

/// Number of characters among `s` that take two UTF-16 code units.
pub open spec fn wide_chars(s: Seq<char>) -> nat
    decreases s.len(),
{
    if s.len() == 0 {
        0
    } else {
        wide_chars(s.drop_last()) + if utf16_len(s.last()) == 2 { 1nat } else { 0nat }
    }
}

/// Each character takes one or two code units, so the total is the length
/// plus the number of wide characters, and at most twice the length.
pub proof fn lemma_units_count(s: Seq<char>)
    ensures
        utf16_units(s) == s.len() + wide_chars(s),
        wide_chars(s) <= s.len(),
    decreases s.len(),
{
    if s.len() > 0 {
        lemma_units_count(s.drop_last());
    }
}

proof fn lemma_no_wide(s: Seq<char>)
    requires
        forall|i: int| 0 <= i < s.len() ==> utf16_len(#[trigger] s[i]) == 1,
    ensures
        wide_chars(s) == 0,
    decreases s.len(),
{
    if s.len() > 0 {
        assert(utf16_len(s[s.len() - 1]) == 1);
        lemma_no_wide(s.drop_last());
    }
}

/// Within the text, a converted offset is the character offset plus the
/// number of characters before it that take two UTF-16 code units; so over
/// text of single-unit characters the two offsets agree.
pub proof fn lemma_offset_conversion(src: Seq<char>, k: int)
    requires
        0 <= k <= src.len(),
    ensures
        utf16_offset(src, k) == k + wide_chars(src.take(k)),
        (forall|i: int| 0 <= i < k ==> utf16_len(#[trigger] src[i]) == 1) ==> utf16_offset(src, k) == k,
{
    lemma_units_count(src.take(k));
    if forall|i: int| 0 <= i < k ==> utf16_len(#[trigger] src[i]) == 1 {
        assert forall|i: int| 0 <= i < src.take(k).len() implies utf16_len(#[trigger] src.take(k)[i]) == 1 by {
            assert(src.take(k)[i] == src[i]);
        }
        lemma_no_wide(src.take(k));
    }
}

/// UTF-16 code units of a single character, as `char::len_utf16` counts them.
pub fn char_utf16_len(c: char) -> (r: usize)
    ensures
        r == utf16_len(c),
{
    if (c as u32) >= 0x10000 {
        2
    } else {
        1
    }
}

/// `x`, or `usize::MAX` where `x` does not fit in a `usize`.
pub open spec fn saturate(x: nat) -> nat {
    if x <= usize::MAX {
        x
    } else {
        usize::MAX as nat
    }
}

/// Converts a character offset into `raw` to the UTF-16 code-unit offset of
/// the same position. An offset past the end of `raw` yields 0; a count that
/// does not fit in a `usize` (which no string in memory reaches) yields
/// `usize::MAX`.
pub fn to_utf16_offset(raw: &str, offset: usize) -> (r: usize)
    ensures
        r == saturate(utf16_offset(raw@, offset as int)),
        offset > raw@.len() ==> r == 0,
{
    let n = raw.unicode_len();
    if offset > n {
        return 0;
    }
    let mut it = raw.chars();
    let mut k: usize = 0;
    let mut total: usize = 0;
    while k < offset
        invariant
            k <= offset <= raw@.len(),
            it.remaining() == raw@.skip(k as int),
            total == saturate(utf16_units(raw@.take(k as int))),
        decreases offset - k,
    {
        proof {
            assert(raw@.take(k + 1).drop_last() =~= raw@.take(k as int));
        }
        let c = it.next();
        match c {
            Some(ch) => {
                proof {
                    assert(ch == raw@[k as int]);
                    assert(it.remaining() =~= raw@.skip(k + 1));
                }
                let w = char_utf16_len(ch);
                if total > usize::MAX - w {
                    total = usize::MAX;
                } else {
                    total = total + w;
                }
            },
            None => {
                return 0;
            },
        }
        k = k + 1;
    }
    total
}

} // verus!
