//! Cleaning a captured span: tags are taken out, then leading white space.

use vstd::prelude::*;
use crate::text::{
    append_range, chars_of, find_char, free_of, lemma_next_index, lemma_next_index_skip,
    next_index, string_of,
};

verus! {

/// Whether `c` is white space in the sense of `char::is_whitespace`.
pub uninterp spec fn is_whitespace(c: char) -> bool;

/// `char::is_whitespace`: the result is the standard library's verdict on
/// `c`, which depends on `c` alone.
#[verifier::external_body]
pub(crate) fn char_is_whitespace(c: char) -> (r: bool)
    ensures
        r == is_whitespace(c),
{
    c.is_whitespace()
}

/// `s` without its tags. A tag runs from a `<` to the nearest `>` after it;
/// a `<` with no `>` after it opens no tag, and neither does anything behind it.
pub open spec fn tags_stripped(s: Seq<char>) -> Seq<char>
    decreases s.len(),
{
    if s.len() == 0 {
        s
    } else if s[0] == '<' {
        let close = next_index(s, '>', 1);
        if 1 <= close < s.len() {
            tags_stripped(s.skip(close + 1))
        } else {
            s
        }
    } else {
        seq![s[0]] + tags_stripped(s.skip(1))
    }
}

/// `s` without the white space at its start.
pub open spec fn start_trimmed(s: Seq<char>) -> Seq<char>
    decreases s.len(),
{
    if s.len() > 0 && is_whitespace(s[0]) {
        start_trimmed(s.skip(1))
    } else {
        s
    }
}

/// A captured span as it is shown: tags out first, then leading white space.
pub open spec fn cleaned(s: Seq<char>) -> Seq<char> {
    start_trimmed(tags_stripped(s))
}

/// Taking tags out never adds a character.
pub proof fn lemma_tags_stripped_len(s: Seq<char>)
    ensures
        tags_stripped(s).len() <= s.len(),
    decreases s.len(),
{
    if s.len() > 0 {
        if s[0] == '<' {
            let close = next_index(s, '>', 1);
            if 1 <= close < s.len() {
                lemma_tags_stripped_len(s.skip(close + 1));
            }
        } else {
            lemma_tags_stripped_len(s.skip(1));
        }
    }
}

/// A text that holds no `>` holds no tag.
proof fn lemma_no_close_no_tags(s: Seq<char>)
    requires
        forall|i: int| 0 <= i < s.len() ==> s[i] != '>',
    ensures
        tags_stripped(s) == s,
    decreases s.len(),
{
    if s.len() > 0 {
        if s[0] == '<' {
            lemma_next_index(s, '>', 1);
        } else {
            lemma_no_close_no_tags(s.skip(1));
            assert(seq![s[0]] + s.skip(1) =~= s);
        }
    }
}

/// Every suffix of a text without tags is without tags.
proof fn lemma_suffix_without_tags(s: Seq<char>, k: int)
    requires
        tags_stripped(s) == s,
        0 <= k <= s.len(),
    ensures
        tags_stripped(s.skip(k)) == s.skip(k),
    decreases k,
{
    if k == 0 {
        assert(s.skip(0) =~= s);
    } else if s[0] == '<' {
        let close = next_index(s, '>', 1);
        lemma_next_index(s, '>', 1);
        if 1 <= close < s.len() {
            lemma_tags_stripped_len(s.skip(close + 1));
        } else {
            lemma_no_close_no_tags(s.skip(k));
        }
    } else {
        let rest = tags_stripped(s.skip(1));
        assert(rest =~= (seq![s[0]] + rest).skip(1));
        assert(rest == s.skip(1));
        lemma_suffix_without_tags(s.skip(1), k - 1);
        assert(s.skip(1).skip(k - 1) =~= s.skip(k));
    }
}

/// What is left after trimming is a suffix of the text.
proof fn lemma_start_trimmed_suffix(s: Seq<char>) -> (k: int)
    ensures
        0 <= k <= s.len(),
        start_trimmed(s) == s.skip(k),
    decreases s.len(),
{
    if s.len() > 0 && is_whitespace(s[0]) {
        let k = lemma_start_trimmed_suffix(s.skip(1));
        assert(s.skip(1).skip(k) =~= s.skip(k + 1));
        k + 1
    } else {
        assert(s.skip(0) =~= s);
        0
    }
}

/// Taking tags out brings in no character that was not there.
pub proof fn lemma_tags_stripped_free_of(s: Seq<char>, c: char)
    requires
        free_of(s, c),
    ensures
        free_of(tags_stripped(s), c),
    decreases s.len(),
{
    if s.len() > 0 {
        if s[0] == '<' {
            let close = next_index(s, '>', 1);
            if 1 <= close < s.len() {
                let rest = s.skip(close + 1);
                assert(free_of(rest, c)) by {
                    assert forall|i: int| 0 <= i < rest.len() implies rest[i] != c by {
                        assert(rest[i] == s[i + close + 1]);
                    }
                }
                lemma_tags_stripped_free_of(rest, c);
            }
        } else {
            let rest = s.skip(1);
            assert(free_of(rest, c)) by {
                assert forall|i: int| 0 <= i < rest.len() implies rest[i] != c by {
                    assert(rest[i] == s[i + 1]);
                }
            }
            lemma_tags_stripped_free_of(rest, c);
        }
    }
}

/// Cleaning brings in no character that was not there.
pub proof fn lemma_cleaned_free_of(s: Seq<char>, c: char)
    requires
        free_of(s, c),
    ensures
        free_of(cleaned(s), c),
{
    lemma_tags_stripped_free_of(s, c);
    let k = lemma_start_trimmed_suffix(tags_stripped(s));
}

/// Taking the tags out of a text that has none left changes nothing.
pub proof fn lemma_tags_stripped_idempotent(s: Seq<char>)
    ensures
        tags_stripped(tags_stripped(s)) == tags_stripped(s),
    decreases s.len(),
{
    if s.len() > 0 {
        if s[0] == '<' {
            let close = next_index(s, '>', 1);
            if 1 <= close < s.len() {
                lemma_tags_stripped_idempotent(s.skip(close + 1));
            }
        } else {
            let rest = tags_stripped(s.skip(1));
            lemma_tags_stripped_idempotent(s.skip(1));
            assert((seq![s[0]] + rest).skip(1) =~= rest);
        }
    }
}

/// Trimming a trimmed text changes nothing.
pub proof fn lemma_start_trimmed_idempotent(s: Seq<char>)
    ensures
        start_trimmed(start_trimmed(s)) == start_trimmed(s),
    decreases s.len(),
{
    if s.len() > 0 && is_whitespace(s[0]) {
        lemma_start_trimmed_idempotent(s.skip(1));
    }
}

/// Cleaning is idempotent: a cleaned span, cleaned again, stays as it is.
pub proof fn lemma_cleaned_idempotent(s: Seq<char>)
    ensures
        cleaned(cleaned(s)) == cleaned(s),
{
    let bare = tags_stripped(s);
    lemma_tags_stripped_idempotent(s);
    let k = lemma_start_trimmed_suffix(bare);
    lemma_suffix_without_tags(bare, k);
    lemma_start_trimmed_idempotent(bare);
}

/// The characters of `s` without its tags.
pub fn strip_tags_chars(s: &[char]) -> (out: Vec<char>)
    ensures
        out@ == tags_stripped(s@),
{
    let mut out: Vec<char> = Vec::new();
    let mut i: usize = 0;
    assert(s@.skip(0) =~= s@);
    assert(out@ + tags_stripped(s@) =~= tags_stripped(s@));
    while i < s.len()
        invariant
            i <= s.len(),
            out@ + tags_stripped(s@.skip(i as int)) == tags_stripped(s@),
        decreases s.len() - i,
    {
        let ghost rest = s@.skip(i as int);
        if s[i] == '<' {
            let close = find_char(s, '>', i + 1);
            proof {
                lemma_next_index_skip(s@, '>', i as int, 1);
                lemma_next_index(s@, '>', i + 1);
            }
            if close < s.len() {
                assert(rest.skip(close - i + 1) =~= s@.skip(close + 1));
                i = close + 1;
            } else {
                append_range(&mut out, s, i, s.len());
                assert(s@.subrange(i as int, s.len() as int) =~= rest);
                i = s.len();
                assert(s@.skip(i as int) =~= Seq::<char>::empty());
                assert(out@ + tags_stripped(s@.skip(i as int)) =~= out@);
            }
        } else {
            let ghost before = out@;
            out.push(s[i]);
            assert(rest.skip(1) =~= s@.skip(i + 1));
            assert(before.push(s@[i as int]) + tags_stripped(s@.skip(i + 1)) =~= before + (
            seq![s@[i as int]] + tags_stripped(s@.skip(i + 1))));
            i += 1;
        }
    }
    assert(s@.skip(i as int) =~= Seq::<char>::empty());
    assert(out@ + Seq::<char>::empty() =~= out@);
    out
}

/// The characters of `s` without the white space at its start.
pub fn trim_start_chars(s: &[char]) -> (out: Vec<char>)
    ensures
        out@ == start_trimmed(s@),
{
    let mut i: usize = 0;
    assert(s@.skip(0) =~= s@);
    while i < s.len() && char_is_whitespace(s[i])
        invariant
            i <= s.len(),
            start_trimmed(s@.skip(i as int)) == start_trimmed(s@),
        decreases s.len() - i,
    {
        assert(s@.skip(i as int).skip(1) =~= s@.skip(i + 1));
        i += 1;
    }
    let mut out: Vec<char> = Vec::new();
    append_range(&mut out, s, i, s.len());
    assert(s@.subrange(i as int, s.len() as int) =~= s@.skip(i as int));
    assert(out@ =~= s@.skip(i as int));
    out
}

/// The characters of a captured span as they are shown.
pub fn clean_chars(s: &[char]) -> (out: Vec<char>)
    ensures
        out@ == cleaned(s@),
{
    let bare = strip_tags_chars(s);
    trim_start_chars(bare.as_slice())
}

/// `s` without its tags.
pub fn strip_tags(s: &str) -> (out: String)
    ensures
        out@ == tags_stripped(s@),
{
    let chars = chars_of(s);
    let bare = strip_tags_chars(chars.as_slice());
    string_of(bare.as_slice())
}

/// `s` without the white space at its start.
pub fn trim_start(s: &str) -> (out: String)
    ensures
        out@ == start_trimmed(s@),
{
    let chars = chars_of(s);
    let trimmed = trim_start_chars(chars.as_slice());
    string_of(trimmed.as_slice())
}

/// A captured span as it is shown: tags out first, then leading white space.
pub fn clean(s: &str) -> (out: String)
    ensures
        out@ == cleaned(s@),
{
    let chars = chars_of(s);
    let shown = clean_chars(chars.as_slice());
    string_of(shown.as_slice())
}

} // verus!
