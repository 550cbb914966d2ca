//! Character sequences: the model that every contract of this crate speaks in,
//! and the searches that the other modules share.

use vstd::prelude::*;

verus! {

/// `needle` stands in `hay` at position `i`.
pub open spec fn occurs_at(hay: Seq<char>, needle: Seq<char>, i: int) -> bool {
    &&& 0 <= i
    &&& i + needle.len() <= hay.len()
    &&& hay.subrange(i, i + needle.len()) == needle
}

/// `needle` stands somewhere in `hay`.
pub open spec fn occurs(hay: Seq<char>, needle: Seq<char>) -> bool {
    exists|i: int| occurs_at(hay, needle, i)
}

/// `needle` stands in `hay` at `i` and nowhere before `i`.
pub open spec fn is_first_occurrence(hay: Seq<char>, needle: Seq<char>, i: int) -> bool {
    &&& occurs_at(hay, needle, i)
    &&& forall|j: int| 0 <= j < i ==> !occurs_at(hay, needle, j)
}

/// The leftmost position at which `needle` stands in `hay`, if it stands anywhere.
pub open spec fn first_occurrence(hay: Seq<char>, needle: Seq<char>) -> Option<int> {
    if occurs(hay, needle) {
        Some(choose|i: int| is_first_occurrence(hay, needle, i))
    } else {
        None
    }
}

/// The first position at or after `i` that holds `c`, or the length of `s`
/// where no such position is left.
pub open spec fn next_index(s: Seq<char>, c: char, i: int) -> int
    decreases s.len() - i,
{
    if i < 0 || i >= s.len() {
        s.len() as int
    } else if s[i] == c {
        i
    } else {
        next_index(s, c, i + 1)
    }
}

/// `s` holds no `c`.
pub open spec fn free_of(s: Seq<char>, c: char) -> bool {
    forall|i: int| 0 <= i < s.len() ==> s[i] != c
}

/// The pieces of `s` between its line feeds: one more than it has line feeds.
/// A carriage return before a line feed stays with its piece.
pub open spec fn lines_of(s: Seq<char>) -> Seq<Seq<char>>
    decreases s.len(),
{
    let cut = next_index(s, '\n', 0);
    if 0 <= cut < s.len() {
        seq![s.take(cut)] + lines_of(s.skip(cut + 1))
    } else {
        seq![s]
    }
}

/// What a list of character rows holds, row by row.
pub open spec fn rows(v: Seq<Vec<char>>) -> Seq<Seq<char>> {
    v.map_values(|r: Vec<char>| r@)
}

/// What a list of strings holds, string by string.
pub open spec fn texts(v: Seq<String>) -> Seq<Seq<char>> {
    v.map_values(|t: String| t@)
}

/// A leftmost occurrence is the one that `first_occurrence` names.
pub proof fn lemma_first_occurrence(hay: Seq<char>, needle: Seq<char>, i: int)
    requires
        is_first_occurrence(hay, needle, i),
    ensures
        first_occurrence(hay, needle) == Some(i),
{
    let j = choose|j: int| is_first_occurrence(hay, needle, j);
    assert(occurs_at(hay, needle, i));
    assert(is_first_occurrence(hay, needle, j));
    if j < i {
        assert(!occurs_at(hay, needle, j));
    }
    if i < j {
        assert(!occurs_at(hay, needle, i));
    }
}

/// Where `needle` stands at `w` and nowhere before `k`, which is no later
/// than `w`, it has a leftmost occurrence.
proof fn lemma_least_occurrence(hay: Seq<char>, needle: Seq<char>, w: int, k: int)
    requires
        0 <= k <= w,
        occurs_at(hay, needle, w),
        forall|j: int| 0 <= j < k ==> !occurs_at(hay, needle, j),
    ensures
        exists|i: int| is_first_occurrence(hay, needle, i),
    decreases w - k,
{
    if occurs_at(hay, needle, k) {
        assert(is_first_occurrence(hay, needle, k));
    } else {
        lemma_least_occurrence(hay, needle, w, k + 1);
    }
}

/// Where `first_occurrence` names a position, `needle` stands there and
/// nowhere before.
pub proof fn lemma_first_occurrence_is_first(hay: Seq<char>, needle: Seq<char>)
    requires
        first_occurrence(hay, needle) is Some,
    ensures
        is_first_occurrence(hay, needle, first_occurrence(hay, needle).unwrap()),
{
    let w = choose|w: int| occurs_at(hay, needle, w);
    lemma_least_occurrence(hay, needle, w, 0);
}

/// Where `needle` stands nowhere, `first_occurrence` names nothing.
pub proof fn lemma_no_occurrence(hay: Seq<char>, needle: Seq<char>)
    requires
        forall|j: int| 0 <= j ==> !occurs_at(hay, needle, j),
    ensures
        first_occurrence(hay, needle) is None,
{
}

/// What `next_index` returns: a position from `i` on that holds `c`, or the
/// length, with no `c` in between.
pub proof fn lemma_next_index(s: Seq<char>, c: char, i: int)
    requires
        0 <= i <= s.len(),
    ensures
        i <= next_index(s, c, i) <= s.len(),
        next_index(s, c, i) < s.len() ==> s[next_index(s, c, i)] == c,
        forall|j: int| i <= j < next_index(s, c, i) ==> s[j] != c,
    decreases s.len() - i,
{
    if i < s.len() && s[i] != c {
        lemma_next_index(s, c, i + 1);
    }
}

/// Searching a suffix is searching the whole from further on.
pub proof fn lemma_next_index_skip(s: Seq<char>, c: char, k: int, i: int)
    requires
        0 <= k,
        0 <= i,
        k + i <= s.len(),
    ensures
        next_index(s.skip(k), c, i) + k == next_index(s, c, k + i),
    decreases s.len() - k - i,
{
    if k + i < s.len() {
        if s[k + i] != c {
            lemma_next_index_skip(s, c, k, i + 1);
        }
    }
}

/// An occurrence, character by character.
pub proof fn lemma_occurs_at_chars(hay: Seq<char>, needle: Seq<char>, i: int)
    ensures
        occurs_at(hay, needle, i) <==> (0 <= i && i + needle.len() <= hay.len() && forall|k: int|
            0 <= k < needle.len() ==> hay[i + k] == needle[k]),
{
    if 0 <= i && i + needle.len() <= hay.len() {
        let part = hay.subrange(i, i + needle.len());
        if part == needle {
            assert forall|k: int| 0 <= k < needle.len() implies hay[i + k] == needle[k] by {
                assert(part[k] == hay[i + k]);
            }
        }
        if forall|k: int| 0 <= k < needle.len() ==> hay[i + k] == needle[k] {
            assert(part =~= needle);
        }
    }
}

/// An occurrence in a text is an occurrence in the text with something put
/// before it, further on by as much as was put before.
pub proof fn lemma_occurs_at_shift(before: Seq<char>, hay: Seq<char>, needle: Seq<char>, i: int)
    requires
        0 <= i,
    ensures
        occurs_at(hay, needle, i) <==> occurs_at(before + hay, needle, before.len() + i),
{
    if i + needle.len() <= hay.len() {
        assert((before + hay).subrange(before.len() + i, before.len() + i + needle.len())
            =~= hay.subrange(i, i + needle.len()));
    }
}

/// Every text has a first line.
pub proof fn lemma_lines_of_nonempty(s: Seq<char>)
    ensures
        lines_of(s).len() >= 1,
{
}

/// No line of a text holds a line feed.
pub proof fn lemma_lines_hold_no_line_feed(s: Seq<char>)
    ensures
        forall|i: int| 0 <= i < lines_of(s).len() ==> free_of(#[trigger] lines_of(s)[i], '\n'),
    decreases s.len(),
{
    lemma_next_index(s, '\n', 0);
    let cut = next_index(s, '\n', 0);
    if 0 <= cut < s.len() {
        lemma_lines_hold_no_line_feed(s.skip(cut + 1));
        let first = s.take(cut);
        let rest = lines_of(s.skip(cut + 1));
        assert(free_of(first, '\n'));
        assert forall|i: int| 0 <= i < lines_of(s).len() implies free_of(
            #[trigger] lines_of(s)[i],
            '\n',
        ) by {
            if i > 0 {
                assert(lines_of(s)[i] == rest[i - 1]);
            }
        }
    }
}

/// A text that holds no line feed is one line.
pub proof fn lemma_single_line(a: Seq<char>)
    requires
        forall|i: int| 0 <= i < a.len() ==> a[i] != '\n',
    ensures
        lines_of(a) == seq![a],
{
    lemma_next_index(a, '\n', 0);
}

/// Where `a` holds no line feed, the lines of `a`, a line feed and `rest` are
/// `a` and then the lines of `rest`.
pub proof fn lemma_first_line(a: Seq<char>, rest: Seq<char>)
    requires
        forall|i: int| 0 <= i < a.len() ==> a[i] != '\n',
    ensures
        lines_of(a + seq!['\n'] + rest) == seq![a] + lines_of(rest),
{
    let text = a + seq!['\n'] + rest;
    lemma_next_index(text, '\n', 0);
    let cut = next_index(text, '\n', 0);
    assert(text[a.len() as int] == '\n');
    assert forall|j: int| 0 <= j < a.len() implies text[j] != '\n' by {
        assert(text[j] == a[j]);
    }
    assert(cut == a.len());
    assert(text.take(cut) =~= a);
    assert(text.skip(cut + 1) =~= rest);
}

/// The characters of `s`, in order.
pub fn chars_of(s: &str) -> (out: Vec<char>)
    ensures
        out@ == s@,
{
    let mut out: Vec<char> = Vec::new();
    for c in it: s.chars()
        invariant
            it.seq() == s@,
            out@ == it.seq().take(it.index() as int),
    {
        out.push(c);
    }
    out
}

/// Tells whether `needle` stands in `hay` at position `i`.
pub fn matches_at(hay: &[char], needle: &[char], i: usize) -> (r: bool)
    ensures
        r == occurs_at(hay@, needle@, i as int),
        r ==> i + needle.len() <= hay.len() <= usize::MAX,
{
    if needle.len() > hay.len() || i > hay.len() - needle.len() {
        return false;
    }
    let mut k: usize = 0;
    while k < needle.len()
        invariant
            k <= needle.len(),
            i + needle.len() <= hay.len(),
            forall|j: int| 0 <= j < k ==> hay@[i + j] == needle@[j],
        decreases needle.len() - k,
    {
        if hay[i + k] != needle[k] {
            proof {
                let n = needle@.len() as int;
                assert(hay@.subrange(i as int, i + n)[k as int] == hay@[i + k]);
            }
            return false;
        }
        k += 1;
    }
    assert(hay@.subrange(i as int, i + needle@.len()) =~= needle@);
    true
}

/// The leftmost position at which `needle` stands in `hay`.
pub fn find(hay: &[char], needle: &[char]) -> (r: Option<usize>)
    ensures
        match r {
            Some(i) => {
                &&& first_occurrence(hay@, needle@) == Some(i as int)
                &&& is_first_occurrence(hay@, needle@, i as int)
                &&& i + needle.len() <= hay.len()
            },
            None => first_occurrence(hay@, needle@) is None,
        },
{
    let mut i: usize = 0;
    loop
        invariant
            i <= hay.len(),
            forall|j: int| 0 <= j < i ==> !occurs_at(hay@, needle@, j),
        decreases hay.len() - i,
    {
        if matches_at(hay, needle, i) {
            proof {
                lemma_first_occurrence(hay@, needle@, i as int);
            }
            return Some(i);
        }
        if i == hay.len() {
            proof {
                lemma_no_occurrence(hay@, needle@);
            }
            return None;
        }
        i += 1;
    }
}

/// The first position at or after `i` that holds `c`, or the length of `s`.
pub fn find_char(s: &[char], c: char, i: usize) -> (r: usize)
    requires
        i <= s.len(),
    ensures
        r == next_index(s@, c, i as int),
{
    let mut j: usize = i;
    while j < s.len() && s[j] != c
        invariant
            i <= j <= s.len(),
            next_index(s@, c, i as int) == next_index(s@, c, j as int),
        decreases s.len() - j,
    {
        j += 1;
    }
    j
}

/// `String::push`: the string afterwards is the string before with `c` as one
/// more character at its end.
pub assume_specification[ String::push ](s: &mut String, c: char)
    ensures
        final(s)@ == old(s)@.push(c),
;

/// The string that holds the characters of `chars`, in order.
pub fn string_of(chars: &[char]) -> (out: String)
    ensures
        out@ == chars@,
{
    let mut out = String::new();
    let mut i: usize = 0;
    while i < chars.len()
        invariant
            i <= chars.len(),
            out@ == chars@.take(i as int),
        decreases chars.len() - i,
    {
        out.push(chars[i]);
        i += 1;
        assert(chars@.take(i as int) =~= chars@.take(i - 1).push(chars@[i - 1]));
    }
    assert(chars@.take(i as int) =~= chars@);
    out
}

/// Appends the characters of `s` from position `from` up to `to` to `out`.
pub fn append_range(out: &mut Vec<char>, s: &[char], from: usize, to: usize)
    requires
        from <= to <= s.len(),
    ensures
        final(out)@ == old(out)@ + s@.subrange(from as int, to as int),
{
    let mut i: usize = from;
    while i < to
        invariant
            from <= i <= to <= s.len(),
            out@ == old(out)@ + s@.subrange(from as int, i as int),
        decreases to - i,
    {
        out.push(s[i]);
        i += 1;
        assert(s@.subrange(from as int, i as int) =~= s@.subrange(from as int, i - 1).push(
            s@[i - 1],
        ));
        assert(out@ =~= old(out)@ + s@.subrange(from as int, i as int));
    }
}

/// The lines of `s`: its pieces between line feeds, in order.
pub fn split_lines(s: &[char]) -> (out: Vec<Vec<char>>)
    ensures
        rows(out@) == lines_of(s@),
{
    let mut out: Vec<Vec<char>> = Vec::new();
    let mut start: usize = 0;
    assert(s@.skip(0) =~= s@);
    assert(rows(out@) + lines_of(s@) =~= lines_of(s@));
    loop
        invariant
            start <= s.len(),
            rows(out@) + lines_of(s@.skip(start as int)) == lines_of(s@),
        decreases s.len() - start,
    {
        let ghost rest = s@.skip(start as int);
        let ghost before = out@;
        let cut = find_char(s, '\n', start);
        proof {
            lemma_next_index_skip(s@, '\n', start as int, 0);
            lemma_next_index(s@, '\n', start as int);
        }
        let mut line: Vec<char> = Vec::new();
        append_range(&mut line, s, start, cut);
        out.push(line);
        assert(rows(out@) =~= rows(before).push(line@));
        if cut >= s.len() {
            assert(line@ =~= rest);
            assert(rows(before).push(rest) =~= rows(before) + seq![rest]);
            return out;
        }
        assert(line@ =~= rest.take(cut - start));
        assert(rest.skip(cut - start + 1) =~= s@.skip(cut + 1));
        assert(rows(before).push(line@) + lines_of(s@.skip(cut + 1)) =~= rows(before) + (seq![
            line@,
        ] + lines_of(s@.skip(cut + 1))));
        start = cut + 1;
    }
}

/// The part of `s` from position `from` up to `to`.
pub fn slice_of(s: &[char], from: usize, to: usize) -> (part: &[char])
    requires
        from <= to <= s.len(),
    ensures
        part@ == s@.subrange(from as int, to as int),
{
    &s[from..to]
}

} // verus!
