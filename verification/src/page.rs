//! The two line shapes of a fetched page: a topic row, which ends in a link
//! to the story's page, and a story row, which ends where its span closes
//! the line.
//!
//! A line here is a piece of the page between two line feeds, so it holds no
//! line feed itself.

use vstd::prelude::*;
use crate::cache::TitleSet;
use crate::markup::{clean_chars, cleaned, lemma_cleaned_free_of};
use crate::number::all_digits;
use crate::text::{
    append_range, chars_of, find, first_occurrence, free_of, is_first_occurrence,
    lemma_first_occurrence, lemma_first_occurrence_is_first, matches_at, occurs_at, slice_of,
    string_of,
};

verus! {

/// The text that opens a content span.
pub const MARKER: &'static str = "<span class=\"W\">";

/// The text that opens a link, up to the page reference.
pub const LINK_OPEN: &'static str = "<a href=\"";

/// What follows the page reference and one more character in a link.
pub const LINK_MIDDLE: &'static str = "html\">";

/// The text that closes a link and the span around it.
pub const LINK_CLOSE: &'static str = "</a></span>";

/// The text that closes a span.
pub const SPAN_CLOSE: &'static str = "</span>";

/// The characters of `MARKER`.
pub open spec fn marker() -> Seq<char> {
    MARKER@
}

/// The characters of `LINK_OPEN`.
pub open spec fn link_open() -> Seq<char> {
    LINK_OPEN@
}

/// The characters of `LINK_MIDDLE`.
pub open spec fn link_middle() -> Seq<char> {
    LINK_MIDDLE@
}

/// The characters of `LINK_CLOSE`.
pub open spec fn link_close() -> Seq<char> {
    LINK_CLOSE@
}

/// The characters of `SPAN_CLOSE`.
pub open spec fn span_close() -> Seq<char> {
    SPAN_CLOSE@
}

/// `c` is one of the ten decimal digits.
pub open spec fn is_digit(c: char) -> bool {
    '0' <= c && c <= '9'
}

/// How many digits stand in `s` from position `i` on without a break.
pub open spec fn digit_run(s: Seq<char>, i: int) -> nat
    decreases s.len() - i,
{
    if 0 <= i < s.len() && is_digit(s[i]) {
        1 + digit_run(s, i + 1)
    } else {
        0
    }
}

/// The rest of a link stands at `d`, where its page reference has ended: any
/// one character, `html">`, the page number as it is shown, which is one
/// digit or more, and the closing of link and span.
pub open spec fn link_tail_at(line: Seq<char>, d: int) -> bool {
    let shown = d + 1 + link_middle().len();
    &&& 0 <= d < line.len()
    &&& occurs_at(line, link_middle(), d + 1)
    &&& digit_run(line, shown) >= 1
    &&& occurs_at(line, link_close(), shown + digit_run(line, shown))
}

/// A link stands at `e` whose page reference has `k` digits.
pub open spec fn link_at(line: Seq<char>, e: int, k: int) -> bool {
    let reference = e + link_open().len();
    &&& occurs_at(line, link_open(), e)
    &&& 1 <= k <= digit_run(line, reference)
    &&& link_tail_at(line, reference + k)
}

/// A link stands at `e`.
pub open spec fn has_link(line: Seq<char>, e: int) -> bool {
    exists|k: int| link_at(line, e, k)
}

/// A link stands at `e`, which is `from` or later, and none stands between
/// `from` and `e`.
pub open spec fn is_first_link(line: Seq<char>, from: int, e: int) -> bool {
    &&& from <= e
    &&& has_link(line, e)
    &&& forall|f: int| from <= f < e ==> !has_link(line, f)
}

/// Where the link at `e` ends whose page reference has `k` digits.
pub open spec fn link_end(line: Seq<char>, e: int, k: int) -> int {
    let shown = e + link_open().len() + k + 1 + link_middle().len();
    shown + digit_run(line, shown) + link_close().len()
}

/// One row of a topic listing.
#[derive(Debug, Clone)]
pub struct Topic {
    /// The headline, cleaned.
    pub title: String,
    /// The page on which the story stands, as the digits of the link.
    pub index: String,
    /// Whether the title was absent from the titles known before.
    pub is_new: bool,
}

/// What a `Topic` holds.
pub struct TopicModel {
    pub title: Seq<char>,
    pub index: Seq<char>,
    pub is_new: bool,
}

impl View for Topic {
    type V = TopicModel;

    open spec fn view(&self) -> TopicModel {
        TopicModel { title: self.title@, index: self.index@, is_new: self.is_new }
    }
}

/// What a list of topics holds, topic by topic.
pub open spec fn topic_models(topics: Seq<Topic>) -> Seq<TopicModel> {
    topics.map_values(|t: Topic| t@)
}

/// A topic row as it stands in a line: its title, its page reference, and
/// the place where the row ends.
pub struct RowModel {
    pub title: Seq<char>,
    pub index: Seq<char>,
    pub end: int,
}

/// The first topic row of a line, or nothing where the line holds none. The
/// row's title span starts behind the first marker of the line and ends
/// before the first link behind it; the title is that span, cleaned. The row
/// ends where that link ends.
pub open spec fn first_row(line: Seq<char>) -> Option<RowModel> {
    match first_occurrence(line, marker()) {
        None => None,
        Some(p) => {
            let from = p + marker().len();
            if exists|e: int| is_first_link(line, from, e) {
                let e = choose|e: int| is_first_link(line, from, e);
                let k = choose|k: int| link_at(line, e, k);
                let reference = e + link_open().len();
                Some(
                    RowModel {
                        title: cleaned(line.subrange(from, e)),
                        index: line.subrange(reference, reference + k),
                        end: link_end(line, e, k),
                    },
                )
            } else {
                None
            }
        },
    }
}

/// The topics of a line, from left to right: its first topic row, and then
/// the topics of what follows that row. A row has an end in its line and is
/// never empty, so what follows is shorter. A topic is new where its title
/// is not among the `known` ones.
pub open spec fn topics_of_line(line: Seq<char>, known: Set<Seq<char>>) -> Seq<TopicModel>
    decreases line.len(),
{
    match first_row(line) {
        None => Seq::empty(),
        Some(row) => {
            if 0 < row.end <= line.len() {
                seq![
                    TopicModel {
                        title: row.title,
                        index: row.index,
                        is_new: !known.contains(row.title),
                    },
                ] + topics_of_line(line.skip(row.end), known)
            } else {
                Seq::empty()
            }
        },
    }
}

/// The text of a story row, or nothing where the line is no story row. The
/// text span starts behind the first marker and ends where the line's last
/// characters close a span; the text is that span, cleaned.
pub open spec fn story_of_line(line: Seq<char>) -> Option<Seq<char>> {
    match first_occurrence(line, marker()) {
        None => None,
        Some(p) => {
            let from = p + marker().len();
            let end = line.len() - span_close().len();
            if from <= end && occurs_at(line, span_close(), end) {
                Some(cleaned(line.subrange(from, end)))
            } else {
                None
            }
        },
    }
}

/// A run of digits is made of digits, fits in the text, and ends at the
/// text's end or before a character that is no digit.
pub proof fn lemma_digit_run(s: Seq<char>, i: int)
    requires
        0 <= i <= s.len(),
    ensures
        i + digit_run(s, i) <= s.len(),
        forall|j: int| i <= j < i + digit_run(s, i) ==> is_digit(s[j]),
        i + digit_run(s, i) < s.len() ==> !is_digit(s[i + digit_run(s, i)]),
    decreases s.len() - i,
{
    if i < s.len() && is_digit(s[i]) {
        lemma_digit_run(s, i + 1);
    }
}

/// A link at one place has one page reference: its length is determined.
pub proof fn lemma_link_unique(line: Seq<char>, e: int, k1: int, k2: int)
    requires
        link_at(line, e, k1),
        link_at(line, e, k2),
    ensures
        k1 == k2,
{
    reveal_strlit("<a href=\"");
    reveal_strlit("html\">");
    let reference = e + link_open().len();
    lemma_digit_run(line, reference);
    let lo = if k1 < k2 { k1 } else { k2 };
    let hi = if k1 < k2 { k2 } else { k1 };
    if lo < hi {
        // behind the shorter reference stand one character and then an `h`
        let m = link_middle();
        assert(line.subrange(reference + lo + 1, reference + lo + 1 + m.len())[0] == m[0]);
        assert(line[reference + lo + 1] == 'h');
        if lo + 1 < hi {
            assert(is_digit(line[reference + lo + 1]));
        } else {
            assert(line.subrange(reference + lo + 1, reference + lo + 1 + m.len())[1] == m[1]);
            assert(line.subrange(reference + hi + 1, reference + hi + 1 + m.len())[0] == m[0]);
        }
    }
}

/// Where the first marker of a line stands at `p`, the first link behind it
/// at `e`, and that link's page reference has `k` digits, this is the first
/// topic row of the line, and it ends in the line and behind its start.
pub proof fn lemma_first_row_found(line: Seq<char>, p: int, e: int, k: int)
    requires
        is_first_occurrence(line, marker(), p),
        is_first_link(line, p + marker().len(), e),
        link_at(line, e, k),
    ensures
        first_row(line) == Some(
            RowModel {
                title: cleaned(line.subrange(p + marker().len(), e)),
                index: line.subrange(e + link_open().len(), e + link_open().len() + k),
                end: link_end(line, e, k),
            },
        ),
        0 < link_end(line, e, k) <= line.len(),
{
    reveal_strlit("</a></span>");
    lemma_first_occurrence(line, marker(), p);
    // the span's start, as the row's definition names it
    let from = first_occurrence(line, marker()).unwrap() + marker().len();
    assert(is_first_link(line, from, e));
    let e2 = choose|e2: int| is_first_link(line, from, e2);
    if e2 < e {
        assert(!has_link(line, e2));
    }
    if e < e2 {
        assert(!has_link(line, e));
    }
    let k2 = choose|k2: int| link_at(line, e, k2);
    lemma_link_unique(line, e, k, k2);
}

/// The first topic row of a line ends in the line and behind its start, its
/// page reference is made of digits, at least one, and its title holds no
/// character that the line does not hold.
pub proof fn lemma_first_row(line: Seq<char>, c: char)
    requires
        first_row(line) is Some,
    ensures
        0 < first_row(line).unwrap().end <= line.len(),
        first_row(line).unwrap().index.len() >= 1,
        all_digits(first_row(line).unwrap().index),
        free_of(line, c) ==> free_of(first_row(line).unwrap().title, c),
{
    reveal_strlit("</a></span>");
    lemma_first_occurrence_is_first(line, marker());
    let from = first_occurrence(line, marker()).unwrap() + marker().len();
    let e = choose|e: int| is_first_link(line, from, e);
    let k = choose|k: int| link_at(line, e, k);
    assert(link_at(line, e, k));
    let reference = e + link_open().len();
    lemma_digit_run(line, reference);
    let index = line.subrange(reference, reference + k);
    assert forall|i: int| 0 <= i < index.len() implies is_digit(index[i]) by {
        assert(index[i] == line[reference + i]);
    }
    let span = line.subrange(from, e);
    if free_of(line, c) {
        assert(free_of(span, c)) by {
            assert forall|i: int| 0 <= i < span.len() implies span[i] != c by {
                assert(span[i] == line[from + i]);
            }
        }
        lemma_cleaned_free_of(span, c);
    }
}

/// Of every topic of a line: it is marked new exactly where its title is not
/// among the known ones, its page reference is made of digits, at least one,
/// and its title holds no character that the line does not hold.
pub proof fn lemma_topics_of_line(line: Seq<char>, known: Set<Seq<char>>, c: char)
    ensures
        forall|i: int|
            0 <= i < topics_of_line(line, known).len() ==> {
                let topic = #[trigger] topics_of_line(line, known)[i];
                &&& topic.is_new == !known.contains(topic.title)
                &&& topic.index.len() >= 1
                &&& all_digits(topic.index)
                &&& free_of(line, c) ==> free_of(topic.title, c)
            },
    decreases line.len(),
{
    if first_row(line) is Some {
        lemma_first_row(line, c);
        let row = first_row(line).unwrap();
        let rest = line.skip(row.end);
        lemma_topics_of_line(rest, known, c);
        if free_of(line, c) {
            assert(free_of(rest, c)) by {
                assert forall|i: int| 0 <= i < rest.len() implies rest[i] != c by {
                    assert(rest[i] == line[i + row.end]);
                }
            }
        }
        let all = topics_of_line(line, known);
        let after = topics_of_line(rest, known);
        assert forall|i: int| 0 <= i < all.len() implies {
            let topic = #[trigger] all[i];
            &&& topic.is_new == !known.contains(topic.title)
            &&& topic.index.len() >= 1
            &&& all_digits(topic.index)
            &&& free_of(line, c) ==> free_of(topic.title, c)
        } by {
            if i > 0 {
                assert(all[i] == after[i - 1]);
            }
        }
    }
}

/// Which titles and pages a line shows does not depend on the titles known.
pub proof fn lemma_topics_of_line_whatever_known(
    line: Seq<char>,
    one: Set<Seq<char>>,
    other: Set<Seq<char>>,
)
    ensures
        topics_of_line(line, one).len() == topics_of_line(line, other).len(),
        forall|i: int|
            0 <= i < topics_of_line(line, one).len() ==> (#[trigger] topics_of_line(line, one)[i]).title
                == topics_of_line(line, other)[i].title && topics_of_line(line, one)[i].index
                == topics_of_line(line, other)[i].index,
    decreases line.len(),
{
    if first_row(line) is Some {
        lemma_first_row(line, ' ');
        let row = first_row(line).unwrap();
        let rest = line.skip(row.end);
        lemma_topics_of_line_whatever_known(rest, one, other);
        let a = topics_of_line(line, one);
        let b = topics_of_line(line, other);
        assert forall|i: int| 0 <= i < a.len() implies (#[trigger] a[i]).title == b[i].title
            && a[i].index == b[i].index by {
            if i > 0 {
                assert(a[i] == topics_of_line(rest, one)[i - 1]);
                assert(b[i] == topics_of_line(rest, other)[i - 1]);
            }
        }
    }
}

/// How many digits stand in `s` from position `i` on without a break.
pub fn count_digits(s: &[char], i: usize) -> (n: usize)
    requires
        i <= s.len(),
    ensures
        n == digit_run(s@, i as int),
        i + n <= s.len(),
{
    let mut j: usize = i;
    while j < s.len() && '0' <= s[j] && s[j] <= '9'
        invariant
            i <= j <= s.len(),
            digit_run(s@, i as int) == (j - i) + digit_run(s@, j as int),
        decreases s.len() - j,
    {
        j += 1;
    }
    j - i
}

/// Tells whether the rest of a link stands at `d`.
pub fn link_tail(line: &[char], d: usize) -> (r: bool)
    ensures
        r == link_tail_at(line@, d as int),
{
    let middle = chars_of(LINK_MIDDLE);
    let close = chars_of(LINK_CLOSE);
    if d >= line.len() {
        return false;
    }
    if !matches_at(line, middle.as_slice(), d + 1) {
        return false;
    }
    let shown = d + 1 + middle.len();
    let n = count_digits(line, shown);
    n >= 1 && matches_at(line, close.as_slice(), shown + n)
}

/// The length of the page reference of the link at `e`, if a link stands there.
pub fn link_reference(line: &[char], e: usize) -> (r: Option<usize>)
    ensures
        match r {
            Some(k) => link_at(line@, e as int, k as int),
            None => !has_link(line@, e as int),
        },
{
    let open = chars_of(LINK_OPEN);
    if !matches_at(line, open.as_slice(), e) {
        return None;
    }
    let reference = e + open.len();
    let n = count_digits(line, reference);
    if n >= 1 && link_tail(line, reference + n) {
        return Some(n);
    }
    if n >= 2 && link_tail(line, reference + n - 1) {
        return Some(n - 1);
    }
    proof {
        reveal_strlit("html\">");
        lemma_digit_run(line@, reference as int);
        assert forall|k: int| !link_at(line@, e as int, k) by {
            if link_at(line@, e as int, k) {
                // a shorter reference would have a digit where the `h` must be
                let m = link_middle();
                let at = reference + k + 1;
                assert(line@.subrange(at, at + m.len())[0] == m[0]);
                assert(is_digit(line@[at]));
            }
        }
    }
    None
}

/// The place of the first link of the line that stands at `from` or later,
/// with the length of its page reference.
pub fn first_link(line: &[char], from: usize) -> (r: Option<(usize, usize)>)
    requires
        from <= line.len(),
    ensures
        match r {
            Some((e, k)) => is_first_link(line@, from as int, e as int) && link_at(
                line@,
                e as int,
                k as int,
            ),
            None => forall|e: int| !is_first_link(line@, from as int, e),
        },
{
    let mut e: usize = from;
    while e < line.len()
        invariant
            from <= e <= line.len(),
            forall|f: int| from <= f < e ==> !has_link(line@, f),
        decreases line.len() - e,
    {
        match link_reference(line, e) {
            Some(k) => {
                return Some((e, k));
            },
            None => {},
        }
        e += 1;
    }
    proof {
        reveal_strlit("<a href=\"");
        assert forall|f: int| from <= f implies !has_link(line@, f) by {
            if f >= line.len() && has_link(line@, f) {
                let k = choose|k: int| link_at(line@, f, k);
                assert(occurs_at(line@, link_open(), f));
            }
        }
    }
    None
}

/// Tells whether the line holds the marker of a content span.
pub fn contains_marker_chars(line: &[char]) -> (r: bool)
    ensures
        r == first_occurrence(line@, marker()).is_some(),
{
    let mark = chars_of(MARKER);
    find(line, mark.as_slice()).is_some()
}

/// The first topic row of a line: its title, its page reference, and the
/// place where the row ends.
pub fn parse_first_row(line: &[char]) -> (r: Option<(Vec<char>, Vec<char>, usize)>)
    ensures
        match r {
            Some(row) => {
                &&& first_row(line@) == Some(
                    RowModel { title: row.0@, index: row.1@, end: row.2 as int },
                )
                &&& 0 < row.2 <= line.len()
            },
            None => first_row(line@) is None,
        },
{
    let mark = chars_of(MARKER);
    let open = chars_of(LINK_OPEN);
    let middle = chars_of(LINK_MIDDLE);
    let close = chars_of(LINK_CLOSE);
    let p = match find(line, mark.as_slice()) {
        Some(p) => p,
        None => {
            return None;
        },
    };
    let from = p + mark.len();
    match first_link(line, from) {
        None => None,
        Some((e, k)) => {
            proof {
                lemma_first_row_found(line@, p as int, e as int, k as int);
            }
            let title = clean_chars(slice_of(line, from, e));
            let reference = e + open.len();
            let mut index: Vec<char> = Vec::new();
            append_range(&mut index, line, reference, reference + k);
            let shown = reference + k + 1 + middle.len();
            let end = shown + count_digits(line, shown) + close.len();
            Some((title, index, end))
        },
    }
}

/// The topics of a line, from left to right, each marked new or not against
/// the titles `known` before.
pub fn parse_topics_chars(line: &[char], known: &TitleSet) -> (topics: Vec<Topic>)
    ensures
        topic_models(topics@) == topics_of_line(line@, known@),
{
    let mut topics: Vec<Topic> = Vec::new();
    let mut start: usize = 0;
    assert(line@.skip(0) =~= line@);
    assert(topic_models(topics@) + topics_of_line(line@, known@) =~= topics_of_line(
        line@,
        known@,
    ));
    loop
        invariant
            start <= line.len(),
            topic_models(topics@) + topics_of_line(line@.skip(start as int), known@)
                == topics_of_line(line@, known@),
        decreases line.len() - start,
    {
        let rest = slice_of(line, start, line.len());
        assert(rest@ =~= line@.skip(start as int));
        match parse_first_row(rest) {
            None => {
                assert(topic_models(topics@) + Seq::<TopicModel>::empty() =~= topic_models(
                    topics@,
                ));
                return topics;
            },
            Some((title, index, end)) => {
                let ghost before = topics@;
                let ghost after = topics_of_line(rest@.skip(end as int), known@);
                let title = string_of(title.as_slice());
                let index = string_of(index.as_slice());
                let is_new = !known.contains(&title);
                let topic = Topic { title, index, is_new };
                topics.push(topic);
                assert(rest@.skip(end as int) =~= line@.skip(start + end));
                assert(topic_models(topics@) =~= topic_models(before).push(topic@));
                assert(topic_models(before).push(topic@) + after =~= topic_models(before) + (
                seq![topic@] + after));
                start = start + end;
            },
        }
    }
}

/// The text of a story row.
pub fn parse_story_chars(line: &[char]) -> (r: Option<Vec<char>>)
    ensures
        match r {
            Some(text) => story_of_line(line@) == Some(text@),
            None => story_of_line(line@) is None,
        },
{
    let mark = chars_of(MARKER);
    let close = chars_of(SPAN_CLOSE);
    let p = match find(line, mark.as_slice()) {
        Some(p) => p,
        None => {
            return None;
        },
    };
    let from = p + mark.len();
    if line.len() < close.len() || from > line.len() - close.len() {
        return None;
    }
    let end = line.len() - close.len();
    if !matches_at(line, close.as_slice(), end) {
        return None;
    }
    Some(clean_chars(slice_of(line, from, end)))
}

/// Tells whether the line holds the marker of a content span.
pub fn contains_marker(line: &str) -> (r: bool)
    ensures
        r == first_occurrence(line@, marker()).is_some(),
{
    let chars = chars_of(line);
    contains_marker_chars(chars.as_slice())
}

/// The topics of a line, from left to right, each marked new or not against
/// the titles `known` before. A line that holds no topic row gives none.
pub fn parse_topic_line(line: &str, known: &TitleSet) -> (topics: Vec<Topic>)
    ensures
        topic_models(topics@) == topics_of_line(line@, known@),
{
    let chars = chars_of(line);
    parse_topics_chars(chars.as_slice(), known)
}

/// The text of a story row, or nothing where the line is no story row.
pub fn parse_story_line(line: &str) -> (r: Option<String>)
    ensures
        match r {
            Some(text) => story_of_line(line@) == Some(text@),
            None => story_of_line(line@) is None,
        },
{
    let chars = chars_of(line);
    match parse_story_chars(chars.as_slice()) {
        Some(text) => Some(string_of(text.as_slice())),
        None => None,
    }
}

} // verus!
