//! From a whole response to what is shown: the header is cut off, the body is
//! split into lines, and the lines give their topic rows, or their story
//! rows, in the order of the page.

use vstd::prelude::*;
use crate::cache::TitleSet;
use crate::page::{
    contains_marker_chars, parse_story_chars, parse_topics_chars, story_of_line, topic_models,
    topics_of_line, Topic, TopicModel,
};
use crate::text::{
    chars_of, find, first_occurrence, lines_of, rows, slice_of, split_lines, string_of, texts,
};

verus! {

/// The empty line that ends the header of a response.
pub const SEPARATOR: &'static str = "\r\n\r\n";

/// The characters of `SEPARATOR`.
pub open spec fn separator() -> Seq<char> {
    SEPARATOR@
}

/// Why a response could not be read as a page.
#[derive(Debug, Clone, Copy, PartialEq, Eq)]
pub enum ParseError {
    /// No empty line parts a header from a body.
    MissingSeparator,
    /// The bytes received are no UTF-8 text.
    InvalidText,
}

/// The body of a response: what follows the first empty line. A response
/// without an empty line has no body.
pub open spec fn body_of(raw: Seq<char>) -> Option<Seq<char>> {
    match first_occurrence(raw, separator()) {
        Some(i) => Some(raw.skip(i + separator().len())),
        None => None,
    }
}

/// The topics of the given lines, in the order of the lines and, within a
/// line, from left to right. A topic is new where its title is not among the
/// `known` ones.
pub open spec fn topics_in(lines: Seq<Seq<char>>, known: Set<Seq<char>>) -> Seq<TopicModel>
    decreases lines.len(),
{
    if lines.len() == 0 {
        Seq::empty()
    } else {
        topics_in(lines.drop_last(), known) + topics_of_line(lines.last(), known)
    }
}

/// The story paragraphs of the given lines, in the order of the lines.
pub open spec fn paragraphs_in(lines: Seq<Seq<char>>) -> Seq<Seq<char>>
    decreases lines.len(),
{
    if lines.len() == 0 {
        Seq::empty()
    } else {
        let before = paragraphs_in(lines.drop_last());
        match story_of_line(lines.last()) {
            Some(text) => before.push(text),
            None => before,
        }
    }
}

/// The lines of the body of a response.
pub fn body_lines(raw: &str) -> (r: Result<Vec<Vec<char>>, ParseError>)
    ensures
        match r {
            Ok(lines) => body_of(raw@) is Some && rows(lines@) == lines_of(body_of(raw@).unwrap()),
            Err(e) => body_of(raw@) is None && e == ParseError::MissingSeparator,
        },
{
    let chars = chars_of(raw);
    let sep = chars_of(SEPARATOR);
    match find(chars.as_slice(), sep.as_slice()) {
        None => Err(ParseError::MissingSeparator),
        Some(i) => {
            let body = slice_of(chars.as_slice(), i + sep.len(), chars.len());
            assert(body@ =~= raw@.skip(i + separator().len()));
            Ok(split_lines(body))
        },
    }
}

/// The topics of a topic listing, in the order of the page, each marked new
/// or not against the titles `known` before. A response without the empty
/// line that ends its header is refused, and gives no topic.
pub fn extract_topics(raw: &str, known: &TitleSet) -> (r: Result<Vec<Topic>, ParseError>)
    ensures
        match r {
            Ok(topics) => body_of(raw@) is Some && topic_models(topics@) == topics_in(
                lines_of(body_of(raw@).unwrap()),
                known@,
            ),
            Err(e) => body_of(raw@) is None && e == ParseError::MissingSeparator,
        },
{
    let lines = match body_lines(raw) {
        Ok(lines) => lines,
        Err(e) => {
            return Err(e);
        },
    };
    let mut topics: Vec<Topic> = Vec::new();
    let mut i: usize = 0;
    let ghost all = rows(lines@);
    assert(topic_models(topics@) =~= topics_in(all.take(0), known@));
    while i < lines.len()
        invariant
            i <= lines.len(),
            all == rows(lines@),
            topic_models(topics@) == topics_in(all.take(i as int), known@),
        decreases lines.len() - i,
    {
        let line = lines[i].as_slice();
        let ghost before = topics@;
        assert(all.take(i + 1).drop_last() =~= all.take(i as int));
        assert(all.take(i + 1).last() == line@);
        if contains_marker_chars(line) {
            let mut found = parse_topics_chars(line, known);
            let ghost row = found@;
            topics.append(&mut found);
            assert(topic_models(topics@) =~= topic_models(before) + topic_models(row));
        } else {
            assert(topic_models(before) + Seq::<TopicModel>::empty() =~= topic_models(before));
        }
        i += 1;
    }
    assert(all.take(i as int) =~= all);
    Ok(topics)
}

/// The paragraphs of a story, in the order of the page. A response without
/// the empty line that ends its header is refused, and gives no paragraph.
pub fn extract_story(raw: &str) -> (r: Result<Vec<String>, ParseError>)
    ensures
        match r {
            Ok(paragraphs) => body_of(raw@) is Some && texts(paragraphs@) == paragraphs_in(
                lines_of(body_of(raw@).unwrap()),
            ),
            Err(e) => body_of(raw@) is None && e == ParseError::MissingSeparator,
        },
{
    let lines = match body_lines(raw) {
        Ok(lines) => lines,
        Err(e) => {
            return Err(e);
        },
    };
    let mut paragraphs: Vec<String> = Vec::new();
    let mut i: usize = 0;
    let ghost all = rows(lines@);
    assert(texts(paragraphs@) =~= paragraphs_in(all.take(0)));
    while i < lines.len()
        invariant
            i <= lines.len(),
            all == rows(lines@),
            texts(paragraphs@) == paragraphs_in(all.take(i as int)),
        decreases lines.len() - i,
    {
        let line = lines[i].as_slice();
        let ghost before = paragraphs@;
        assert(all.take(i + 1).drop_last() =~= all.take(i as int));
        assert(all.take(i + 1).last() == line@);
        if contains_marker_chars(line) {
            match parse_story_chars(line) {
                Some(text) => {
                    let text = string_of(text.as_slice());
                    paragraphs.push(text);
                    assert(texts(paragraphs@) =~= texts(before).push(text@));
                },
                None => {},
            }
        }
        i += 1;
    }
    assert(all.take(i as int) =~= all);
    Ok(paragraphs)
}

} // verus!
