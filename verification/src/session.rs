//! What the session decides between its reads and writes: what a line typed
//! at the prompt asks for, where the kept titles lie, which pages make up the
//! menu, and how a topic is shown.

use vstd::prelude::*;
use vstd::string::StringExecFns;
use crate::page::{Topic, TopicModel};
use crate::markup::{char_is_whitespace, is_whitespace};
use crate::number::{all_digits, digits_value, parse_digits};
use crate::text::{chars_of, slice_of};

verus! {

/// The directory of this client below the user's home directory.
pub const CONFIG_DIR: &'static str = "/.text_tv_client";

/// The file of the kept titles in that directory.
pub const CACHE_FILE: &'static str = "topics";

/// The first page of the menu.
pub const MENU_START: u32 = 101;

/// How many pages, one after the other, make up the menu.
pub const MENU_PAGES: u32 = 5;

/// What starts the line of a new topic: bright green.
pub const HIGHLIGHT_ON: &'static str = "\u{1b}[92m";

/// What ends the line of a new topic: back to the terminal's own colour.
pub const HIGHLIGHT_OFF: &'static str = "\u{1b}[0m";

/// What a line typed at the prompt asks for.
#[derive(Debug, Clone, Copy, PartialEq, Eq)]
pub enum Command {
    /// `x`: leave.
    Exit,
    /// `m`: fetch and show the menu again.
    Menu,
    /// `h`: show the help text.
    Help,
    /// A number: fetch and show that page.
    Page(u32),
}

/// Why a line typed at the prompt could not be followed.
#[derive(Debug, Clone, Copy, PartialEq, Eq)]
pub enum InputError {
    /// The line is none of the commands and no page number.
    NotACommand,
}

/// `s` without the white space at its end.
pub open spec fn end_trimmed(s: Seq<char>) -> Seq<char>
    decreases s.len(),
{
    if s.len() > 0 && is_whitespace(s.last()) {
        end_trimmed(s.drop_last())
    } else {
        s
    }
}

/// The digits of a page number as it is typed: a plus sign may stand before
/// them.
pub open spec fn unsigned_part(word: Seq<char>) -> Seq<char> {
    if word.len() > 0 && word[0] == '+' {
        word.skip(1)
    } else {
        word
    }
}

/// The page number that `word` shows: digits, at least one, after at most
/// one plus sign, whose number fits in 32 bits.
pub open spec fn page_number(word: Seq<char>) -> Option<u32> {
    let digits = unsigned_part(word);
    if digits.len() >= 1 && all_digits(digits) && digits_value(digits) <= u32::MAX {
        Some(digits_value(digits) as u32)
    } else {
        None
    }
}

/// What the line `input` asks for, white space at its end aside.
pub open spec fn command_of(input: Seq<char>) -> Result<Command, InputError> {
    let word = end_trimmed(input);
    if word == seq!['x'] {
        Ok(Command::Exit)
    } else if word == seq!['m'] {
        Ok(Command::Menu)
    } else if word == seq!['h'] {
        Ok(Command::Help)
    } else {
        match page_number(word) {
            Some(page) => Ok(Command::Page(page)),
            None => Err(InputError::NotACommand),
        }
    }
}

/// The pages of the menu, in the order in which they are fetched.
pub open spec fn menu() -> Seq<u32> {
    Seq::new(MENU_PAGES as nat, |i: int| (MENU_START + i) as u32)
}

/// The line that shows a topic: title, then the page in square brackets; a
/// new topic's line is highlighted.
pub open spec fn topic_line(topic: TopicModel) -> Seq<char> {
    let plain = topic.title + seq![' ', '['] + topic.index + seq![']'];
    if topic.is_new {
        HIGHLIGHT_ON@ + plain + HIGHLIGHT_OFF@
    } else {
        plain
    }
}

/// What the line `input` asks for, white space at its end aside.
pub fn parse_command(input: &str) -> (r: Result<Command, InputError>)
    ensures
        r == command_of(input@),
{
    let chars = chars_of(input);
    let mut end: usize = chars.len();
    assert(chars@.take(end as int) =~= chars@);
    while end > 0 && char_is_whitespace(chars[end - 1])
        invariant
            end <= chars.len(),
            end_trimmed(chars@.take(end as int)) == end_trimmed(chars@),
        decreases end,
    {
        assert(chars@.take(end as int).drop_last() =~= chars@.take(end - 1));
        end -= 1;
    }
    let word = slice_of(chars.as_slice(), 0, end);
    assert(word@ =~= chars@.take(end as int));
    assert(word@ == end_trimmed(input@));
    if word.len() == 1 {
        if word[0] == 'x' {
            assert(word@ =~= seq!['x']);
            return Ok(Command::Exit);
        }
        if word[0] == 'm' {
            assert(word@ =~= seq!['m']);
            return Ok(Command::Menu);
        }
        if word[0] == 'h' {
            assert(word@ =~= seq!['h']);
            return Ok(Command::Help);
        }
    }
    assert(word@ != seq!['x'] && word@ != seq!['m'] && word@ != seq!['h']) by {
        if word@.len() == 1 {
            assert(seq!['x'][0] == 'x');
            assert(seq!['m'][0] == 'm');
            assert(seq!['h'][0] == 'h');
        }
    }
    let from: usize = if word.len() > 0 && word[0] == '+' {
        1
    } else {
        0
    };
    let digits = slice_of(word, from, word.len());
    assert(digits@ =~= unsigned_part(word@));
    match parse_digits(digits) {
        Some(page) => Ok(Command::Page(page)),
        None => Err(InputError::NotACommand),
    }
}

/// The directory of this client for a user whose home directory is `home`.
pub fn config_dir(home: &str) -> (dir: String)
    ensures
        dir@ == home@ + CONFIG_DIR@,
{
    let mut dir = String::from_str(home);
    dir.append(CONFIG_DIR);
    dir
}

/// The file of the kept titles in the directory `dir`.
pub fn cache_path(dir: &str) -> (path: String)
    ensures
        path@ == dir@ + seq!['/'] + CACHE_FILE@,
{
    let mut path = String::from_str(dir);
    path.push('/');
    path.append(CACHE_FILE);
    assert(dir@.push('/') =~= dir@ + seq!['/']);
    path
}

/// The pages of the menu, in the order in which they are fetched.
pub fn menu_pages() -> (pages: Vec<u32>)
    ensures
        pages@ == menu(),
{
    let mut pages: Vec<u32> = Vec::new();
    let mut i: u32 = 0;
    while i < MENU_PAGES
        invariant
            i <= MENU_PAGES,
            pages@.len() == i,
            forall|j: int| 0 <= j < i ==> pages@[j] == (MENU_START + j) as u32,
        decreases MENU_PAGES - i,
    {
        pages.push(MENU_START + i);
        i += 1;
    }
    assert(pages@ =~= menu());
    pages
}

/// The line that shows a topic.
pub fn render_topic(topic: &Topic) -> (line: String)
    ensures
        line@ == topic_line(topic@),
{
    let mut line = String::new();
    if topic.is_new {
        line.append(HIGHLIGHT_ON);
    }
    let ghost start = line@;
    line.append(topic.title.as_str());
    line.push(' ');
    line.push('[');
    line.append(topic.index.as_str());
    line.push(']');
    assert(line@ =~= start + (topic@.title + seq![' ', '['] + topic@.index + seq![']']));
    if topic.is_new {
        line.append(HIGHLIGHT_OFF);
    }
    assert(line@ =~= topic_line(topic@));
    line
}

} // verus!
