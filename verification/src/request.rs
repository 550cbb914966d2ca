//! The request for one page: a request line and four headers, each ended by
//! a carriage return and a line feed, and an empty line behind them.

use vstd::prelude::*;
use vstd::string::StringExecFns;
use crate::extract::{body_of, separator};
use crate::number::{
    all_digits, decimal, digits_value, format_decimal, lemma_decimal, parse_digits,
};
use crate::text::{
    chars_of, is_first_occurrence, lemma_first_line, lemma_first_occurrence,
    lemma_lines_of_nonempty, lemma_occurs_at_chars, lemma_occurs_at_shift, lemma_single_line,
    lines_of, matches_at, occurs_at, rows, slice_of, split_lines, string_of,
};

verus! {

/// The host that serves the pages.
pub const HOSTNAME: &'static str = "www.svt.se";

/// The user agent that is named where the user gives none.
pub const DEFAULT_USER_AGENT: &'static str =
    "Text-tv-client, https://github.com/oscar-franzen/text-tv-client";

/// What ends every line of a request.
pub open spec fn line_end() -> Seq<char> {
    seq!['\r', '\n']
}

/// The request line for page `page`, without its line end.
pub open spec fn request_line(page: nat) -> Seq<char> {
    "GET /svttext/web/pages/"@ + decimal(page) + ".html HTTP/1.1"@
}

/// The lines of the request's header, in order, without their line ends.
pub open spec fn header_lines(page: nat, user_agent: Seq<char>, host: Seq<char>) -> Seq<
    Seq<char>,
> {
    seq![
        request_line(page),
        "User-Agent: "@ + user_agent,
        "Host: "@ + host,
        "Accept-Language: *"@,
        "Connection: Keep-Alive"@,
    ]
}

/// The given lines, each with its line end behind it.
pub open spec fn crlf_joined(lines: Seq<Seq<char>>) -> Seq<char>
    decreases lines.len(),
{
    if lines.len() == 0 {
        Seq::empty()
    } else {
        lines[0] + line_end() + crlf_joined(lines.skip(1))
    }
}

/// The request for page `page`: the header's lines and an empty line.
pub open spec fn request_text(page: nat, user_agent: Seq<char>, host: Seq<char>) -> Seq<char> {
    crlf_joined(header_lines(page, user_agent, host)) + line_end()
}

/// Five lines joined, written out.
proof fn lemma_joined_five(a: Seq<char>, b: Seq<char>, c: Seq<char>, d: Seq<char>, e: Seq<char>)
    ensures
        crlf_joined(seq![a, b, c, d, e]) == a + line_end() + b + line_end() + c + line_end() + d
            + line_end() + e + line_end(),
{
    let le = line_end();
    let l5 = seq![a, b, c, d, e];
    let l4 = seq![b, c, d, e];
    let l3 = seq![c, d, e];
    let l2 = seq![d, e];
    let l1 = seq![e];
    assert(l5.skip(1) =~= l4);
    assert(l4.skip(1) =~= l3);
    assert(l3.skip(1) =~= l2);
    assert(l2.skip(1) =~= l1);
    assert(l1.skip(1) =~= Seq::<Seq<char>>::empty());
    assert(crlf_joined(Seq::<Seq<char>>::empty()) =~= Seq::<char>::empty());
    assert(crlf_joined(l1) =~= e + le);
    assert(crlf_joined(l2) =~= d + le + e + le);
    assert(crlf_joined(l3) =~= c + le + d + le + e + le);
    assert(crlf_joined(l4) =~= b + le + c + le + d + le + e + le);
    assert(crlf_joined(l5) =~= a + le + b + le + c + le + d + le + e + le);
}

/// The request for page `page` of `host`, sent in the name of `user_agent`.
/// The page number stands in decimal, without padding; nothing is checked of
/// it, nor of the two texts.
pub fn build_request(page: u32, user_agent: &str, host: &str) -> (out: String)
    ensures
        out@ == request_text(page as nat, user_agent@, host@),
{
    let number = string_of(format_decimal(page).as_slice());
    let mut out = String::new();
    out.append("GET /svttext/web/pages/");
    out.append(number.as_str());
    out.append(".html HTTP/1.1");
    out.append("\r\n");
    out.append("User-Agent: ");
    out.append(user_agent);
    out.append("\r\n");
    out.append("Host: ");
    out.append(host);
    out.append("\r\n");
    out.append("Accept-Language: *");
    out.append("\r\n");
    out.append("Connection: Keep-Alive");
    out.append("\r\n");
    out.append("\r\n");
    proof {
        reveal_strlit("\r\n");
        assert("\r\n"@ =~= line_end());
        let le = line_end();
        let a = request_line(page as nat);
        let b = "User-Agent: "@ + user_agent@;
        let c = "Host: "@ + host@;
        let d = "Accept-Language: *"@;
        let e = "Connection: Keep-Alive"@;
        lemma_joined_five(a, b, c, d, e);
        assert(out@ =~= a + le + b + le + c + le + d + le + e + le + le);
    }
    out
}

/// `s` holds neither a carriage return nor a line feed.
pub open spec fn unbroken(s: Seq<char>) -> bool {
    forall|i: int| 0 <= i < s.len() ==> s[i] != '\r' && s[i] != '\n'
}

/// Every one of the lines is unbroken and holds a character.
pub open spec fn plain_lines(lines: Seq<Seq<char>>) -> bool {
    forall|k: int| 0 <= k < lines.len() ==> unbroken(#[trigger] lines[k]) && lines[k].len() > 0
}

/// The lines as a text split at its line feeds shows them: each with the
/// carriage return of its line end.
pub open spec fn with_returns(lines: Seq<Seq<char>>) -> Seq<Seq<char>> {
    lines.map_values(|l: Seq<char>| l.push('\r'))
}

/// Lines joined and closed by an empty line read back, split at the line
/// feeds, as those lines, each ending in a carriage return, then the empty
/// line, then nothing.
pub proof fn lemma_joined_lines(lines: Seq<Seq<char>>)
    requires
        plain_lines(lines),
    ensures
        lines_of(crlf_joined(lines) + line_end()) == with_returns(lines) + seq![
            seq!['\r'],
            Seq::empty(),
        ],
    decreases lines.len(),
{
    let text = crlf_joined(lines) + line_end();
    let tail = seq![seq!['\r'], Seq::<char>::empty()];
    if lines.len() == 0 {
        assert(text =~= seq!['\r'] + seq!['\n'] + Seq::<char>::empty());
        lemma_first_line(seq!['\r'], Seq::<char>::empty());
        lemma_single_line(Seq::<char>::empty());
        assert(seq![seq!['\r']] + seq![Seq::<char>::empty()] =~= tail);
        assert(with_returns(lines) + tail =~= tail);
    } else {
        let first = lines[0];
        let rest = lines.skip(1);
        assert(plain_lines(rest)) by {
            assert forall|k: int| 0 <= k < rest.len() implies unbroken(#[trigger] rest[k])
                && rest[k].len() > 0 by {
                assert(rest[k] == lines[k + 1]);
            }
        }
        lemma_joined_lines(rest);
        let after = crlf_joined(rest) + line_end();
        assert(text =~= first.push('\r') + seq!['\n'] + after);
        assert(unbroken(first));
        lemma_first_line(first.push('\r'), after);
        assert(seq![first.push('\r')] + (with_returns(rest) + tail) =~= with_returns(lines)
            + tail);
    }
}

/// In lines joined and closed by an empty line, the first empty line is the
/// closing one: the separator of header and body stands at the very end, and
/// nowhere before.
pub proof fn lemma_joined_separator(lines: Seq<Seq<char>>)
    requires
        plain_lines(lines),
        lines.len() > 0,
    ensures
        is_first_occurrence(
            crlf_joined(lines) + line_end(),
            separator(),
            crlf_joined(lines).len() - 2,
        ),
    decreases lines.len(),
{
    reveal_strlit("\r\n\r\n");
    let sep = separator();
    let text = crlf_joined(lines) + line_end();
    let first = lines[0];
    let rest = lines.skip(1);
    let after = crlf_joined(rest) + line_end();
    let before = first + line_end();
    assert(text =~= before + after);
    assert(unbroken(first) && first.len() > 0);
    let last = crlf_joined(lines).len() - 2;
    if rest.len() == 0 {
        assert(crlf_joined(rest) =~= Seq::<char>::empty());
        assert(text =~= first + sep);
        lemma_occurs_at_chars(text, sep, last);
    } else {
        assert(plain_lines(rest)) by {
            assert forall|k: int| 0 <= k < rest.len() implies unbroken(#[trigger] rest[k])
                && rest[k].len() > 0 by {
                assert(rest[k] == lines[k + 1]);
            }
        }
        lemma_joined_separator(rest);
        lemma_occurs_at_shift(before, after, sep, crlf_joined(rest).len() - 2);
        assert(unbroken(rest[0]) && rest[0].len() > 0);
        assert(after[0] == rest[0][0]);
    }
    assert forall|i: int| 0 <= i < last implies !occurs_at(text, sep, i) by {
        lemma_occurs_at_chars(text, sep, i);
        if occurs_at(text, sep, i) {
            assert(text[i + 0] == sep[0]);
            assert(text[i + 2] == sep[2]);
            if i < first.len() {
                assert(text[i] == first[i]);
            } else if i == first.len() {
                assert(rest.len() > 0);
                assert(text[i + 2] == after[0]);
            } else if i == first.len() + 1 {
                assert(text[i] == '\n');
            } else {
                assert(rest.len() > 0);
                lemma_occurs_at_shift(before, after, sep, i - before.len());
            }
        }
    }
}

/// The lines of a request, for a user agent and a host that hold no line
/// break: the request line and the four headers, each ended by a carriage
/// return and a line feed, then one empty line, and nothing behind it.
pub proof fn lemma_request_lines(page: nat, user_agent: Seq<char>, host: Seq<char>)
    requires
        unbroken(user_agent),
        unbroken(host),
    ensures
        lines_of(request_text(page, user_agent, host)) == with_returns(
            header_lines(page, user_agent, host),
        ) + seq![seq!['\r'], Seq::empty()],
{
    lemma_header_lines_plain(page, user_agent, host);
    lemma_joined_lines(header_lines(page, user_agent, host));
}

/// A request, for a user agent and a host that hold no line break, ends with
/// exactly one empty line: its header ends where the text ends, and its body
/// is empty.
pub proof fn lemma_request_has_empty_body(page: nat, user_agent: Seq<char>, host: Seq<char>)
    requires
        unbroken(user_agent),
        unbroken(host),
    ensures
        body_of(request_text(page, user_agent, host)) == Some(Seq::<char>::empty()),
{
    reveal_strlit("\r\n\r\n");
    let lines = header_lines(page, user_agent, host);
    let text = request_text(page, user_agent, host);
    lemma_header_lines_plain(page, user_agent, host);
    lemma_joined_separator(lines);
    lemma_first_occurrence(text, separator(), crlf_joined(lines).len() - 2);
    assert(text.skip(text.len() as int) =~= Seq::<char>::empty());
}

/// The header's lines hold no line break, and none of them is empty.
proof fn lemma_header_lines_plain(page: nat, user_agent: Seq<char>, host: Seq<char>)
    requires
        unbroken(user_agent),
        unbroken(host),
    ensures
        plain_lines(header_lines(page, user_agent, host)),
{
    reveal_strlit("GET /svttext/web/pages/");
    reveal_strlit(".html HTTP/1.1");
    reveal_strlit("User-Agent: ");
    reveal_strlit("Host: ");
    reveal_strlit("Accept-Language: *");
    reveal_strlit("Connection: Keep-Alive");
    lemma_decimal(page);
    let lines = header_lines(page, user_agent, host);
    assert(unbroken(lines[0]));
    assert(unbroken(lines[1]));
    assert(unbroken(lines[2]));
    assert(unbroken(lines[3]));
    assert(unbroken(lines[4]));
}

/// What stands before the page number in a request line.
pub const REQUEST_OPEN: &'static str = "GET /svttext/web/pages/";

/// What stands behind the page number in a request line, with the carriage
/// return of the line end.
pub const REQUEST_CLOSE: &'static str = ".html HTTP/1.1\r";

/// What stands before the host in its header.
pub const HOST_OPEN: &'static str = "Host: ";

/// The page that a request line asks for. The line comes with the carriage
/// return of its line end.
pub open spec fn page_of_line(line: Seq<char>) -> Option<nat> {
    let digits = line.subrange(REQUEST_OPEN@.len() as int, line.len() - REQUEST_CLOSE@.len());
    if REQUEST_OPEN@.len() + REQUEST_CLOSE@.len() < line.len() && occurs_at(line, REQUEST_OPEN@, 0)
        && occurs_at(line, REQUEST_CLOSE@, line.len() - REQUEST_CLOSE@.len()) && all_digits(
        digits,
    ) {
        Some(digits_value(digits))
    } else {
        None
    }
}

/// The host that a header line names, where it is the header of the host.
/// The line comes with the carriage return of its line end.
pub open spec fn host_of_line(line: Seq<char>) -> Option<Seq<char>> {
    if HOST_OPEN@.len() < line.len() && occurs_at(line, HOST_OPEN@, 0) && line.last() == '\r' {
        Some(line.subrange(HOST_OPEN@.len() as int, line.len() - 1))
    } else {
        None
    }
}

/// The host named by the first of the lines, from line `from` on, that is a
/// header of the host.
pub open spec fn host_in(lines: Seq<Seq<char>>, from: int) -> Option<Seq<char>>
    decreases lines.len() - from,
{
    if from < 0 || from >= lines.len() {
        None
    } else if host_of_line(lines[from]) is Some {
        host_of_line(lines[from])
    } else {
        host_in(lines, from + 1)
    }
}

/// The page that a request asks for: the one of its first line.
pub open spec fn request_page(text: Seq<char>) -> Option<nat> {
    page_of_line(lines_of(text)[0])
}

/// The host that a request names: the one of its first header of the host.
pub open spec fn request_host(text: Seq<char>) -> Option<Seq<char>> {
    host_in(lines_of(text), 1)
}

/// Reading a request that was built gives back the page and the host that
/// it was built for, provided that user agent and host hold no line break.
pub proof fn lemma_request_round_trip(page: nat, user_agent: Seq<char>, host: Seq<char>)
    requires
        unbroken(user_agent),
        unbroken(host),
    ensures
        request_page(request_text(page, user_agent, host)) == Some(page),
        request_host(request_text(page, user_agent, host)) == Some(host),
{
    reveal_strlit("GET /svttext/web/pages/");
    reveal_strlit(".html HTTP/1.1");
    reveal_strlit(".html HTTP/1.1\r");
    reveal_strlit("User-Agent: ");
    reveal_strlit("Host: ");
    lemma_request_lines(page, user_agent, host);
    lemma_decimal(page);
    let lines = lines_of(request_text(page, user_agent, host));
    let first = request_line(page).push('\r');
    let second = ("User-Agent: "@ + user_agent).push('\r');
    let third = ("Host: "@ + host).push('\r');
    assert(lines[0] == first);
    assert(lines[1] == second);
    assert(lines[2] == third);
    // the request line
    assert(first =~= REQUEST_OPEN@ + decimal(page) + REQUEST_CLOSE@);
    assert(first.subrange(0, REQUEST_OPEN@.len() as int) =~= REQUEST_OPEN@);
    assert(first.subrange(first.len() - REQUEST_CLOSE@.len(), first.len() as int)
        =~= REQUEST_CLOSE@);
    assert(first.subrange(REQUEST_OPEN@.len() as int, first.len() - REQUEST_CLOSE@.len())
        =~= decimal(page));
    // the header of the user agent is none of the host
    assert(second[0] == 'U');
    assert(second.subrange(0, HOST_OPEN@.len() as int)[0] == second[0]);
    assert(host_of_line(second) is None);
    // the header of the host
    assert(third.subrange(0, HOST_OPEN@.len() as int) =~= HOST_OPEN@);
    assert(third.subrange(HOST_OPEN@.len() as int, third.len() - 1) =~= host);
    assert(host_of_line(third) == Some(host));
    assert(host_in(lines, 2) == Some(host));
}

/// The page and the host of a request, where its first line asks for a page
/// whose number fits and a header of the host follows.
pub fn parse_request(text: &str) -> (r: Option<(u32, String)>)
    ensures
        match r {
            Some(pair) => request_page(text@) == Some(pair.0 as nat) && request_host(text@)
                == Some(pair.1@),
            None => request_page(text@) is None || request_page(text@).unwrap() > u32::MAX
                || request_host(text@) is None,
        },
{
    let chars = chars_of(text);
    let lines = split_lines(chars.as_slice());
    let open = chars_of(REQUEST_OPEN);
    let close = chars_of(REQUEST_CLOSE);
    let host_open = chars_of(HOST_OPEN);
    proof {
        lemma_lines_of_nonempty(text@);
    }
    let first = lines[0].as_slice();
    assert(first@ == lines_of(text@)[0]);
    if first.len() < open.len() || first.len() - open.len() <= close.len() {
        return None;
    }
    let end = first.len() - close.len();
    if !matches_at(first, open.as_slice(), 0) || !matches_at(first, close.as_slice(), end) {
        return None;
    }
    let page = match parse_digits(slice_of(first, open.len(), end)) {
        Some(page) => page,
        None => {
            return None;
        },
    };
    let mut i: usize = 1;
    while i < lines.len()
        invariant
            1 <= i <= lines.len(),
            rows(lines@) == lines_of(text@),
            host_open@ == HOST_OPEN@,
            request_page(text@) == Some(page as nat),
            host_in(lines_of(text@), 1) == host_in(lines_of(text@), i as int),
        decreases lines.len() - i,
    {
        let line = lines[i].as_slice();
        assert(line@ == lines_of(text@)[i as int]);
        if line.len() > host_open.len() && matches_at(line, host_open.as_slice(), 0) && line[line.len()
            - 1] == '\r' {
            let host = string_of(slice_of(line, host_open.len(), line.len() - 1));
            return Some((page, host));
        }
        i += 1;
    }
    None
}

} // verus!
