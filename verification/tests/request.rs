use texttv::request::{build_request, parse_request, DEFAULT_USER_AGENT, HOSTNAME};

const AGENT: &str = DEFAULT_USER_AGENT;

#[test]
fn the_fixed_names_are_as_documented() {
    assert_eq!(HOSTNAME, "www.svt.se");
    assert_eq!(
        DEFAULT_USER_AGENT,
        "Text-tv-client, https://github.com/oscar-franzen/text-tv-client"
    );
}

#[test]
fn request_is_the_documented_text() {
    let req = build_request(100, "agent/1.0", "www.svt.se");
    assert_eq!(
        req,
        "GET /svttext/web/pages/100.html HTTP/1.1\r\n\
         User-Agent: agent/1.0\r\n\
         Host: www.svt.se\r\n\
         Accept-Language: *\r\n\
         Connection: Keep-Alive\r\n\r\n"
    );
}

#[test]
fn request_matches_formatting_by_hand() {
    for page in [0u32, 7, 10, 100, 101, 999, 1000, 65535, 4294967295] {
        let expected = format!(
            "GET /svttext/web/pages/{}.html HTTP/1.1\r\nUser-Agent: {}\r\nHost: {}\r\nAccept-Language: *\r\nConnection: Keep-Alive\r\n\r\n",
            page, AGENT, HOSTNAME
        );
        assert_eq!(build_request(page, AGENT, HOSTNAME), expected);
    }
}

#[test]
fn page_number_has_no_padding() {
    let req = build_request(7, AGENT, HOSTNAME);
    assert!(req.starts_with("GET /svttext/web/pages/7.html HTTP/1.1\r\n"));
    let req = build_request(0, AGENT, HOSTNAME);
    assert!(req.starts_with("GET /svttext/web/pages/0.html HTTP/1.1\r\n"));
}

#[test]
fn every_line_ends_in_crlf() {
    let req = build_request(377, AGENT, HOSTNAME);
    let lines: Vec<&str> = req.split('\n').collect();
    assert_eq!(lines.len(), 7);
    for line in &lines[..6] {
        assert!(line.ends_with('\r'), "line {:?}", line);
        assert_eq!(line.matches('\r').count(), 1);
    }
    assert_eq!(lines[6], "");
}

#[test]
fn request_ends_with_exactly_one_blank_line() {
    let req = build_request(377, AGENT, HOSTNAME);
    assert!(req.ends_with("\r\n\r\n"));
    assert_eq!(req.find("\r\n\r\n"), Some(req.len() - 4));
    assert_eq!(req.matches("\r\n\r\n").count(), 1);
}

#[test]
fn built_request_reads_back() {
    for page in [0u32, 1, 100, 105, 700, 4294967295] {
        let req = build_request(page, AGENT, HOSTNAME);
        assert_eq!(parse_request(&req), Some((page, HOSTNAME.to_string())));
    }
    let req = build_request(300, "Host: fake", "example.org");
    assert_eq!(parse_request(&req), Some((300, "example.org".to_string())));
}

#[test]
fn user_agent_with_a_line_break_breaks_the_shape() {
    let req = build_request(100, "a\r\n\r\nb", HOSTNAME);
    assert_eq!(req.find("\r\n\r\n"), Some(55));
    assert!(req.find("\r\n\r\n").unwrap() < req.len() - 4);
}

#[test]
fn malformed_requests_do_not_read_back() {
    assert_eq!(parse_request(""), None);
    assert_eq!(parse_request("GET /svttext/web/pages/.html HTTP/1.1\r\nHost: h\r\n\r\n"), None);
    assert_eq!(parse_request("GET /svttext/web/pages/1x.html HTTP/1.1\r\nHost: h\r\n\r\n"), None);
    assert_eq!(parse_request("GET /svttext/web/pages/12.html HTTP/1.1\nHost: h\r\n\r\n"), None);
    assert_eq!(parse_request("GET /svttext/web/pages/12.html HTTP/1.1\r\nUser-Agent: u\r\n\r\n"), None);
    assert_eq!(
        parse_request("GET /svttext/web/pages/4294967296.html HTTP/1.1\r\nHost: h\r\n\r\n"),
        None
    );
    assert_eq!(
        parse_request("GET /svttext/web/pages/12.html HTTP/1.1\r\nHost: h\r\n\r\n"),
        Some((12, "h".to_string()))
    );
    assert_eq!(
        parse_request("GET /svttext/web/pages/012.html HTTP/1.1\r\nHost: \r\n\r\n"),
        Some((12, "".to_string()))
    );
}
