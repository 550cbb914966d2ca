use regex::Regex;
use texttv::cache::TitleSet;
use texttv::markup::{clean, strip_tags};
use texttv::page::{contains_marker, parse_story_line, parse_topic_line};

const ROW: &str = "<span class=\"W\">(.*?)<a href=\"([0-9]+).html\">[0-9]+</a></span>";
const ROW_TO_LAST_LINK: &str = "<span class=\"W\">(.*)<a href=\"([0-9]+).html\">[0-9]+</a></span>";
const LINK: &str = "<a href=\"[0-9]+.html\">[0-9]+</a></span>";

fn topic_by_regex(pattern: &str, line: &str) -> Vec<(String, String)> {
    let re_news = Regex::new("<span class=\"W\">").unwrap();
    let re_parts = Regex::new(pattern).unwrap();
    let re_html = Regex::new("<.*?>").unwrap();
    let mut out = Vec::new();
    if re_news.is_match(line) {
        for q in re_parts.captures_iter(line) {
            let title = re_html.replace_all(&q[1], "");
            out.push((title.trim_start().to_string(), q[2].to_string()));
        }
    }
    out
}

fn story_by_regex(line: &str) -> Vec<String> {
    let re_news = Regex::new("<span class=\"W\">").unwrap();
    let re_parts = Regex::new("<span class=\"W\">(.*)</span>$").unwrap();
    let re_html = Regex::new("<.*?>").unwrap();
    let mut out = Vec::new();
    if re_news.is_match(line) {
        for q in re_parts.captures_iter(line) {
            let text = re_html.replace_all(&q[1], "");
            out.push(text.trim_start().to_string());
        }
    }
    out
}

fn sample_lines() -> Vec<&'static str> {
    vec![
        "",
        "plain text",
        "<span class=\"W\">",
        "<span class=\"W\"></span>",
        "<span class=\"W\"> Storm i norr </span>",
        "<span class=\"W\"> Storm i norr </span>\r",
        " <span class=\"Y\">x</span><span class=\"W\"> Regn <b>i</b> syd</span>",
        "<span class=\"W\">Storm i norr <a href=\"106.html\">106</a></span>",
        "<span class=\"W\">  Storm <b>i</b> norr......<a href=\"106.html\">106</a></span>",
        "<span class=\"W\">A <a href=\"100.html\">100</a> B <a href=\"101.html\">101</a></span>",
        "<span class=\"W\">A <a href=\"100.html\">100</a></span><span class=\"W\">B <a href=\"101.html\">101</a></span>",
        "<span class=\"W\">A <a href=\"100.html\">100</a></span> tail",
        "<span class=\"W\">A <a href=\"100xhtml\">100</a></span>",
        "<span class=\"W\">A <a href=\"1234html\">9</a></span>",
        "<span class=\"W\">A <a href=\"1html\">9</a></span>",
        "<span class=\"W\">A <a href=\"12hhtml\">9</a></span>",
        "<span class=\"W\">A <a href=\".html\">9</a></span>",
        "<span class=\"W\">A <a href=\"12.html\"></a></span>",
        "<span class=\"W\">A <a href=\"12.html\">x</a></span>",
        "<span class=\"W\">A <a href=\"12.html\">12</a> </span>",
        "<span class=\"W\">A <a href=\"abc.html\">12</a></span>",
        "<span class=\"W\">A <a href=\"12.htm\">12</a></span>",
        "<a href=\"12.html\">12</a></span><span class=\"W\">late",
        "x<span class=\"W\"><a href=\"7.html\">7</a></span>",
        "<span class=\"W\">\u{a0}\u{2003} R\u{e4}ksm\u{f6}rg\u{e5}s <a href=\"7.html\">007</a></span>",
        "<span class=\"W\">a < b > c <a href=\"7.html\">7</a></span>",
        "<span class=\"W\">a > b < c <a href=\"7.html\">7</a></span>",
        "<span class=\"W\">a <<b>> c</span>",
        "<span class=\"W\">a <b c</span>",
        "<span class=\"W\">one</span><span class=\"W\">two</span>",
        "<span class=\"W\">one</span></span>",
        "<span class=\"W\"</span>",
        "<span class=\"W\"><span class=\"W\">x<a href=\"5.html\">5</a></span>",
        "<span class=\"W\">A<a href=\"1.html\">1</a></span> x <span class=\"W\"> B<a href=\"2.html\">2</a></span> y <span class=\"W\">C<a href=\"3.html\">3</a></span>",
        "<span class=\"W\">A <a href=\"100.html\">100</a></span> B <a href=\"101.html\">101</a></span>",
        "<span class=\"W\">A <a href=\"1.html\">1</a></span><span class=\"W\">B <a href=\"2.html\">2</a>",
        "<span class=\"W\">A <a href=\"1.html\">1</a></span><a href=\"2.html\">2</a></span><span class=\"W\">",
        "<span class=\"W\"><a href=\"1.html\">1</a></span><span class=\"W\"><a href=\"22html\">2</a></span>",
    ]
}

fn topic_by_library(line: &str) -> Vec<(String, String)> {
    parse_topic_line(line, &TitleSet::new()).into_iter().map(|t| (t.title, t.index)).collect()
}

#[test]
fn topic_rows_agree_with_the_pattern() {
    for line in sample_lines() {
        assert_eq!(topic_by_library(line), topic_by_regex(ROW, line), "line {:?}", line);
    }
}

#[test]
fn with_one_link_in_the_line_the_title_may_as_well_run_to_the_last_link() {
    let link = Regex::new(LINK).unwrap();
    let mut compared = 0;
    for line in sample_lines() {
        if link.find_iter(line).count() <= 1 {
            assert_eq!(
                topic_by_library(line),
                topic_by_regex(ROW_TO_LAST_LINK, line),
                "line {:?}",
                line
            );
            compared += 1;
        }
    }
    assert!(compared >= 30);
}

#[test]
fn with_two_links_the_title_ends_before_the_first() {
    let line = "<span class=\"W\">A <a href=\"100.html\">100</a></span><span class=\"W\">B <a href=\"101.html\">101</a></span>";
    assert_eq!(
        topic_by_library(line),
        vec![("A ".to_string(), "100".to_string()), ("B ".to_string(), "101".to_string())]
    );
    assert_eq!(topic_by_regex(ROW_TO_LAST_LINK, line), vec![("A 100B ".to_string(), "101".to_string())]);
}

#[test]
fn story_rows_agree_with_the_patterns() {
    for line in sample_lines() {
        let expected = story_by_regex(line);
        let got: Vec<String> = parse_story_line(line).into_iter().collect();
        assert_eq!(got, expected, "line {:?}", line);
    }
}

#[test]
fn marker_test_agrees_with_the_pattern() {
    let re_news = Regex::new("<span class=\"W\">").unwrap();
    for line in sample_lines() {
        assert_eq!(contains_marker(line), re_news.is_match(line), "line {:?}", line);
    }
}

#[test]
fn tag_stripping_agrees_with_the_pattern() {
    let re_html = Regex::new("<.*?>").unwrap();
    for line in sample_lines() {
        assert_eq!(strip_tags(line), re_html.replace_all(line, "").to_string(), "line {:?}", line);
        let shown = re_html.replace_all(line, "").trim_start().to_string();
        assert_eq!(clean(line), shown, "line {:?}", line);
    }
}
