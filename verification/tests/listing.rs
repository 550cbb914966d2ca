use texttv::extract::ParseError;
use texttv::page::Topic;
use texttv::listing::Listing;

const HEADER: &str = "HTTP/1.1 200 OK\r\n\r\n";

fn page(rows: &[(&str, u32)]) -> String {
    let mut raw = String::from(HEADER);
    for (title, index) in rows {
        raw.push_str(&format!(
            " <span class=\"W\">{}<a href=\"{}.html\">{}</a></span>\n",
            title, index, index
        ));
    }
    raw
}

fn marks(topics: &[Topic]) -> Vec<(String, bool)> {
    topics.iter().map(|t| (t.title.clone(), t.is_new)).collect()
}

fn mark(title: &str, is_new: bool) -> (String, bool) {
    (title.to_string(), is_new)
}

#[test]
fn without_a_kept_text_every_topic_is_new() {
    let mut listing = Listing::begin(None);
    let one = listing.page(&page(&[("Storm ", 106), ("Regn ", 107)])).unwrap();
    let two = listing.page(&page(&[("Val ", 110)])).unwrap();
    assert_eq!(marks(&one), vec![mark("Storm ", true), mark("Regn ", true)]);
    assert_eq!(marks(&two), vec![mark("Val ", true)]);
    assert_eq!(listing.finish(), "Storm \nRegn \nVal \n");
}

#[test]
fn an_unchanged_menu_shows_nothing_new() {
    let pages = [page(&[("Storm ", 106), ("Regn <b>i</b> syd ", 107)]), page(&[("Val ", 110)])];
    let mut first = Listing::begin(None);
    for raw in &pages {
        first.page(raw).unwrap();
    }
    let kept = first.finish();
    let mut second = Listing::begin(Some(&kept));
    for raw in &pages {
        let topics = second.page(raw).unwrap();
        assert!(!topics.is_empty());
        assert!(topics.iter().all(|t| !t.is_new));
    }
    assert_eq!(second.finish(), kept);
}

#[test]
fn a_title_is_new_against_the_listing_before_only() {
    let mut listing = Listing::begin(Some("Storm \nRegn \n"));
    let one = listing.page(&page(&[("Val ", 110), ("Storm ", 106)])).unwrap();
    // a title met earlier in this same listing is still unknown to it
    let two = listing.page(&page(&[("Val ", 111)])).unwrap();
    assert_eq!(marks(&one), vec![mark("Val ", true), mark("Storm ", false)]);
    assert_eq!(marks(&two), vec![mark("Val ", true)]);
}

#[test]
fn the_kept_text_replaces_the_earlier_one() {
    let mut listing = Listing::begin(Some("Storm \nRegn \n"));
    listing.page(&page(&[("Val ", 110)])).unwrap();
    let kept = listing.finish();
    assert_eq!(kept, "Val \n");
    let mut next = Listing::begin(Some(&kept));
    let topics = next.page(&page(&[("Storm ", 106), ("Val ", 110)])).unwrap();
    assert_eq!(marks(&topics), vec![mark("Storm ", true), mark("Val ", false)]);
}

#[test]
fn a_refused_page_adds_no_title() {
    let mut listing = Listing::begin(None);
    listing.page(&page(&[("Storm ", 106)])).unwrap();
    let refused = listing.page("<span class=\"W\">Regn <a href=\"107.html\">107</a></span>\n");
    assert_eq!(refused.err(), Some(ParseError::MissingSeparator));
    listing.page(&page(&[("Val ", 110)])).unwrap();
    assert_eq!(listing.finish(), "Storm \nVal \n");
}

#[test]
fn a_listing_without_topics_keeps_an_empty_text() {
    let mut listing = Listing::begin(Some("Storm \n"));
    assert_eq!(listing.page(HEADER).map(|t| t.len()), Ok(0));
    assert_eq!(listing.finish(), "");
}

#[test]
fn an_empty_title_counts_as_known_after_a_kept_text() {
    let mut listing = Listing::begin(Some("Storm \n"));
    let topics = listing.page(&page(&[("", 106), ("<b></b>  ", 107)])).unwrap();
    assert_eq!(marks(&topics), vec![mark("", false), mark("", false)]);
    let mut fresh = Listing::begin(None);
    let topics = fresh.page(&page(&[("", 106)])).unwrap();
    assert_eq!(marks(&topics), vec![mark("", true)]);
}
