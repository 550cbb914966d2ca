use texttv::markup::{clean, strip_tags, trim_start};

#[test]
fn tags_are_taken_out() {
    assert_eq!(strip_tags("Storm <b>i</b> norr"), "Storm i norr");
    assert_eq!(strip_tags("<span class=\"Y\">Nyheter</span>"), "Nyheter");
    assert_eq!(strip_tags("<><>"), "");
    assert_eq!(strip_tags("no tags"), "no tags");
    assert_eq!(strip_tags(""), "");
}

#[test]
fn a_tag_ends_at_the_nearest_closing_bracket() {
    assert_eq!(strip_tags("a<b<c>d>e"), "ad>e");
    assert_eq!(strip_tags("a <<b>> c"), "a > c");
    assert_eq!(strip_tags("1 > 0 <i>yes</i>"), "1 > 0 yes");
}

#[test]
fn an_unclosed_bracket_stays() {
    assert_eq!(strip_tags("a < b"), "a < b");
    assert_eq!(strip_tags("<b>a</b> < b"), "a < b");
    assert_eq!(strip_tags("<"), "<");
    assert_eq!(strip_tags("x<<<"), "x<<<");
}

#[test]
fn leading_white_space_is_trimmed() {
    assert_eq!(trim_start("  x"), "x");
    assert_eq!(trim_start("\t\r\n x y "), "x y ");
    assert_eq!(trim_start("\u{a0}\u{2003}\u{3000}x"), "x");
    assert_eq!(trim_start("x  "), "x  ");
    assert_eq!(trim_start("   "), "");
    assert_eq!(trim_start(""), "");
    assert_eq!(trim_start("\u{200b}x"), "\u{200b}x");
}

#[test]
fn cleaning_strips_first_and_trims_then() {
    assert_eq!(clean("  <b> Storm</b> i norr "), "Storm i norr ");
    assert_eq!(clean("<i>  </i>  "), "");
    assert_eq!(clean(" < a"), "< a");
}

#[test]
fn stripping_is_idempotent() {
    let samples = [
        "",
        "plain",
        "Storm <b>i</b> norr",
        "a<b<c>d>e",
        "a <<b>> c",
        "> < > <",
        "<<<>>>",
        "  <b>  x</b>",
        "a < b",
        "<a href=\"100.html\">100</a>",
        "\u{a0}<x>\u{a0}<",
    ];
    for s in samples {
        let once = strip_tags(s);
        assert_eq!(strip_tags(&once), once, "sample {:?}", s);
        let shown = clean(s);
        assert_eq!(clean(&shown), shown, "sample {:?}", s);
        let trimmed = trim_start(s);
        assert_eq!(trim_start(&trimmed), trimmed, "sample {:?}", s);
    }
}
