use texttv::cache::{decode_cache, encode_cache, TitleSet};

fn strings(items: &[&str]) -> Vec<String> {
    items.iter().map(|s| s.to_string()).collect()
}

#[test]
fn titles_are_kept_one_to_a_line() {
    assert_eq!(encode_cache(&strings(&["Storm i norr", "Regn i syd"])), "Storm i norr\nRegn i syd\n");
    assert_eq!(encode_cache(&strings(&["a"])), "a\n");
    assert_eq!(encode_cache(&strings(&[])), "");
    assert_eq!(encode_cache(&strings(&["", "b", ""])), "\nb\n\n");
}

#[test]
fn titles_are_kept_in_fetch_order_with_repeats() {
    assert_eq!(encode_cache(&strings(&["b", "a", "b"])), "b\na\nb\n");
}

#[test]
fn reading_back_gives_the_titles_written() {
    let titles = strings(&["Storm i norr............", "Regn i syd", "R\u{e4}ksm\u{f6}rg\u{e5}s ", "Regn i syd"]);
    let known = decode_cache(&encode_cache(&titles));
    for title in &titles {
        assert!(known.contains(title));
    }
    assert!(known.contains(&String::new()));
    assert_eq!(known.len(), 4);
    assert!(!known.contains(&"Regn i syd ".to_string()));
    assert!(!known.contains(&"regn i syd".to_string()));
    assert!(!known.contains(&"Storm".to_string()));
}

#[test]
fn the_trailing_empty_entry_leaves_real_titles_alone() {
    let known = decode_cache("Storm\nRegn\n");
    assert_eq!(known.len(), 3);
    assert!(known.contains(&"Storm".to_string()));
    assert!(known.contains(&"Regn".to_string()));
    assert!(known.contains(&"".to_string()));
    assert!(!known.contains(&"Storm\n".to_string()));
    assert!(!known.contains(&" ".to_string()));
}

#[test]
fn an_empty_file_holds_the_empty_title_only() {
    let known = decode_cache("");
    assert_eq!(known.len(), 1);
    assert!(known.contains(&"".to_string()));
}

#[test]
fn a_file_without_final_line_feed_is_read_too() {
    let known = decode_cache("Storm\nRegn");
    assert_eq!(known.len(), 2);
    assert!(known.contains(&"Regn".to_string()));
    assert!(!known.contains(&"".to_string()));
}

#[test]
fn carriage_returns_belong_to_the_title() {
    let known = decode_cache("Storm\r\nRegn\r\n");
    assert!(known.contains(&"Storm\r".to_string()));
    assert!(!known.contains(&"Storm".to_string()));
}

#[test]
fn a_title_with_a_line_feed_does_not_read_back() {
    let known = decode_cache(&encode_cache(&strings(&["two\nlines"])));
    assert!(!known.contains(&"two\nlines".to_string()));
    assert!(known.contains(&"two".to_string()));
    assert!(known.contains(&"lines".to_string()));
}

#[test]
fn a_title_set_holds_each_title_once() {
    let mut set = TitleSet::new();
    assert_eq!(set.len(), 0);
    assert!(!set.contains(&"a".to_string()));
    set.insert("a".to_string());
    set.insert("b".to_string());
    set.insert("a".to_string());
    assert_eq!(set.len(), 2);
    assert!(set.contains(&"a".to_string()));
    assert!(set.contains(&"b".to_string()));
    assert!(!set.contains(&"A".to_string()));
    assert!(!set.contains(&"".to_string()));
}
