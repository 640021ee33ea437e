use scrapy::{CssSelector, PageExtractor};

#[test]
fn extracts_inner_html_of_matches() {
    let extractor = PageExtractor::new(&vec!["p".to_string()]).ok().unwrap();
    let items = extractor.extract("<html><body><p>one</p><div><p><b>two</b></p></div></body></html>");
    assert_eq!(items, vec!["one".to_string(), "<b>two</b>".to_string()]);
}

#[test]
fn body_selector_takes_the_whole_body() {
    let extractor = PageExtractor::new(&vec!["body".to_string()]).ok().unwrap();
    let items = extractor.extract("<html><body><h1>T</h1></body></html>");
    assert_eq!(items, vec!["<h1>T</h1>".to_string()]);
}

#[test]
fn selectors_are_applied_in_turn() {
    let extractor = PageExtractor::new(&vec!["span".to_string(), "h1".to_string()]).ok().unwrap();
    let items = extractor.extract("<body><h1>head</h1><span>a</span><span>b</span></body>");
    assert_eq!(items, vec!["a".to_string(), "b".to_string(), "head".to_string()]);
}

#[test]
fn no_match_gives_no_items() {
    let extractor = PageExtractor::new(&vec!["table".to_string()]).ok().unwrap();
    assert!(extractor.extract("<p>x</p>").is_empty());
}

#[test]
fn invalid_selector_is_reported_by_position() {
    let result = PageExtractor::new(&vec!["p".to_string(), "div[".to_string(), "??".to_string()]);
    assert!(matches!(result, Err(1)));
    assert!(CssSelector::parse("a > b").is_some());
    assert!(CssSelector::parse(">>").is_none());
}
