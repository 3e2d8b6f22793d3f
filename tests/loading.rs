use wikipath::graph::Wikipedia;
use wikipath::load::{parse_link_line, parse_page_line, LoadError};

fn lines(text: &[&str]) -> Vec<String> {
    text.iter().map(|l| l.to_string()).collect()
}

#[test]
fn page_line_reads_id_and_title() {
    assert_eq!(parse_page_line("12 Tokyo"), Some((12, "Tokyo".to_string())));
    assert_eq!(parse_page_line("  -7\tTitle extra"), Some((-7, "Title".to_string())));
    assert_eq!(parse_page_line("+5 日本"), Some((5, "日本".to_string())));
}

#[test]
fn page_line_rejects_malformed_input() {
    assert_eq!(parse_page_line(""), None);
    assert_eq!(parse_page_line("12"), None);
    assert_eq!(parse_page_line("12   "), None);
    assert_eq!(parse_page_line("x Tokyo"), None);
    assert_eq!(parse_page_line("1x Tokyo"), None);
    assert_eq!(parse_page_line("- Tokyo"), None);
}

#[test]
fn link_line_reads_two_ids() {
    assert_eq!(parse_link_line("1 2"), Some((1, 2)));
    assert_eq!(parse_link_line(" 30\t-4 9"), Some((30, -4)));
}

#[test]
fn link_line_rejects_malformed_input() {
    assert_eq!(parse_link_line("1"), None);
    assert_eq!(parse_link_line("1 b"), None);
    assert_eq!(parse_link_line(""), None);
}

#[test]
fn id_range_is_that_of_i32() {
    assert_eq!(parse_link_line("2147483647 -2147483648"), Some((2147483647, -2147483648)));
    assert_eq!(parse_link_line("2147483648 1"), None);
    assert_eq!(parse_link_line("1 -2147483649"), None);
    assert_eq!(parse_link_line("99999999999999999999 1"), None);
}

#[test]
fn loaded_graph_answers_queries() {
    let w = Wikipedia::new(
        &lines(&["1 A", "2 B", "3 C", "4 D"]),
        &lines(&["1 2", "2 3", "3 4", "1 3"]),
    )
    .unwrap();
    assert_eq!(
        w.find_shortest_path("A", "D"),
        Ok(Some(vec!["A".to_string(), "C".to_string(), "D".to_string()]))
    );
}

#[test]
fn bad_page_line_is_reported() {
    let r = Wikipedia::new(&lines(&["1 A", "two B", "3"]), &lines(&["1 2"]));
    assert_eq!(r.err(), Some(LoadError::BadPageLine(1)));
}

#[test]
fn bad_link_line_is_reported() {
    let r = Wikipedia::new(&lines(&["1 A", "2 B"]), &lines(&["1 2", "2"]));
    assert_eq!(r.err(), Some(LoadError::BadLinkLine(1)));
}

#[test]
fn empty_sources_give_an_empty_graph() {
    let w = Wikipedia::new(&Vec::new(), &Vec::new()).unwrap();
    assert!(w.find_shortest_path("A", "A").is_err());
}

#[test]
fn unicode_whitespace_separates_fields() {
    assert_eq!(parse_page_line("5\u{3000}Title"), Some((5, "Title".to_string())));
    assert_eq!(parse_page_line("\u{A0}6\u{2003}T\u{85}x"), Some((6, "T".to_string())));
    assert_eq!(parse_link_line("1\u{202F}2"), Some((1, 2)));
}

#[test]
fn loaded_links_keep_file_order() {
    let w = Wikipedia::new(&lines(&["1 A", "2 B", "3 C"]), &lines(&["1 2", "1 3", "2 3"])).unwrap();
    assert_eq!(
        w.find_shortest_path("A", "B"),
        Ok(Some(vec!["A".to_string(), "B".to_string()]))
    );
    assert_eq!(
        w.find_shortest_path("A", "C"),
        Ok(Some(vec!["A".to_string(), "C".to_string()]))
    );
    assert_eq!(w.find_shortest_path("C", "A"), Ok(None));
}

#[test]
fn loaded_tie_follows_link_line_order() {
    let w = Wikipedia::new(
        &lines(&["1 A", "2 B", "3 C", "4 D"]),
        &lines(&["1 3", "1 2", "2 4", "3 4"]),
    )
    .unwrap();
    assert_eq!(
        w.find_shortest_path("A", "D"),
        Ok(Some(vec!["A".to_string(), "C".to_string(), "D".to_string()]))
    );
}
