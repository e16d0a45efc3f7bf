use hunger::extractor::{
    entities_from_matches, first_element_text, links_from_resolved, nonempty_element_texts,
};
use hunger::novelty::tokens_from_classes;

fn strings(values: &[&str]) -> Vec<String> {
    values.iter().map(|v| v.to_string()).collect()
}

#[test]
fn element_texts_are_joined_collapsed_and_blanks_dropped() {
    let elements = vec![
        strings(&["Hello ", "\n world"]),
        strings(&["   "]),
        Vec::new(),
        strings(&["a", "b"]),
    ];
    assert_eq!(nonempty_element_texts(&elements), vec!["Hello world", "a b"]);
    assert_eq!(first_element_text(&elements), Some("Hello world".to_string()));
    assert_eq!(first_element_text(&vec![strings(&[" "]), strings(&["x"])]), None);
    assert_eq!(first_element_text(&Vec::new()), None);
}

#[test]
fn entities_are_trimmed_long_enough_and_distinct() {
    let matches = strings(&[" Ada ", "Ada", "Al", "Grace Hopper", "Ada"]);
    assert_eq!(entities_from_matches(&matches), vec!["Ada", "Grace Hopper"]);
    let many: Vec<String> = (0..25).map(|i| format!("Name{i:02}")).collect();
    let found = entities_from_matches(&many);
    assert_eq!(found.len(), 20);
    assert_eq!(found[19], "Name19");
}

#[test]
fn resolved_links_keep_http_targets_only() {
    let elements = vec![
        (Some("/a".to_string()), strings(&["  first ", "link"])),
        (Some("mailto:x".to_string()), strings(&["mail"])),
        (None, strings(&["no href"])),
        (Some("bad".to_string()), strings(&["unresolved"])),
        (Some("https://o/".to_string()), strings(&[])),
    ];
    let resolutions = vec![
        Some(("https".to_string(), "https://e/a".to_string())),
        Some(("mailto".to_string(), "mailto:x".to_string())),
        Some(("https".to_string(), "https://ignored/".to_string())),
        None,
        Some(("http".to_string(), "http://o/".to_string())),
    ];
    let links = links_from_resolved(&elements, &resolutions);
    let got: Vec<(String, String)> = links.into_iter().map(|l| (l.url, l.anchor)).collect();
    assert_eq!(
        got,
        vec![
            ("https://e/a".to_string(), "first link".to_string()),
            ("http://o/".to_string(), String::new()),
        ]
    );
}

#[test]
fn at_most_sixty_four_links() {
    let elements: Vec<(Option<String>, Vec<String>)> =
        (0..70).map(|i| (Some(format!("/{i}")), strings(&["x"]))).collect();
    let resolutions: Vec<Option<(String, String)>> = (0..70)
        .map(|i| Some(("https".to_string(), format!("https://e/{i}"))))
        .collect();
    let links = links_from_resolved(&elements, &resolutions);
    assert_eq!(links.len(), 64);
    assert_eq!(links[63].url, "https://e/63");
}

#[test]
fn tokens_split_where_marked() {
    let text = "ab-cdef ghij";
    let classes: Vec<bool> = text.chars().map(|c| c != '-' && c != ' ').collect();
    assert_eq!(tokens_from_classes(text, &classes), vec!["cdef", "ghij"]);
    let all_split: Vec<bool> = text.chars().map(|_| false).collect();
    assert!(tokens_from_classes(text, &all_split).is_empty());
    let none_split: Vec<bool> = text.chars().map(|_| true).collect();
    assert_eq!(tokens_from_classes(text, &none_split), vec!["ab-cdef ghij"]);
}
