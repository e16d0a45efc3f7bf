use hunger::extractor::extract_page;
use hunger::models::OutboundLink;
use hunger::novelty::{select_links, token_set};

#[test]
fn tokens_are_long_lowered_and_distinct() {
    assert_eq!(
        token_set("Alpha beta, GAMMA-delta; alpha ALPHA epsilon42 a"),
        vec!["alpha", "beta", "gamma", "delta", "epsilon42"]
    );
}

#[test]
fn short_and_empty_texts_have_no_tokens() {
    assert!(token_set("").is_empty());
    assert!(token_set("a bc def, !!").is_empty());
}

#[test]
fn non_ascii_letters_are_kept_but_not_lowered() {
    assert_eq!(token_set("Ärger über Straße"), vec!["Ärger", "über", "straße"]);
}

fn page_with_links(n: usize) -> hunger::extractor::PageDigest {
    let mut digest = extract_page("https://example.com/", "<p>x</p>");
    digest.outbound_links = (0..n)
        .map(|i| OutboundLink {
            url: format!("https://example.com/{i}"),
            anchor: format!("link {i}"),
        })
        .collect();
    digest
}

fn urls(links: &[OutboundLink]) -> Vec<String> {
    links.iter().map(|l| l.url.clone()).collect()
}

#[test]
fn high_energy_follows_best_links_first() {
    let digest = page_with_links(4);
    let scores: Vec<u32> = [0.2f32, 0.9, 0.5, 0.9].iter().map(|v| v.to_bits()).collect();
    let chosen = select_links(&digest, 0.8f32.to_bits(), &scores, 3);
    assert_eq!(
        urls(&chosen),
        vec![
            "https://example.com/1",
            "https://example.com/3",
            "https://example.com/2"
        ]
    );
    assert_eq!(chosen[0].anchor, "link 1");
}

#[test]
fn energy_sets_the_expansion_budget() {
    let digest = page_with_links(5);
    let scores: Vec<u32> = [0.1f32, 0.2, 0.3, 0.4, 0.5].iter().map(|v| v.to_bits()).collect();
    assert_eq!(select_links(&digest, 0.75f32.to_bits(), &scores, 4).len(), 4);
    assert_eq!(select_links(&digest, 0.5f32.to_bits(), &scores, 4).len(), 2);
    assert_eq!(select_links(&digest, 0.5f32.to_bits(), &scores, 1).len(), 1);
    assert_eq!(select_links(&digest, 0.3f32.to_bits(), &scores, 4).len(), 1);
    assert!(select_links(&digest, 0.2f32.to_bits(), &scores, 4).is_empty());
    assert!(select_links(&digest, f32::NAN.to_bits(), &scores, 4).is_empty());
    assert_eq!(
        urls(&select_links(&digest, 0.3f32.to_bits(), &scores, 4)),
        vec!["https://example.com/4"]
    );
}

#[test]
fn no_links_means_nothing_selected() {
    let digest = page_with_links(0);
    assert!(select_links(&digest, 1.0f32.to_bits(), &Vec::new(), 6).is_empty());
}

use hunger::models::LinkHint;
use hunger::novelty::{
    content_delta_changed, link_domain_novelty, link_features, token_novelty, token_overlap,
    AnchorPromise, Destination,
};

fn strings(values: &[&str]) -> Vec<String> {
    values.iter().map(|v| v.to_string()).collect()
}

#[test]
fn new_tokens_are_counted_against_recent_summaries() {
    let recent = strings(&["alpha beta gamma", "older notes"]);
    assert_eq!(
        token_novelty("alpha beta gamma delta epsilon zeta", &recent),
        (3, 6)
    );
    assert_eq!(token_novelty("", &recent), (0, 0));
    assert_eq!(token_novelty("Alpha alpha notes", &Vec::new()), (2, 2));
}

#[test]
fn token_overlap_gives_shared_and_exclusive_counts() {
    let overlap = token_overlap("alpha beta gamma", "beta gamma delta epsilon");
    assert_eq!(overlap.left_total, 3);
    assert_eq!(overlap.shared, 2);
    assert_eq!(overlap.right_only, 2);
    let none = token_overlap("", "beta");
    assert_eq!((none.shared, none.left_total, none.right_only), (0, 0, 1));
}

#[test]
fn linked_domains_not_seen_recently_are_new() {
    let links = vec![
        OutboundLink { url: "https://a.org/x".to_string(), anchor: String::new() },
        OutboundLink { url: "https://a.org/y".to_string(), anchor: String::new() },
        OutboundLink { url: "https://b.org/".to_string(), anchor: String::new() },
        OutboundLink { url: "http://10.0.0.1/".to_string(), anchor: String::new() },
    ];
    assert_eq!(link_domain_novelty(&links, &strings(&["b.org"])), (1, 2));
    assert_eq!(link_domain_novelty(&links, &Vec::new()), (2, 2));
    assert_eq!(link_domain_novelty(&Vec::new(), &strings(&["b.org"])), (0, 0));
}

#[test]
fn content_changes_against_the_first_snapshot_of_the_url() {
    let urls = strings(&["https://a", "https://b", "https://a"]);
    let hashes = strings(&["h1", "h2", "h3"]);
    assert!(!content_delta_changed("https://a", "h1", &urls, &hashes));
    assert!(content_delta_changed("https://a", "h3", &urls, &hashes));
    assert!(!content_delta_changed("https://b", "h2", &urls, &hashes));
    assert!(content_delta_changed("https://c", "h1", &urls, &hashes));
}

#[test]
fn link_features_read_hints_anchor_domain_and_spam() {
    let hints = vec![
        LinkHint { link_url: "https://a.org/x".to_string(), reason: String::new(), priority: 0.8f32.to_bits() },
        LinkHint { link_url: "https://a.org/x".to_string(), reason: String::new(), priority: 0.1f32.to_bits() },
    ];
    let link = OutboundLink { url: "https://a.org/x".to_string(), anchor: "Read more".to_string() };
    let features = link_features("a.org", &link, &hints);
    assert_eq!(features.hint_priority, Some(0.8f32.to_bits()));
    assert_eq!(features.anchor, AnchorPromise::Descriptive);
    assert_eq!(features.destination, Destination::SameDomain);
    assert!(!features.spammy);

    let login = OutboundLink { url: "https://b.org/login".to_string(), anchor: " ".to_string() };
    let features = link_features("a.org", &login, &Vec::new());
    assert_eq!(features.hint_priority, None);
    assert_eq!(features.anchor, AnchorPromise::Terse);
    assert_eq!(features.destination, Destination::OtherDomain);
    assert!(features.spammy);

    let bare = OutboundLink { url: "not a url signup".to_string(), anchor: String::new() };
    let features = link_features("a.org", &bare, &hints);
    assert_eq!(features.anchor, AnchorPromise::Missing);
    assert_eq!(features.destination, Destination::Unknown);
    assert!(features.spammy);
}
