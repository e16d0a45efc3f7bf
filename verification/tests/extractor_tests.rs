use hunger::extractor::{
    extract_entities, extract_links, extract_page, normalize_whitespace, split_sentences,
    word_count,
};

const BASIC_PAGE: &str = r#"
        <html>
          <head><title>Test Page</title></head>
          <body>
            <main>
              <p>Novel findings appear in this sentence with enough detail to count.</p>
              <p>Another useful sentence describes a second distinct fact for the digest.</p>
            </main>
            <a href="/next">Read more</a>
          </body>
        </html>
        "#;

const FIRST: &str = "Novel findings appear in this sentence with enough detail to count";
const SECOND: &str = "Another useful sentence describes a second distinct fact for the digest";

#[test]
fn extracts_basic_page_shape() {
    let digest = extract_page("https://example.com/start", BASIC_PAGE);
    assert_eq!(digest.title, "Test Page");
    assert_eq!(digest.outbound_links.len(), 1);
    assert!(!digest.short_summary.is_empty());
}

#[test]
fn digest_of_basic_page_in_full() {
    let digest = extract_page("https://example.com/start", BASIC_PAGE);
    let text = format!("{FIRST}. {SECOND}. {FIRST}. {SECOND}.");
    assert_eq!(digest.url, "https://example.com/start");
    assert_eq!(digest.domain, "example.com");
    assert_eq!(digest.clean_text, text);
    assert_eq!(digest.short_summary, format!("{FIRST} {SECOND} {FIRST}"));
    assert_eq!(digest.key_points, vec![FIRST, SECOND, FIRST, SECOND]);
    assert_eq!(digest.claims, vec![FIRST, SECOND, FIRST, SECOND]);
    assert_eq!(digest.entities, vec!["Novel", "Another"]);
    assert_eq!(digest.outbound_links[0].url, "https://example.com/next");
    assert_eq!(digest.outbound_links[0].anchor, "Read more");
    assert_eq!(
        digest.content_hash,
        "c742c89f725c754df58618c293523f96cc4770e969eb0086316997b26a71edf4"
    );
}

#[test]
fn untitled_page_is_named_by_its_url_and_falls_back_to_body_text() {
    let html = "<html><body><div>just   some words</div></body></html>";
    let digest = extract_page("https://example.org/x", html);
    assert_eq!(digest.title, "https://example.org/x");
    assert_eq!(digest.clean_text, "just some words");
    assert!(digest.key_points.is_empty());
    assert_eq!(digest.short_summary, "");
}

#[test]
fn content_hash_is_sha256_of_the_text() {
    let digest = extract_page("https://example.org/", "<p>hello world</p>");
    assert_eq!(digest.clean_text, "hello world");
    assert_eq!(
        digest.content_hash,
        "b94d27b9934d3e08a52e52d7da7dabfac484efe37a5380ee9088f7ace2efcde9"
    );
}

#[test]
fn whitespace_is_collapsed() {
    assert_eq!(normalize_whitespace("  a \n\t b  c "), "a b c");
    assert_eq!(normalize_whitespace("   "), "");
    assert_eq!(word_count(" one two\tthree\n"), 3);
}

#[test]
fn short_fragments_are_not_sentences() {
    let text = "Too short. This sentence has exactly six words! What about this one here now? tail";
    assert_eq!(
        split_sentences(text),
        vec![
            "This sentence has exactly six words",
            "What about this one here now"
        ]
    );
}

#[test]
fn entities_are_distinct_capitalized_runs() {
    assert_eq!(
        extract_entities("Ada Lovelace met Charles Babbage. Ada Lovelace wrote notes. An ox."),
        vec!["Ada Lovelace", "Charles Babbage"]
    );
}

#[test]
fn links_are_resolved_and_non_http_dropped() {
    let html = r#"<a href="b/c">  Next   page </a><a href="mailto:x@y.z">mail</a><a href="https://other.org/">Other</a><a>none</a>"#;
    let links = extract_links(html, "https://example.com/a/");
    assert_eq!(links.len(), 2);
    assert_eq!(links[0].url, "https://example.com/a/b/c");
    assert_eq!(links[0].anchor, "Next page");
    assert_eq!(links[1].url, "https://other.org/");
    assert!(extract_links(html, "not a url").is_empty());
}

#[test]
fn domain_of_the_page_url() {
    let page = extract_page("https://www.example.com:8080/p?q=1", "<p>x</p>");
    assert_eq!(page.domain, "www.example.com");
    assert_eq!(extract_page("http://127.0.0.1/", "<p>x</p>").domain, "");
    assert_eq!(extract_page("nonsense", "<p>x</p>").domain, "");
}
