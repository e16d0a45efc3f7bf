use hunger::config::{clean_seed_urls, normalize_llm_base_url, resolve_database_url, EditableSettings};
use hunger::extractor::{extract_links, extract_page, normalize_whitespace};
use hunger::llm::{clamp_novelty, compact_text, extract_json_object};
use hunger::models::{LlmNovelty, OutboundLink};
use hunger::novelty::{select_links, token_set};
use hunger::settings::PartialEditableSettings;
use hunger::ui::truncate;

#[test]
fn normalizing_twice_changes_nothing() {
    for url in ["192.168.0.203:1234/v1", " https://host/v1// ", "http://x/"] {
        let once = normalize_llm_base_url(url);
        assert_eq!(normalize_llm_base_url(&once), once);
    }
    for db in ["", "sqlite://hunger.db?mode=rwc", "crawl.db", "postgres://h/db", "sqlite:///abs.db"] {
        let once = resolve_database_url(db, "/opt/hunger");
        assert_eq!(resolve_database_url(&once, "/opt/hunger"), once);
    }
    let seeds = clean_seed_urls(&vec![" a ".to_string(), "".to_string(), "b".to_string()]);
    assert_eq!(clean_seed_urls(&seeds), seeds);
    let text = normalize_whitespace(" a  b \n c ");
    assert_eq!(normalize_whitespace(&text), text);
}

#[test]
fn normalized_settings_are_stable() {
    let editable = EditableSettings {
        bind_addr: " 0.0.0.0:80 ".to_string(),
        database_url: "data.db".to_string(),
        seed_urls: vec![" https://a ".to_string(), " ".to_string()],
        llm_base_url: "localhost:1234/v1/".to_string(),
        llm_api_key: "k".to_string(),
        llm_model: " m ".to_string(),
        embedding_model: Some(" e ".to_string()),
        page_semantic_map_enabled: true,
        llm_semantic_map_enabled: true,
        semantic_axes: Vec::new(),
        request_timeout_secs: 0,
        llm_timeout_secs: 0,
        crawl_idle_ms: 0,
        max_links_per_page: 0,
        expand_threshold: 2.0f32.to_bits(),
        sample_threshold: (-1.0f32).to_bits(),
    };
    let once = editable.normalized("/opt/hunger");
    let twice = once.normalized("/opt/hunger");
    assert_eq!(twice.bind_addr, once.bind_addr);
    assert_eq!(twice.database_url, once.database_url);
    assert_eq!(twice.seed_urls, once.seed_urls);
    assert_eq!(twice.llm_base_url, once.llm_base_url);
    assert_eq!(twice.llm_model, once.llm_model);
    assert_eq!(twice.embedding_model, once.embedding_model);
    assert_eq!(twice.request_timeout_secs, once.request_timeout_secs);
    assert_eq!(twice.crawl_idle_ms, once.crawl_idle_ms);
    assert_eq!(twice.max_links_per_page, once.max_links_per_page);
    assert_eq!(twice.expand_threshold, once.expand_threshold);
    assert_eq!(twice.sample_threshold, once.sample_threshold);
}

#[test]
fn merging_an_empty_file_is_identity_and_merging_twice_is_once() {
    let base = EditableSettings {
        bind_addr: "127.0.0.1:3000".to_string(),
        database_url: "sqlite://hunger.db?mode=rwc".to_string(),
        seed_urls: Vec::new(),
        llm_base_url: "http://localhost:1234/v1".to_string(),
        llm_api_key: "lm-studio".to_string(),
        llm_model: "m".to_string(),
        embedding_model: None,
        page_semantic_map_enabled: true,
        llm_semantic_map_enabled: false,
        semantic_axes: Vec::new(),
        request_timeout_secs: 20,
        llm_timeout_secs: 75,
        crawl_idle_ms: 1500,
        max_links_per_page: 6,
        expand_threshold: 0.55f32.to_bits(),
        sample_threshold: 0.3f32.to_bits(),
    };
    let same = PartialEditableSettings::default().merge(base.clone());
    assert_eq!(same.llm_model, base.llm_model);
    let saved = PartialEditableSettings {
        llm_model: Some("x".to_string()),
        crawl_idle_ms: Some(10),
        ..Default::default()
    };
    let once = saved.clone().merge(base);
    let twice = saved.merge(once.clone());
    assert_eq!(twice.llm_model, once.llm_model);
    assert_eq!(twice.crawl_idle_ms, once.crawl_idle_ms);
}

#[test]
fn clamping_is_idempotent_and_lands_in_unit_range() {
    for x in [-5.0f32, -0.0, 0.0, 0.5, 1.0, 3.0, f32::INFINITY, f32::NEG_INFINITY] {
        let mut once = LlmNovelty { entity_novelty: x.to_bits(), ..LlmNovelty::fallback() };
        clamp_novelty(&mut once);
        let value = f32::from_bits(once.entity_novelty);
        assert!((0.0..=1.0).contains(&value));
        let mut twice = once.clone();
        clamp_novelty(&mut twice);
        assert_eq!(twice.entity_novelty, once.entity_novelty);
    }
}

#[test]
fn shortened_texts_are_bounded() {
    let long = "word ".repeat(100);
    assert!(compact_text(&long, 10).chars().count() <= 13);
    assert!(truncate(&long, 10).chars().count() <= 13);
    assert_eq!(compact_text("short text", 40), "short text");
}

#[test]
fn extracted_json_parses() {
    for reply in [
        "{\"a\": 1}",
        "prose {\"a\": {\"b\": \"}\"}} tail",
        "```json\n{\"a\": 2}\n```",
        "no json here",
        "{broken",
    ] {
        if let Some(found) = extract_json_object(reply) {
            assert!(serde_json::from_str::<serde_json::Value>(&found).is_ok());
        }
    }
    assert_eq!(extract_json_object("  {\"a\": 1}  ").as_deref(), Some("{\"a\": 1}"));
}

#[test]
fn digests_are_bounded_and_links_are_http() {
    let body = (0..30)
        .map(|i| format!("<p>Sentence number {i} has quite a few words inside it.</p><a href=\"/p{i}\">x</a>"))
        .collect::<String>();
    let links = (0..70).map(|i| format!("<a href=\"ftp://h/{i}\">f</a><a href=\"/q{i}\">q</a>")).collect::<String>();
    let html = format!("<html><body>{body}{links}</body></html>");
    let digest = extract_page("https://example.com/", &html);
    assert!(digest.key_points.len() <= 5);
    assert!(digest.claims.len() <= 6);
    assert!(digest.entities.len() <= 20);
    assert_eq!(digest.outbound_links.len(), 64);
    assert!(digest
        .outbound_links
        .iter()
        .all(|l| l.url.starts_with("http://") || l.url.starts_with("https://")));
    assert!(extract_links(&html, "https://example.com/").iter().all(|l| !l.url.starts_with("ftp")));
}

#[test]
fn tokens_are_distinct() {
    let tokens = token_set("Repeat repeat REPEAT other Other");
    assert_eq!(tokens, vec!["repeat", "other"]);
}

#[test]
fn link_selection_is_deterministic() {
    let mut digest = extract_page("https://example.com/", "<p>x</p>");
    digest.outbound_links = (0..5)
        .map(|i| OutboundLink { url: format!("https://example.com/{i}"), anchor: String::new() })
        .collect();
    let scores: Vec<u32> = [0.3f32, 0.3, 0.9, 0.1, 0.3].iter().map(|v| v.to_bits()).collect();
    let first = select_links(&digest, 0.9f32.to_bits(), &scores, 4);
    let second = select_links(&digest, 0.9f32.to_bits(), &scores, 4);
    let urls = |links: &Vec<OutboundLink>| links.iter().map(|l| l.url.clone()).collect::<Vec<_>>();
    assert_eq!(urls(&first), urls(&second));
    assert_eq!(
        urls(&first),
        vec![
            "https://example.com/2",
            "https://example.com/0",
            "https://example.com/1",
            "https://example.com/4"
        ]
    );
}
