use hunger::settings::saved_settings_message;
use hunger::config::EditableSettings;
use hunger::models::SemanticAxis;
use hunger::settings::{pending_restart, PartialEditableSettings};

fn base() -> EditableSettings {
    EditableSettings {
        bind_addr: "127.0.0.1:3000".to_string(),
        database_url: "sqlite://hunger.db?mode=rwc".to_string(),
        seed_urls: vec!["https://example.com".to_string()],
        llm_base_url: "http://localhost:1234/v1".to_string(),
        llm_api_key: "lm-studio".to_string(),
        llm_model: "fallback".to_string(),
        embedding_model: None,
        page_semantic_map_enabled: true,
        llm_semantic_map_enabled: false,
        semantic_axes: vec![
            SemanticAxis::default(),
            SemanticAxis::default(),
            SemanticAxis::default(),
        ],
        request_timeout_secs: 20,
        llm_timeout_secs: 75,
        crawl_idle_ms: 1500,
        max_links_per_page: 6,
        expand_threshold: 0.55f32.to_bits(),
        sample_threshold: 0.30f32.to_bits(),
    }
}

#[test]
fn partial_settings_merge_preserves_new_defaults() {
    // The saved file held {"llm_model":"local-a","request_timeout_secs":20}.
    let partial = PartialEditableSettings {
        llm_model: Some("local-a".to_string()),
        request_timeout_secs: Some(20),
        ..Default::default()
    };
    let merged = partial.merge(base());
    assert_eq!(merged.llm_model, "local-a");
    assert_eq!(merged.llm_timeout_secs, 75);
}

#[test]
fn empty_file_keeps_everything() {
    let merged = PartialEditableSettings::default().merge(base());
    assert_eq!(merged.bind_addr, "127.0.0.1:3000");
    assert_eq!(merged.llm_model, "fallback");
    assert_eq!(merged.semantic_axes.len(), 3);
    assert_eq!(merged.expand_threshold, 0.55f32.to_bits());
    assert_eq!(merged.crawl_idle_ms, 1500);
}

#[test]
fn every_saved_field_wins() {
    let partial = PartialEditableSettings {
        bind_addr: Some("0.0.0.0:80".to_string()),
        embedding_model: Some("embed".to_string()),
        page_semantic_map_enabled: Some(false),
        semantic_axes: Some(Vec::new()),
        max_links_per_page: Some(2),
        sample_threshold: Some(0.1f32.to_bits()),
        ..Default::default()
    };
    let merged = partial.merge(base());
    assert_eq!(merged.bind_addr, "0.0.0.0:80");
    assert_eq!(merged.embedding_model, Some("embed".to_string()));
    assert!(!merged.page_semantic_map_enabled);
    assert!(merged.semantic_axes.is_empty());
    assert_eq!(merged.max_links_per_page, 2);
    assert_eq!(merged.sample_threshold, 0.1f32.to_bits());
    assert_eq!(merged.request_timeout_secs, 20);
}

#[test]
fn restart_is_pending_only_for_changed_startup_fields() {
    assert!(pending_restart("a:1", "db", "a:1", "db").is_empty());
    assert_eq!(pending_restart("a:1", "db", "a:2", "db"), vec!["bind_addr"]);
    assert_eq!(
        pending_restart("a:1", "db", "a:2", "db2"),
        vec!["bind_addr", "database_url"]
    );
    assert_eq!(pending_restart("a:1", "db", "a:1", "db2"), vec!["database_url"]);
}

#[test]
fn save_message_names_restart_fields() {
    assert_eq!(
        saved_settings_message(&Vec::new()),
        "Settings saved. Runtime changes are active."
    );
    assert_eq!(
        saved_settings_message(&vec!["bind_addr".to_string(), "database_url".to_string()]),
        "Settings saved. Restart required for: bind_addr, database_url"
    );
}
