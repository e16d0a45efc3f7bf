use hunger::config::{
    clean_model_name, clean_seed_urls, default_database_url, flag_setting,
    normalize_llm_base_url, resolve_database_url, resolve_settings_path, split_seed_urls,
    EditableSettings,
};

#[test]
fn prefixes_http_when_scheme_is_missing() {
    assert_eq!(
        normalize_llm_base_url("192.168.0.203:1234/v1"),
        "http://192.168.0.203:1234/v1"
    );
}

#[test]
fn sqlite_defaults_use_executable_directory() {
    let dir = "/tmp/hunger-bin";
    assert_eq!(
        default_database_url(dir),
        "sqlite:///tmp/hunger-bin/hunger.db?mode=rwc"
    );
    assert_eq!(
        resolve_settings_path("hunger.settings.json", dir),
        "/tmp/hunger-bin/hunger.settings.json"
    );
}

#[test]
fn relative_sqlite_urls_are_rebased_to_executable_directory() {
    let dir = "/opt/hunger";
    assert_eq!(
        resolve_database_url("sqlite://hunger.db?mode=rwc", dir),
        "sqlite:///opt/hunger/hunger.db?mode=rwc"
    );
    assert_eq!(
        resolve_database_url("crawl-data.db", dir),
        "sqlite:///opt/hunger/crawl-data.db?mode=rwc"
    );
}

#[test]
fn base_url_keeps_scheme_and_drops_trailing_slashes() {
    assert_eq!(normalize_llm_base_url("  https://api.example.com/v1// "), "https://api.example.com/v1");
    assert_eq!(normalize_llm_base_url("http://localhost:1234/v1/"), "http://localhost:1234/v1");
}

#[test]
fn database_urls_of_other_engines_pass_through() {
    assert_eq!(resolve_database_url(" postgres://db/crawl ", "/opt"), "postgres://db/crawl");
    assert_eq!(resolve_database_url("mysql://db/crawl", "/opt"), "mysql://db/crawl");
    assert_eq!(resolve_database_url("", "/opt"), "sqlite:///opt/hunger.db?mode=rwc");
    assert_eq!(resolve_database_url("/var/lib/h.db", "/opt"), "sqlite:///var/lib/h.db?mode=rwc");
    assert_eq!(resolve_database_url("sqlite:///abs/x.db", "/opt"), "sqlite:///abs/x.db");
    assert_eq!(resolve_database_url("sqlite://x.db?", "/opt/"), "sqlite:///opt/x.db");
}

#[test]
fn settings_paths_resolve_against_the_executable_directory() {
    assert_eq!(resolve_settings_path("  ", "/opt"), "/opt/hunger.settings.json");
    assert_eq!(resolve_settings_path("/etc/h.json", "/opt"), "/etc/h.json");
}

#[test]
fn seed_lists_are_trimmed_and_blanks_dropped() {
    assert_eq!(
        split_seed_urls(" https://a.example , ,https://b.example,"),
        vec!["https://a.example".to_string(), "https://b.example".to_string()]
    );
    assert_eq!(
        clean_seed_urls(&vec![" x ".to_string(), "".to_string()]),
        vec!["x".to_string()]
    );
    assert!(split_seed_urls("").is_empty());
}

#[test]
fn flags_and_model_names() {
    assert!(flag_setting(Some(" YES "), false));
    assert!(flag_setting(Some("On"), false));
    assert!(!flag_setting(Some("enabled"), true));
    assert!(flag_setting(None, true));
    assert_eq!(clean_model_name(Some("  embed-1 ")), Some("embed-1".to_string()));
    assert_eq!(clean_model_name(Some("   ")), None);
    assert_eq!(clean_model_name(None), None);
}

#[test]
fn edited_settings_are_normalized() {
    let editable = EditableSettings {
        bind_addr: " 127.0.0.1:3000 ".to_string(),
        database_url: "crawl.db".to_string(),
        seed_urls: vec![" https://a.example ".to_string(), " ".to_string()],
        llm_base_url: "localhost:1234/v1/".to_string(),
        llm_api_key: "key".to_string(),
        llm_model: " model ".to_string(),
        embedding_model: Some("  ".to_string()),
        page_semantic_map_enabled: true,
        llm_semantic_map_enabled: false,
        semantic_axes: Vec::new(),
        request_timeout_secs: 0,
        llm_timeout_secs: 30,
        crawl_idle_ms: 5,
        max_links_per_page: 0,
        expand_threshold: 0.55f32.to_bits(),
        sample_threshold: 0.30f32.to_bits(),
    };
    let normalized = editable.normalized("/opt/hunger");
    assert_eq!(normalized.bind_addr, "127.0.0.1:3000");
    assert_eq!(normalized.database_url, "sqlite:///opt/hunger/crawl.db?mode=rwc");
    assert_eq!(normalized.seed_urls, vec!["https://a.example".to_string()]);
    assert_eq!(normalized.llm_base_url, "http://localhost:1234/v1");
    assert_eq!(normalized.llm_model, "model");
    assert_eq!(normalized.embedding_model, None);
    assert_eq!(normalized.request_timeout_secs, 1);
    assert_eq!(normalized.llm_timeout_secs, 30);
    assert_eq!(normalized.crawl_idle_ms, 100);
    assert_eq!(normalized.max_links_per_page, 1);
    assert_eq!(f32::from_bits(normalized.expand_threshold), 0.55);
}

#[test]
fn edited_thresholds_are_clamped() {
    let editable = EditableSettings {
        bind_addr: "127.0.0.1:3000".to_string(),
        database_url: "sqlite:///x.db".to_string(),
        seed_urls: Vec::new(),
        llm_base_url: "http://h".to_string(),
        llm_api_key: String::new(),
        llm_model: "m".to_string(),
        embedding_model: None,
        page_semantic_map_enabled: false,
        llm_semantic_map_enabled: false,
        semantic_axes: Vec::new(),
        request_timeout_secs: 20,
        llm_timeout_secs: 75,
        crawl_idle_ms: 1500,
        max_links_per_page: 6,
        expand_threshold: 1.7f32.to_bits(),
        sample_threshold: (-0.2f32).to_bits(),
    };
    let normalized = editable.normalized("/opt/hunger");
    assert_eq!(f32::from_bits(normalized.expand_threshold), 1.0);
    assert_eq!(f32::from_bits(normalized.sample_threshold), 0.0);
}
