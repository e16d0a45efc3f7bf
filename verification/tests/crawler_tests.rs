use hunger::crawler::{crawl_delay_ms, judgment_embedding_input, page_embedding_input, CrawlStep};
use hunger::crawler::{
    build_embedding_input, check_digest, check_response, should_query_model, FetchRejection,
};
use hunger::extractor::extract_page;
use hunger::models::CheapSignals;

fn signals(distance: f32, tokens: f32, diversity: f32, delta: f32) -> CheapSignals {
    CheapSignals {
        semantic_distance: distance.to_bits(),
        new_token_ratio: tokens.to_bits(),
        domain_redundancy: 0.9f32.to_bits(),
        local_graph_diversity: diversity.to_bits(),
        content_delta_from_last_snapshot: delta.to_bits(),
        boilerplate_penalty: 0.9f32.to_bits(),
    }
}

#[test]
fn model_is_asked_only_for_interesting_pages() {
    assert!(!should_query_model(&signals(0.10, 0.12, 0.25, 0.5)));
    assert!(should_query_model(&signals(0.11, 0.0, 0.0, 0.0)));
    assert!(should_query_model(&signals(0.0, 0.13, 0.0, 0.0)));
    assert!(should_query_model(&signals(0.0, 0.0, 0.26, 0.0)));
    assert!(should_query_model(&signals(0.0, 0.0, 0.0, 0.51)));
    assert!(should_query_model(&signals(f32::INFINITY, 0.0, 0.0, 0.0)));
    assert!(!should_query_model(&signals(f32::NAN, -1.0, -0.0, 0.0)));
}

#[test]
fn only_successful_html_responses_are_read() {
    assert_eq!(check_response(200, "text/html; charset=utf-8"), Ok(()));
    assert_eq!(check_response(299, "TEXT/html"), Err(FetchRejection::UnsupportedContentType("TEXT/html".to_string())));
    assert_eq!(check_response(404, "text/html"), Err(FetchRejection::Status(404)));
    assert_eq!(check_response(301, ""), Err(FetchRejection::Status(301)));
    assert_eq!(
        check_response(200, "application/json"),
        Err(FetchRejection::UnsupportedContentType("application/json".to_string()))
    );
    assert_eq!(
        check_response(200, ""),
        Err(FetchRejection::UnsupportedContentType(String::new()))
    );
}

#[test]
fn empty_digests_are_rejected() {
    let empty = extract_page("https://example.com/", "");
    assert_eq!(check_digest(&empty), Err(FetchRejection::NoUsableText));
    let full = extract_page("https://example.com/", "<p>words</p>");
    assert_eq!(check_digest(&full), Ok(()));
}

#[test]
fn embedding_input_lists_title_summary_points_and_claims() {
    let mut digest = extract_page("https://example.com/", "<title>T</title><p>x</p>");
    digest.short_summary = "S".to_string();
    digest.key_points = (1..=6).map(|i| format!("k{i}")).collect();
    digest.claims = vec!["c1".to_string()];
    assert_eq!(build_embedding_input(&digest), "T\nS\nk1\nk2\nk3\nk4\nc1");
}

#[test]
fn crawl_loop_waits_by_step() {
    assert_eq!(crawl_delay_ms(CrawlStep::Paused, 1500), 180);
    assert_eq!(crawl_delay_ms(CrawlStep::Processed, 1500), 0);
    assert_eq!(crawl_delay_ms(CrawlStep::Empty, 1500), 1500);
    assert_eq!(crawl_delay_ms(CrawlStep::Failed, 250), 250);
}

#[test]
fn embedding_inputs_follow_the_switches() {
    let digest = extract_page("https://example.com/", "<title>T</title><p>x</p>");
    assert_eq!(page_embedding_input(false, &digest), None);
    assert_eq!(page_embedding_input(true, &digest), Some(build_embedding_input(&digest)));

    let judgment = hunger::models::LlmNovelty {
        analysis: "Why".to_string(),
        ..hunger::models::LlmNovelty::fallback()
    };
    assert_eq!(judgment_embedding_input(false, Some(&judgment)), None);
    assert_eq!(judgment_embedding_input(true, None), None);
    let input = judgment_embedding_input(true, Some(&judgment)).unwrap();
    assert!(input.starts_with("Why\n"));
    assert!(input.ends_with("action: sample"));
}
