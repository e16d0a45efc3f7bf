use hunger::extractor::extract_page;
use hunger::llm::{auth_mode, build_prompt, clamp_novelty, compact_lines};
use hunger::models::{LinkHint, LlmNovelty, OutboundLink, PageBrief};

fn brief(url: &str, title: &str, summary: &str) -> PageBrief {
    PageBrief {
        url: url.to_string(),
        title: title.to_string(),
        summary: summary.to_string(),
    }
}

#[test]
fn auth_mode_follows_the_api_key() {
    assert_eq!(auth_mode(""), "none");
    assert_eq!(auth_mode("lm-studio"), "bearer");
}

#[test]
fn scores_and_priorities_are_clamped_to_the_unit_interval() {
    let mut novelty = LlmNovelty {
        factual_novelty: 1.5f32.to_bits(),
        entity_novelty: (-0.25f32).to_bits(),
        relational_novelty: 0.4f32.to_bits(),
        temporal_novelty: f32::NAN.to_bits(),
        expected_crawl_value: f32::INFINITY.to_bits(),
        recommended_link_hints: vec![LinkHint {
            link_url: "https://example.com".to_string(),
            reason: "why".to_string(),
            priority: 7.0f32.to_bits(),
        }],
        ..LlmNovelty::fallback()
    };
    clamp_novelty(&mut novelty);
    assert_eq!(f32::from_bits(novelty.factual_novelty), 1.0);
    assert_eq!(f32::from_bits(novelty.entity_novelty), 0.0);
    assert_eq!(f32::from_bits(novelty.relational_novelty), 0.4);
    assert!(f32::from_bits(novelty.temporal_novelty).is_nan());
    assert_eq!(f32::from_bits(novelty.expected_crawl_value), 1.0);
    assert_eq!(f32::from_bits(novelty.recommended_link_hints[0].priority), 1.0);
    assert_eq!(novelty.recommended_link_hints[0].reason, "why");
    assert_eq!(novelty.recommended_action, "sample");
    for x in [-3.0f32, -0.0, 0.0, 0.3, 1.0, 2.0, f32::NEG_INFINITY] {
        let mut n = LlmNovelty { factual_novelty: x.to_bits(), ..LlmNovelty::fallback() };
        clamp_novelty(&mut n);
        assert_eq!(n.factual_novelty, x.clamp(0.0, 1.0).to_bits());
    }
}

#[test]
fn prompt_sections_quote_the_candidate_and_memory() {
    let mut digest = extract_page("https://example.com/p", "<title>Title  here</title><p>x</p>");
    digest.short_summary = "A   summary".to_string();
    digest.key_points = vec!["one".to_string(), "two".to_string()];
    digest.entities = (0..12).map(|i| format!("E{i}")).collect();
    digest.claims = vec!["c".repeat(200)];
    digest.outbound_links = vec![OutboundLink {
        url: "https://example.com/n".to_string(),
        anchor: "next".to_string(),
    }];
    let nearby = vec![
        brief("https://a", "A", "sa"),
        brief("https://b", "B", "sb"),
        brief("https://c", "C", "sc"),
        brief("https://d", "D", "sd"),
        brief("https://e", "E", "se"),
    ];
    let same = vec![brief("https://s", "S", "ss")];
    let sections = build_prompt(&digest, &nearby, &same);
    assert_eq!(sections.url, "https://example.com/p");
    assert_eq!(sections.title, "Title here");
    assert_eq!(sections.summary, "A summary");
    assert_eq!(sections.key_points, "- one\n- two");
    assert_eq!(
        sections.entities,
        (0..10).map(|i| format!("- E{i}")).collect::<Vec<_>>().join("\n")
    );
    assert_eq!(sections.claims, format!("- {}...", "c".repeat(180)));
    assert_eq!(sections.outbound, "- https://example.com/n | next");
    assert_eq!(
        sections.nearby,
        "- https://a | A | sa - https://b | B | sb - https://c | C | sc - https://d | D | sd"
    );
    assert_eq!(sections.same_domain, "- https://s | ss");
}

#[test]
fn long_sections_are_cut_with_an_ellipsis() {
    assert_eq!(compact_lines("ab\ncd\nef", 4), "ab c...");
    assert_eq!(compact_lines("ab\ncd", 5), "ab cd");
}
