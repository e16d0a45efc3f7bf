use hunger::backfill::BackfillStatus;
use hunger::graph_view::GraphColorMode;
use hunger::models::{LlmNovelty, SemanticAxis};
use hunger::ui::{decimal_string, progress_label, truncate};

#[test]
fn truncate_marks_the_cut() {
    assert_eq!(truncate("hello", 5), "hello");
    assert_eq!(truncate("hello world", 5), "hello...");
    assert_eq!(truncate("", 0), "");
    assert_eq!(truncate("héllo", 2), "hé...");
}

#[test]
fn progress_label_counts_both_passes() {
    let mut status = BackfillStatus::reset_running_status();
    assert_eq!(progress_label(&status), "page 0  llm 0");
    for _ in 0..12 {
        status.increment_page();
    }
    status.increment_llm();
    assert_eq!(progress_label(&status), "page 12  llm 1");
    assert_eq!(decimal_string(1234567890), "1234567890");
}

#[test]
fn color_modes_have_labels_and_subtitles() {
    assert_eq!(GraphColorMode::default(), GraphColorMode::Novelty);
    let labels: Vec<&str> = GraphColorMode::all().iter().map(|m| m.label()).collect();
    assert_eq!(labels, vec!["NOVELTY", "PAGE SEM", "LLM SEM"]);
    assert_eq!(GraphColorMode::Novelty.subtitle(), "hyperlink topology + novelty heat");
    assert_eq!(
        GraphColorMode::PageSemantic.subtitle(),
        "content embeddings // semantic clusters"
    );
    assert_eq!(
        GraphColorMode::JudgmentSemantic.subtitle(),
        "llm judgment embeddings // response resonance"
    );
}

#[test]
fn axes_need_both_labels() {
    let axis = SemanticAxis {
        negative_label: " Left ".to_string(),
        positive_label: "Right".to_string(),
    };
    assert!(axis.is_configured());
    let half = SemanticAxis {
        negative_label: "Left".to_string(),
        positive_label: "  ".to_string(),
    };
    assert!(!half.is_configured());
    assert!(!SemanticAxis::default().is_configured());
}

#[test]
fn fallback_judgment_wording() {
    let fallback = LlmNovelty::fallback();
    assert_eq!(
        fallback.concise_reason,
        "Model judgment unavailable; using heuristic fallback."
    );
    assert_eq!(fallback.recommended_action, "sample");
}
