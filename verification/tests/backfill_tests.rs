use hunger::backfill::{
    after_batch, first_phase, BackfillPhase, BackfillStages,
    build_llm_embedding_from_novelty, build_page_embedding_input, needs_axis_rescore,
    plan_backfill, BackfillError, BackfillStatus,
};
use hunger::models::{AxisScore, LlmNovelty, PageEmbeddingBackfillRecord, SemanticAxis};

#[test]
fn llm_embedding_input_captures_reasoning() {
    let novelty = LlmNovelty {
        analysis: "Detailed reasoning".to_string(),
        concise_reason: "Short reason".to_string(),
        likely_novel_aspects: vec!["A".to_string()],
        likely_redundant_aspects: vec!["B".to_string()],
        recommended_action: "expand".to_string(),
        ..LlmNovelty::fallback()
    };
    let input = build_llm_embedding_from_novelty(&novelty);
    assert!(input.contains("Detailed reasoning"));
    assert!(input.contains("action: expand"));
}

#[test]
fn page_embedding_input_uses_clean_excerpt() {
    let page = PageEmbeddingBackfillRecord {
        url: "https://example.com".to_string(),
        title: "Title".to_string(),
        summary: "Summary".to_string(),
        clean_text: "alpha beta gamma".to_string(),
    };
    let input = build_page_embedding_input(&page);
    assert!(input.contains("Title"));
    assert!(input.contains("alpha beta gamma"));
}

#[test]
fn detects_missing_axis_scores_for_backfill() {
    let axes = vec![SemanticAxis {
        negative_label: "Isolationist".to_string(),
        positive_label: "Expansionist".to_string(),
    }];
    assert!(needs_axis_rescore(&LlmNovelty::fallback(), &axes));
}

#[test]
fn skips_axis_backfill_when_scores_match_configured_axes() {
    let axes = vec![SemanticAxis {
        negative_label: "Isolationist".to_string(),
        positive_label: "Expansionist".to_string(),
    }];
    let novelty = LlmNovelty {
        axis_scores: vec![AxisScore {
            negative_label: "Isolationist".to_string(),
            positive_label: "Expansionist".to_string(),
            score: 0.2f32.to_bits(),
            explanation: "test".to_string(),
        }],
        ..LlmNovelty::fallback()
    };
    assert!(!needs_axis_rescore(&novelty, &axes));
}

#[test]
fn page_embedding_input_exact_layout() {
    let page = PageEmbeddingBackfillRecord {
        url: "https://example.com".to_string(),
        title: "Title".to_string(),
        summary: "   ".to_string(),
        clean_text: "  alpha\n beta\tgamma ".to_string(),
    };
    assert_eq!(build_page_embedding_input(&page), "Title\nalpha beta gamma");
}

#[test]
fn page_embedding_excerpt_stops_at_160_words() {
    let text = (0..200).map(|i| format!("w{i}")).collect::<Vec<_>>().join(" ");
    let page = PageEmbeddingBackfillRecord {
        url: String::new(),
        title: String::new(),
        summary: String::new(),
        clean_text: text,
    };
    let input = build_page_embedding_input(&page);
    assert_eq!(input.split(' ').count(), 160);
    assert!(input.ends_with("w159"));
}

#[test]
fn llm_embedding_input_exact_layout() {
    let novelty = LlmNovelty {
        analysis: " ".to_string(),
        concise_reason: "Short reason".to_string(),
        likely_novel_aspects: vec!["A".to_string(), "C".to_string()],
        likely_redundant_aspects: Vec::new(),
        recommended_action: "expand".to_string(),
        ..LlmNovelty::fallback()
    };
    assert_eq!(
        build_llm_embedding_from_novelty(&novelty),
        "Short reason\nnovel: A | C\naction: expand"
    );
}

#[test]
fn fallback_judgment_is_neutral() {
    let fallback = LlmNovelty::fallback();
    assert_eq!(fallback.recommended_action, "sample");
    assert_eq!(fallback.factual_novelty, 0.0f32.to_bits());
    assert!(fallback.analysis.is_empty());
    assert_eq!(
        build_llm_embedding_from_novelty(&fallback),
        "Model judgment unavailable; using heuristic fallback.\naction: sample"
    );
}

#[test]
fn no_axes_means_no_rescore() {
    assert!(!needs_axis_rescore(&LlmNovelty::fallback(), &[]));
}

#[test]
fn rescore_when_labels_differ_after_trimming() {
    let axes = vec![SemanticAxis {
        negative_label: " Isolationist ".to_string(),
        positive_label: "Expansionist".to_string(),
    }];
    let mut novelty = LlmNovelty::fallback();
    novelty.axis_scores = vec![AxisScore {
        negative_label: "Isolationist".to_string(),
        positive_label: "Other".to_string(),
        score: 0,
        explanation: String::new(),
    }];
    assert!(needs_axis_rescore(&novelty, &axes));
    novelty.axis_scores[0].positive_label = "Expansionist  ".to_string();
    assert!(!needs_axis_rescore(&novelty, &axes));
}

fn axis(negative: &str, positive: &str) -> SemanticAxis {
    SemanticAxis { negative_label: negative.to_string(), positive_label: positive.to_string() }
}

#[test]
fn plan_rejects_when_nothing_is_enabled() {
    let result = plan_backfill(&vec![axis(" ", "x")], false, false, true);
    assert_eq!(result.err(), Some(BackfillError::NothingEnabled));
    assert_eq!(
        BackfillError::NothingEnabled.message(),
        "enable page embeddings, llm-response embeddings, or configure semantic axes first"
    );
}

#[test]
fn plan_requires_an_embedding_model() {
    let result = plan_backfill(&Vec::new(), true, false, false);
    assert_eq!(result.err(), Some(BackfillError::NoEmbeddingModel));
    assert_eq!(BackfillError::NoEmbeddingModel.message(), "embedding model is not configured");
}

#[test]
fn plan_keeps_three_configured_axes() {
    let axes = vec![axis("a", "b"), axis("", "c"), axis("d", "e"), axis("f", "g"), axis("h", "i")];
    let plan = plan_backfill(&axes, false, false, false).ok().expect("axes enable the plan");
    assert!(!plan.embeddings);
    let labels: Vec<&str> = plan.semantic_axes.iter().map(|a| a.negative_label.as_str()).collect();
    assert_eq!(labels, vec!["a", "d", "f"]);
}

#[test]
fn status_counts_every_pass() {
    let mut status = BackfillStatus::reset_running_status();
    assert!(status.running);
    assert_eq!(status.phase, "initializing");
    status.count_backlog(2, 1);
    assert_eq!(status.total, 3);
    assert_eq!(status.phase, "counted backlog");
    status.update_cursor("page embeddings", "https://a.example");
    status.increment_page();
    status.increment_page();
    status.increment_llm();
    status.add_to_backlog(1);
    status.increment_axis();
    assert_eq!(status.processed, 4);
    assert_eq!(status.page_processed + status.llm_processed + status.axis_processed, 4);
    assert_eq!(status.current_url.as_deref(), Some("https://a.example"));
    status.finish(Ok(()));
    assert!(!status.running);
    assert_eq!(status.phase, "backfill complete");
}

#[test]
fn status_reports_empty_and_failed_runs() {
    let mut status = BackfillStatus::reset_running_status();
    status.finish(Ok(()));
    assert_eq!(status.phase, "nothing to backfill");
    assert_eq!(status.last_error, None);
    let mut failed = BackfillStatus::reset_running_status();
    failed.finish(Err("boom".to_string()));
    assert_eq!(failed.phase, "backfill failed");
    assert_eq!(failed.last_error.as_deref(), Some("boom"));
}

#[test]
fn backfill_stages_run_in_order() {
    let all = BackfillStages { page_embeddings: true, llm_embeddings: true, axis_scoring: true };
    let mut phase = first_phase(all);
    assert_eq!(phase, BackfillPhase::PageEmbeddings);
    phase = after_batch(all, phase, 4);
    assert_eq!(phase, BackfillPhase::PageEmbeddings);
    phase = after_batch(all, phase, 0);
    assert_eq!(phase, BackfillPhase::LlmEmbeddings);
    phase = after_batch(all, phase, 0);
    assert_eq!(phase, BackfillPhase::AxisScoring { offset: 0 });
    phase = after_batch(all, phase, 96);
    assert_eq!(phase, BackfillPhase::AxisScoring { offset: 96 });
    phase = after_batch(all, phase, 10);
    assert_eq!(phase, BackfillPhase::AxisScoring { offset: 106 });
    phase = after_batch(all, phase, 0);
    assert_eq!(phase, BackfillPhase::Finished);
    assert_eq!(after_batch(all, phase, 5), BackfillPhase::Finished);

    let axes_only = BackfillStages { page_embeddings: false, llm_embeddings: false, axis_scoring: true };
    assert_eq!(first_phase(axes_only), BackfillPhase::AxisScoring { offset: 0 });
    let pages_only = BackfillStages { page_embeddings: true, llm_embeddings: false, axis_scoring: false };
    assert_eq!(after_batch(pages_only, BackfillPhase::PageEmbeddings, 0), BackfillPhase::Finished);
    let none = BackfillStages { page_embeddings: false, llm_embeddings: false, axis_scoring: false };
    assert_eq!(first_phase(none), BackfillPhase::Finished);
}
