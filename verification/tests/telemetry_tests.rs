use hunger::backfill::pending_axis_records;
use hunger::graph_view::{cluster_sizes, top_domains};
use hunger::models::{AxisBackfillRecord, AxisScore, LlmNovelty, SemanticAxis};
use hunger::rank::rank_top;

fn strings(values: &[&str]) -> Vec<String> {
    values.iter().map(|v| v.to_string()).collect()
}

#[test]
fn ranking_is_stable_and_descending() {
    assert_eq!(rank_top(&vec![3, 9, 3, 9, 1], 10), vec![1, 3, 0, 2, 4]);
    assert_eq!(rank_top(&vec![3, 9, 3, 9, 1], 2), vec![1, 3]);
    assert!(rank_top(&vec![5], 0).is_empty());
    assert!(rank_top(&Vec::new(), 4).is_empty());
}

#[test]
fn busiest_domains_first_and_at_most_k() {
    let domains = strings(&["a.org", "b.org", "a.org", "c.org", "b.org", "a.org", "d.org"]);
    let top = top_domains(&domains, 2);
    assert_eq!(top.len(), 2);
    assert_eq!((top[0].domain.as_str(), top[0].count), ("a.org", 3));
    assert_eq!((top[1].domain.as_str(), top[1].count), ("b.org", 2));
    let all = top_domains(&domains, 5);
    let listed: Vec<(&str, usize)> = all.iter().map(|d| (d.domain.as_str(), d.count)).collect();
    assert_eq!(listed, vec![("a.org", 3), ("b.org", 2), ("c.org", 1), ("d.org", 1)]);
    assert!(top_domains(&Vec::new(), 5).is_empty());
}

#[test]
fn cluster_sizes_cover_every_cluster() {
    let sizes = cluster_sizes(&vec![2, 0, 2, 1, 2, 0]);
    let listed: Vec<(usize, usize)> = sizes.iter().map(|c| (c.cluster_index, c.count)).collect();
    assert_eq!(listed, vec![(2, 3), (0, 2), (1, 1)]);
    assert!(cluster_sizes(&Vec::new()).is_empty());
}

fn record(url: &str, scores: Vec<AxisScore>) -> AxisBackfillRecord {
    AxisBackfillRecord {
        url: url.to_string(),
        title: String::new(),
        summary: String::new(),
        llm_novelty: LlmNovelty {
            axis_scores: scores,
            ..LlmNovelty::fallback()
        },
    }
}

#[test]
fn only_unscored_judgments_are_pending() {
    let axes = vec![SemanticAxis {
        negative_label: "Isolationist".to_string(),
        positive_label: "Expansionist".to_string(),
    }];
    let scored = vec![AxisScore {
        negative_label: "Isolationist".to_string(),
        positive_label: "Expansionist".to_string(),
        score: 0.2f32.to_bits(),
        explanation: String::new(),
    }];
    let batch = vec![
        record("https://a", Vec::new()),
        record("https://b", scored),
        record("https://c", Vec::new()),
    ];
    assert_eq!(pending_axis_records(&batch, &axes), vec![0, 2]);
    assert!(pending_axis_records(&batch, &[]).is_empty());
}
