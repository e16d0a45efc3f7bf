//! Shared vocabulary of the crawler: pages, links, model judgments and the
//! operator-configured semantic axes.
//!
//! Scores that the model or the heuristics express as 32-bit floats are held
//! here as the IEEE-754 bit pattern of that float (`f32::to_bits`), so the
//! value passes through the verified code unchanged.
use vstd::prelude::*;

use crate::text::{chars_of, trim, trim_chars};

verus! {

/// An operator-defined bipolar axis, e.g. "Isolationist" .. "Expansionist".
#[derive(Clone, Debug, PartialEq, Eq, Default)]
pub struct SemanticAxis {
    pub negative_label: String,
    pub positive_label: String,
}

/// `s` holds something other than whitespace.
pub open spec fn has_content(s: Seq<char>) -> bool {
    trim(s).len() > 0
}

/// `value` holds something other than whitespace.
pub fn is_blank(value: &str) -> (r: bool)
    ensures
        r == !has_content(value@),
{
    let cs = chars_of(value);
    trim_chars(&cs).len() == 0
}

impl SemanticAxis {
    /// Both poles are named.
    pub open spec fn configured(&self) -> bool {
        has_content(self.negative_label@) && has_content(self.positive_label@)
    }

    /// Both poles carry a label that is not blank.
    pub fn is_configured(&self) -> (r: bool)
        ensures
            r == self.configured(),
    {
        !is_blank(self.negative_label.as_str()) && !is_blank(self.positive_label.as_str())
    }
}

/// A hyperlink found on a page.
#[derive(Clone, Debug)]
pub struct OutboundLink {
    pub url: String,
    pub anchor: String,
}

/// The model's pointer to a link worth following.
#[derive(Clone, Debug)]
pub struct LinkHint {
    pub link_url: String,
    pub reason: String,
    /// Bit pattern of the `f32` priority.
    pub priority: u32,
}

/// The model's placement of a page on a semantic axis.
#[derive(Clone, Debug, Default)]
pub struct AxisScore {
    pub negative_label: String,
    pub positive_label: String,
    /// Bit pattern of the `f32` score.
    pub score: u32,
    pub explanation: String,
}

/// The parts of a stored page that a scoring prompt quotes.
#[derive(Clone, Debug)]
pub struct PageBrief {
    pub url: String,
    pub title: String,
    pub summary: String,
}

/// The inexpensive novelty signals measured before any model is asked.
#[derive(Clone, Copy, Debug, Default)]
pub struct CheapSignals {
    /// Bit pattern of the `f32` signal.
    pub semantic_distance: u32,
    /// Bit pattern of the `f32` signal.
    pub new_token_ratio: u32,
    /// Bit pattern of the `f32` signal.
    pub domain_redundancy: u32,
    /// Bit pattern of the `f32` signal.
    pub local_graph_diversity: u32,
    /// Bit pattern of the `f32` signal.
    pub content_delta_from_last_snapshot: u32,
    /// Bit pattern of the `f32` signal.
    pub boilerplate_penalty: u32,
}

/// The model's novelty judgment of a page, with its structured reasoning.
#[derive(Clone, Debug)]
pub struct LlmNovelty {
    /// Bit pattern of the `f32` score.
    pub factual_novelty: u32,
    /// Bit pattern of the `f32` score.
    pub entity_novelty: u32,
    /// Bit pattern of the `f32` score.
    pub relational_novelty: u32,
    /// Bit pattern of the `f32` score.
    pub temporal_novelty: u32,
    /// Bit pattern of the `f32` score.
    pub expected_crawl_value: u32,
    pub analysis: String,
    pub concise_reason: String,
    pub likely_novel_aspects: Vec<String>,
    pub likely_redundant_aspects: Vec<String>,
    pub recommended_action: String,
    pub recommended_link_hints: Vec<LinkHint>,
    pub axis_scores: Vec<AxisScore>,
}

impl LlmNovelty {
    /// The judgment used when the model gave none: zero scores, no reasoning,
    /// action "sample".
    pub fn fallback() -> (r: Self)
        ensures
            r.factual_novelty == 0,
            r.entity_novelty == 0,
            r.relational_novelty == 0,
            r.temporal_novelty == 0,
            r.expected_crawl_value == 0,
            r.analysis@ == Seq::<char>::empty(),
            r.concise_reason@ == "Model judgment unavailable; using heuristic fallback."@,
            r.likely_novel_aspects@ == Seq::<String>::empty(),
            r.likely_redundant_aspects@ == Seq::<String>::empty(),
            r.recommended_action@ == "sample"@,
            r.recommended_link_hints@ == Seq::<LinkHint>::empty(),
            r.axis_scores@ == Seq::<AxisScore>::empty(),
    {
        LlmNovelty {
            factual_novelty: 0,
            entity_novelty: 0,
            relational_novelty: 0,
            temporal_novelty: 0,
            expected_crawl_value: 0,
            analysis: String::new(),
            concise_reason: String::from_str(
                "Model judgment unavailable; using heuristic fallback.",
            ),
            likely_novel_aspects: Vec::new(),
            likely_redundant_aspects: Vec::new(),
            recommended_action: String::from_str("sample"),
            recommended_link_hints: Vec::new(),
            axis_scores: Vec::new(),
        }
    }
}

/// What the page-embedding backfill needs of a stored page.
#[derive(Clone, Debug)]
pub struct PageEmbeddingBackfillRecord {
    pub url: String,
    pub title: String,
    pub summary: String,
    pub clean_text: String,
}

/// What the judgment-embedding backfill needs of a stored page.
#[derive(Clone, Debug)]
pub struct LlmEmbeddingBackfillRecord {
    pub url: String,
    pub llm_novelty: LlmNovelty,
}

/// What the axis rescoring backfill needs of a stored page.
#[derive(Clone, Debug)]
pub struct AxisBackfillRecord {
    pub url: String,
    pub title: String,
    pub summary: String,
    pub llm_novelty: LlmNovelty,
}

/// A hyperlink edge of the crawl graph.
#[derive(Clone, Debug)]
pub struct GraphEdge {
    pub source_url: String,
    pub target_url: String,
    pub anchor: String,
}

/// `f32::clamp(x, 0.0, 1.0)` on the bit pattern of `x`: NaN and `-0.0` stay,
/// other negatives become `0.0`, values above one (and `+inf`) become `1.0`.
pub open spec fn clamp_unit(bits: u32) -> u32 {
    if bits > 0xff80_0000 {
        bits
    } else if bits > 0x8000_0000 {
        0
    } else if bits == 0x8000_0000 {
        bits
    } else if bits > 0x7f80_0000 {
        bits
    } else if bits > 0x3f80_0000 {
        0x3f80_0000
    } else {
        bits
    }
}

/// Clamping lands in the unit interval (`0.0 ..= 1.0` by bits, `-0.0`
/// included) or keeps a NaN, and clamping again changes nothing.
pub proof fn lemma_clamp_unit(bits: u32)
    ensures
        clamp_unit(bits) <= 0x3f80_0000 || clamp_unit(bits) == 0x8000_0000 || (clamp_unit(bits)
            == bits && (0x7f80_0000 < bits < 0x8000_0000 || bits > 0xff80_0000)),
        clamp_unit(clamp_unit(bits)) == clamp_unit(bits),
{
}

/// Executable `f32::clamp(x, 0.0, 1.0)` on bit patterns.
pub fn clamp_unit_bits(bits: u32) -> (r: u32)
    ensures
        r == clamp_unit(bits),
{
    if bits > 0xff80_0000 {
        bits
    } else if bits > 0x8000_0000 {
        0
    } else if bits == 0x8000_0000 {
        bits
    } else if bits > 0x7f80_0000 {
        bits
    } else if bits > 0x3f80_0000 {
        0x3f80_0000
    } else {
        bits
    }
}

} // verus!
