//! The operator-triggered backfill pass: its progress record, the plan it
//! follows, and the texts it sends for embedding.
use vstd::prelude::*;

use crate::models::{
    AxisBackfillRecord, AxisScore, has_content, is_blank, LlmEmbeddingBackfillRecord, LlmNovelty, PageEmbeddingBackfillRecord,
    SemanticAxis,
};
use crate::text::{
    join, join_first, join_strings, push_str, split_words, texts, trim, trim_chars, chars_of,
    chars_equal, words, same_chars,
};

verus! {

/// How far the running backfill has come.
#[derive(Clone, Debug, Default)]
pub struct BackfillStatus {
    pub running: bool,
    pub phase: String,
    pub current_url: Option<String>,
    pub processed: usize,
    pub total: usize,
    pub page_processed: usize,
    pub llm_processed: usize,
    pub axis_processed: usize,
    pub last_error: Option<String>,
}

impl BackfillStatus {
    /// Every processed item is counted in exactly one of the three passes.
    pub open spec fn accounted(&self) -> bool {
        self.processed == self.page_processed + self.llm_processed + self.axis_processed
    }

    /// The record of a backfill that has just started.
    pub fn reset_running_status() -> (r: Self)
        ensures
            r.running,
            r.phase@ == "initializing"@,
            r.current_url is None,
            r.processed == 0,
            r.total == 0,
            r.page_processed == 0,
            r.llm_processed == 0,
            r.axis_processed == 0,
            r.last_error is None,
            r.accounted(),
    {
        BackfillStatus {
            running: true,
            phase: String::from_str("initializing"),
            current_url: None,
            processed: 0,
            total: 0,
            page_processed: 0,
            llm_processed: 0,
            axis_processed: 0,
            last_error: None,
        }
    }

    /// Records the end of the pass: a failure keeps its message; a success
    /// reports whether there was anything to do.
    pub fn finish(&mut self, outcome: Result<(), String>)
        ensures
            old(self).accounted() ==> final(self).accounted(),
            !final(self).running,
            final(self).processed == old(self).processed,
            final(self).total == old(self).total,
            final(self).page_processed == old(self).page_processed,
            final(self).llm_processed == old(self).llm_processed,
            final(self).axis_processed == old(self).axis_processed,
            final(self).current_url == old(self).current_url,
            match outcome {
                Ok(()) => {
                    &&& final(self).last_error is None
                    &&& final(self).phase@ == if old(self).total == 0 {
                        "nothing to backfill"@
                    } else {
                        "backfill complete"@
                    }
                },
                Err(message) => {
                    &&& final(self).last_error == Some(message)
                    &&& final(self).phase@ == "backfill failed"@
                },
            },
    {
        self.running = false;
        match outcome {
            Ok(()) => {
                if self.total == 0 {
                    self.phase = String::from_str("nothing to backfill");
                } else {
                    self.phase = String::from_str("backfill complete");
                }
                self.last_error = None;
            },
            Err(message) => {
                self.phase = String::from_str("backfill failed");
                self.last_error = Some(message);
            },
        }
    }

    /// Records the phase and the page being worked on.
    pub fn update_cursor(&mut self, phase: &str, url: &str)
        ensures
            old(self).accounted() ==> final(self).accounted(),
            final(self).phase@ == phase@,
            final(self).current_url matches Some(u) && u@ == url@,
            final(self).running == old(self).running,
            final(self).processed == old(self).processed,
            final(self).total == old(self).total,
            final(self).page_processed == old(self).page_processed,
            final(self).llm_processed == old(self).llm_processed,
            final(self).axis_processed == old(self).axis_processed,
            final(self).last_error == old(self).last_error,
    {
        self.phase = String::from_str(phase);
        self.current_url = Some(String::from_str(url));
    }

    /// Records the size of the embedding backlog.
    pub fn count_backlog(&mut self, page_total: usize, llm_total: usize)
        requires
            page_total + llm_total <= usize::MAX,
        ensures
            old(self).accounted() ==> final(self).accounted(),
            final(self).total == page_total + llm_total,
            final(self).phase@ == "counted backlog"@,
            final(self).running == old(self).running,
            final(self).processed == old(self).processed,
            final(self).page_processed == old(self).page_processed,
            final(self).llm_processed == old(self).llm_processed,
            final(self).axis_processed == old(self).axis_processed,
            final(self).current_url == old(self).current_url,
            final(self).last_error == old(self).last_error,
    {
        self.total = page_total + llm_total;
        self.phase = String::from_str("counted backlog");
    }

    /// Adds pages found to need axis rescoring to the backlog.
    pub fn add_to_backlog(&mut self, pending: usize)
        requires
            old(self).total + pending <= usize::MAX,
        ensures
            old(self).accounted() ==> final(self).accounted(),
            final(self).total == old(self).total + pending,
            final(self).running == old(self).running,
            final(self).phase == old(self).phase,
            final(self).processed == old(self).processed,
            final(self).page_processed == old(self).page_processed,
            final(self).llm_processed == old(self).llm_processed,
            final(self).axis_processed == old(self).axis_processed,
            final(self).current_url == old(self).current_url,
            final(self).last_error == old(self).last_error,
    {
        self.total = self.total + pending;
    }

    /// Counts one page whose content embedding was refreshed.
    pub fn increment_page(&mut self)
        requires
            old(self).processed < usize::MAX,
            old(self).page_processed < usize::MAX,
        ensures
            old(self).accounted() ==> final(self).accounted(),
            final(self).processed == old(self).processed + 1,
            final(self).page_processed == old(self).page_processed + 1,
            final(self).llm_processed == old(self).llm_processed,
            final(self).axis_processed == old(self).axis_processed,
            final(self).total == old(self).total,
            final(self).running == old(self).running,
            final(self).phase == old(self).phase,
            final(self).current_url == old(self).current_url,
            final(self).last_error == old(self).last_error,
    {
        self.processed = self.processed + 1;
        self.page_processed = self.page_processed + 1;
    }

    /// Counts one page whose judgment embedding was refreshed.
    pub fn increment_llm(&mut self)
        requires
            old(self).processed < usize::MAX,
            old(self).llm_processed < usize::MAX,
        ensures
            old(self).accounted() ==> final(self).accounted(),
            final(self).processed == old(self).processed + 1,
            final(self).llm_processed == old(self).llm_processed + 1,
            final(self).page_processed == old(self).page_processed,
            final(self).axis_processed == old(self).axis_processed,
            final(self).total == old(self).total,
            final(self).running == old(self).running,
            final(self).phase == old(self).phase,
            final(self).current_url == old(self).current_url,
            final(self).last_error == old(self).last_error,
    {
        self.processed = self.processed + 1;
        self.llm_processed = self.llm_processed + 1;
    }

    /// Counts one page placed again on the semantic axes.
    pub fn increment_axis(&mut self)
        requires
            old(self).processed < usize::MAX,
            old(self).axis_processed < usize::MAX,
        ensures
            old(self).accounted() ==> final(self).accounted(),
            final(self).processed == old(self).processed + 1,
            final(self).axis_processed == old(self).axis_processed + 1,
            final(self).page_processed == old(self).page_processed,
            final(self).llm_processed == old(self).llm_processed,
            final(self).total == old(self).total,
            final(self).running == old(self).running,
            final(self).phase == old(self).phase,
            final(self).current_url == old(self).current_url,
            final(self).last_error == old(self).last_error,
    {
        self.processed = self.processed + 1;
        self.axis_processed = self.axis_processed + 1;
    }
}

/// The parts that hold something other than whitespace, in order.
pub open spec fn non_blank(parts: Seq<Seq<char>>) -> Seq<Seq<char>>
    decreases parts.len(),
{
    if parts.len() == 0 {
        Seq::empty()
    } else {
        let prior = non_blank(parts.drop_last());
        if has_content(parts.last()) {
            prior.push(parts.last())
        } else {
            prior
        }
    }
}

/// The first 160 words of a page's text, space-separated.
pub open spec fn clean_excerpt(text: Seq<char>) -> Seq<char> {
    let w = words(text);
    join(w.take(if 160 < w.len() { 160 } else { w.len() as int }), " "@)
}

/// Title, summary and the opening of the text, blank parts left out, one per line.
pub open spec fn page_embedding_text(title: Seq<char>, summary: Seq<char>, text: Seq<char>) -> Seq<
    char,
> {
    join(non_blank(seq![title, summary, clean_excerpt(text)]), "\n"@)
}

/// The keeps of `parts` that are not blank.
fn keep_non_blank(parts: Vec<String>) -> (r: Vec<String>)
    ensures
        texts(r@) == non_blank(texts(parts@)),
{
    let mut r: Vec<String> = Vec::new();
    let mut i: usize = 0;
    while i < parts.len()
        invariant
            0 <= i <= parts.len(),
            texts(r@) == non_blank(texts(parts@).take(i as int)),
        decreases parts.len() - i,
    {
        proof {
            assert(texts(parts@).take(i + 1).drop_last() == texts(parts@).take(i as int));
            assert(texts(parts@).take(i + 1).last() == parts@[i as int]@);
        }
        if !is_blank(parts[i].as_str()) {
            let p = String::from_str(parts[i].as_str());
            proof {
                assert(texts(r@.push(p)) == texts(r@).push(p@));
            }
            r.push(p);
        }
        i += 1;
    }
    assert(texts(parts@).take(parts@.len() as int) == texts(parts@));
    r
}

/// The text embedded for a stored page: title, summary and the first 160
/// words of its text, blank parts left out, one per line.
pub fn build_page_embedding_input(page: &PageEmbeddingBackfillRecord) -> (r: String)
    ensures
        r@ == page_embedding_text(page.title@, page.summary@, page.clean_text@),
{
    let words_of_text = split_words(page.clean_text.as_str());
    let excerpt = join_first(&words_of_text, 160, " ");
    let parts = vec![
        String::from_str(page.title.as_str()),
        String::from_str(page.summary.as_str()),
        excerpt,
    ];
    assert(parts@.len() == 3);
    assert(texts(parts@)[0] == page.title@);
    assert(texts(parts@)[1] == page.summary@);
    assert(texts(parts@)[2] == clean_excerpt(page.clean_text@));
    assert(texts(parts@) =~= seq![page.title@, page.summary@, clean_excerpt(page.clean_text@)]);
    let kept = keep_non_blank(parts);
    join_strings(&kept, "\n")
}

/// The sections describing a judgment: its analysis and reason when not
/// blank, its novel and redundant aspects when any, and its action.
pub open spec fn judgment_sections(
    analysis: Seq<char>,
    concise_reason: Seq<char>,
    novel: Seq<Seq<char>>,
    redundant: Seq<Seq<char>>,
    action: Seq<char>,
) -> Seq<Seq<char>> {
    let s1: Seq<Seq<char>> = if has_content(analysis) {
        seq![analysis]
    } else {
        Seq::empty()
    };
    let s2 = if has_content(concise_reason) {
        s1.push(concise_reason)
    } else {
        s1
    };
    let s3 = if novel.len() > 0 {
        s2.push("novel: "@ + join(novel, " | "@))
    } else {
        s2
    };
    let s4 = if redundant.len() > 0 {
        s3.push("redundant: "@ + join(redundant, " | "@))
    } else {
        s3
    };
    s4.push("action: "@ + action)
}

/// The text embedded for a judgment: its sections, one per line.
pub open spec fn judgment_text(j: LlmNovelty) -> Seq<char> {
    join(
        judgment_sections(
            j.analysis@,
            j.concise_reason@,
            texts(j.likely_novel_aspects@),
            texts(j.likely_redundant_aspects@),
            j.recommended_action@,
        ),
        "\n"@,
    )
}

/// `label` followed by the items joined with ` | `.
fn labelled_list(label: &str, items: &Vec<String>) -> (r: String)
    ensures
        r@ == label@ + join(texts(items@), " | "@),
{
    let mut s = String::from_str(label);
    let joined = join_strings(items, " | ");
    push_str(&mut s, joined.as_str());
    s
}

/// The text embedded for a model judgment, so pages can be clustered by the
/// model's reasoning.
pub fn build_llm_embedding_from_novelty(judgment: &LlmNovelty) -> (r: String)
    ensures
        r@ == judgment_text(*judgment),
{
    let mut sections: Vec<String> = Vec::new();
    if !is_blank(judgment.analysis.as_str()) {
        sections.push(String::from_str(judgment.analysis.as_str()));
    }
    if !is_blank(judgment.concise_reason.as_str()) {
        sections.push(String::from_str(judgment.concise_reason.as_str()));
    }
    if judgment.likely_novel_aspects.len() > 0 {
        sections.push(labelled_list("novel: ", &judgment.likely_novel_aspects));
    }
    if judgment.likely_redundant_aspects.len() > 0 {
        sections.push(labelled_list("redundant: ", &judgment.likely_redundant_aspects));
    }
    let mut action = String::from_str("action: ");
    push_str(&mut action, judgment.recommended_action.as_str());
    sections.push(action);
    assert(texts(sections@) =~= judgment_sections(
        judgment.analysis@,
        judgment.concise_reason@,
        texts(judgment.likely_novel_aspects@),
        texts(judgment.likely_redundant_aspects@),
        judgment.recommended_action@,
    ));
    join_strings(&sections, "\n")
}

/// The text embedded for a stored page's judgment.
pub fn build_llm_embedding_input(page: &LlmEmbeddingBackfillRecord) -> (r: String)
    ensures
        r@ == judgment_text(page.llm_novelty),
{
    build_llm_embedding_from_novelty(&page.llm_novelty)
}

/// A stored score carries the axis's labels, surrounding whitespace ignored.
pub open spec fn score_matches(score: AxisScore, axis: SemanticAxis) -> bool {
    trim(score.negative_label@) == trim(axis.negative_label@) && trim(score.positive_label@)
        == trim(axis.positive_label@)
}

/// Some stored score carries the axis's labels.
pub open spec fn axis_scored(scores: Seq<AxisScore>, axis: SemanticAxis) -> bool {
    exists|j: int| 0 <= j < scores.len() && score_matches(#[trigger] scores[j], axis)
}

/// A judgment needs new axis scores when axes are configured and its scores
/// do not cover exactly those axes.
pub open spec fn axis_rescore_needed(scores: Seq<AxisScore>, axes: Seq<SemanticAxis>) -> bool {
    &&& axes.len() > 0
    &&& (scores.len() != axes.len() || exists|i: int|
        0 <= i < axes.len() && !axis_scored(scores, #[trigger] axes[i]))
}

/// The trimmed labels of `score` equal those of `axis`.
fn labels_match(score: &AxisScore, axis: &SemanticAxis) -> (r: bool)
    ensures
        r == score_matches(*score, *axis),
{
    let sn = trim_chars(&chars_of(score.negative_label.as_str()));
    let an = trim_chars(&chars_of(axis.negative_label.as_str()));
    let sp = trim_chars(&chars_of(score.positive_label.as_str()));
    let ap = trim_chars(&chars_of(axis.positive_label.as_str()));
    same_chars(&sn, &an) && same_chars(&sp, &ap)
}

/// Whether a stored judgment lacks a placement on one of the configured axes.
pub fn needs_axis_rescore(judgment: &LlmNovelty, semantic_axes: &[SemanticAxis]) -> (r: bool)
    ensures
        r == axis_rescore_needed(judgment.axis_scores@, semantic_axes@),
{
    if semantic_axes.len() == 0 {
        return false;
    }
    if judgment.axis_scores.len() != semantic_axes.len() {
        return true;
    }
    let mut i: usize = 0;
    while i < semantic_axes.len()
        invariant
            0 <= i <= semantic_axes@.len(),
            forall|k: int| 0 <= k < i ==> axis_scored(judgment.axis_scores@, #[trigger] semantic_axes@[k]),
        decreases semantic_axes.len() - i,
    {
        let axis = &semantic_axes[i];
        let mut found = false;
        let mut j: usize = 0;
        while j < judgment.axis_scores.len()
            invariant
                0 <= j <= judgment.axis_scores@.len(),
                found ==> axis_scored(judgment.axis_scores@, *axis),
                !found ==> forall|t: int| 0 <= t < j ==> !score_matches(#[trigger] judgment.axis_scores@[t], *axis),
            decreases judgment.axis_scores.len() - j,
        {
            if !found && labels_match(&judgment.axis_scores[j], axis) {
                found = true;
            }
            j += 1;
        }
        if !found {
            assert(!axis_scored(judgment.axis_scores@, semantic_axes@[i as int]));
            return true;
        }
        i += 1;
    }
    false
}

/// Positions, in order, of the stored judgments among `records` that need new
/// axis scores.
pub open spec fn pending_positions(records: Seq<AxisBackfillRecord>, axes: Seq<SemanticAxis>) -> Seq<
    int,
>
    decreases records.len(),
{
    if records.len() == 0 {
        Seq::empty()
    } else {
        let before = pending_positions(records.drop_last(), axes);
        if axis_rescore_needed(records.last().llm_novelty.axis_scores@, axes) {
            before.push(records.len() - 1)
        } else {
            before
        }
    }
}

/// The positions in a scanned batch whose judgments must be rescored on the
/// configured axes, in batch order.
pub fn pending_axis_records(batch: &Vec<AxisBackfillRecord>, semantic_axes: &[SemanticAxis]) -> (r:
    Vec<usize>)
    ensures
        r@.len() == pending_positions(batch@, semantic_axes@).len(),
        forall|p: int|
            0 <= p < r@.len() ==> #[trigger] r@[p] as int == pending_positions(
                batch@,
                semantic_axes@,
            )[p],
{
    let mut out: Vec<usize> = Vec::new();
    let mut i: usize = 0;
    while i < batch.len()
        invariant
            0 <= i <= batch@.len(),
            out@.len() == pending_positions(batch@.take(i as int), semantic_axes@).len(),
            forall|p: int|
                0 <= p < out@.len() ==> #[trigger] out@[p] as int == pending_positions(
                    batch@.take(i as int),
                    semantic_axes@,
                )[p],
        decreases batch.len() - i,
    {
        assert(batch@.take(i + 1).drop_last() =~= batch@.take(i as int));
        if needs_axis_rescore(&batch[i].llm_novelty, semantic_axes) {
            out.push(i);
        }
        i += 1;
    }
    assert(batch@.take(batch@.len() as int) =~= batch@);
    out
}

/// Why a backfill cannot start.
#[derive(Clone, Copy, Debug, PartialEq, Eq)]
pub enum BackfillError {
    /// Neither embeddings nor semantic axes are enabled.
    NothingEnabled,
    /// Embeddings are enabled but no embedding model is named.
    NoEmbeddingModel,
}

impl BackfillError {
    /// The message shown to the operator.
    pub fn message(self) -> (r: &'static str)
        ensures
            r@ == match self {
                BackfillError::NothingEnabled => "enable page embeddings, llm-response embeddings, or configure semantic axes first"@,
                BackfillError::NoEmbeddingModel => "embedding model is not configured"@,
            },
    {
        match self {
            BackfillError::NothingEnabled => "enable page embeddings, llm-response embeddings, or configure semantic axes first",
            BackfillError::NoEmbeddingModel => "embedding model is not configured",
        }
    }
}

/// The labels of an axis.
pub open spec fn axis_labels(a: SemanticAxis) -> (Seq<char>, Seq<char>) {
    (a.negative_label@, a.positive_label@)
}

/// The labels of each axis.
pub open spec fn labels_of(axes: Seq<SemanticAxis>) -> Seq<(Seq<char>, Seq<char>)> {
    axes.map_values(|a: SemanticAxis| axis_labels(a))
}

/// The labels of the configured axes, in order.
pub open spec fn configured_axes(axes: Seq<SemanticAxis>) -> Seq<(Seq<char>, Seq<char>)>
    decreases axes.len(),
{
    if axes.len() == 0 {
        Seq::empty()
    } else {
        let prior = configured_axes(axes.drop_last());
        if axes.last().configured() {
            prior.push(axis_labels(axes.last()))
        } else {
            prior
        }
    }
}

/// At most the first three items of `s`.
pub open spec fn first_three<T>(s: Seq<T>) -> Seq<T> {
    s.take(if s.len() < 3 { s.len() as int } else { 3 })
}

/// The labels of the configured axes, at most three, in order.
pub open spec fn active_axes(axes: Seq<SemanticAxis>) -> Seq<(Seq<char>, Seq<char>)> {
    first_three(configured_axes(axes))
}

/// `pair` is the label pair of some configured axis among `axes`.
pub open spec fn from_configured(axes: Seq<SemanticAxis>, pair: (Seq<char>, Seq<char>)) -> bool {
    exists|j: int| 0 <= j < axes.len() && #[trigger] axes[j].configured() && pair == axis_labels(axes[j])
}

/// Each selected label pair belongs to a configured axis, and at most three are selected.
pub proof fn lemma_active_axes(axes: Seq<SemanticAxis>)
    ensures
        active_axes(axes).len() <= 3,
        forall|i: int|
            0 <= i < active_axes(axes).len() ==> from_configured(axes, #[trigger] active_axes(axes)[i]),
{
    lemma_configured_axes(axes);
    let c = configured_axes(axes);
    assert forall|i: int| 0 <= i < active_axes(axes).len() implies from_configured(
        axes,
        #[trigger] active_axes(axes)[i],
    ) by {
        assert(active_axes(axes)[i] == c[i]);
    }
}

/// Each label pair of `configured_axes` comes from a configured axis.
proof fn lemma_configured_axes(axes: Seq<SemanticAxis>)
    ensures
        forall|i: int|
            0 <= i < configured_axes(axes).len() ==> from_configured(
                axes,
                #[trigger] configured_axes(axes)[i],
            ),
    decreases axes.len(),
{
    if axes.len() > 0 {
        let init = axes.drop_last();
        lemma_configured_axes(init);
        let prior = configured_axes(init);
        assert forall|i: int| 0 <= i < configured_axes(axes).len() implies from_configured(
            axes,
            #[trigger] configured_axes(axes)[i],
        ) by {
            if i < prior.len() {
                assert(configured_axes(axes)[i] == prior[i]);
                assert(from_configured(init, prior[i]));
                let j = choose|j: int|
                    0 <= j < init.len() && #[trigger] init[j].configured() && prior[i]
                        == axis_labels(init[j]);
                assert(axes[j] == init[j]);
                assert(axes[j].configured());
            } else {
                let j = axes.len() - 1;
                assert(axes[j] == axes.last());
                assert(axes[j].configured());
                assert(configured_axes(axes)[i] == axis_labels(axes[j]));
            }
        }
    }
}

/// A copy of `axis` with the same labels.
pub fn copy_axis(axis: &SemanticAxis) -> (r: SemanticAxis)
    ensures
        axis_labels(r) == axis_labels(*axis),
{
    SemanticAxis {
        negative_label: String::from_str(axis.negative_label.as_str()),
        positive_label: String::from_str(axis.positive_label.as_str()),
    }
}

/// The configured axes, at most three, in order.
pub fn select_axes(axes: &Vec<SemanticAxis>) -> (r: Vec<SemanticAxis>)
    ensures
        labels_of(r@) == active_axes(axes@),
{
    let mut r: Vec<SemanticAxis> = Vec::new();
    let mut i: usize = 0;
    while i < axes.len()
        invariant
            0 <= i <= axes.len(),
            labels_of(r@) == first_three(configured_axes(axes@.take(i as int))),
        decreases axes.len() - i,
    {
        proof {
            assert(axes@.take(i + 1).drop_last() == axes@.take(i as int));
            assert(axes@.take(i + 1).last() == axes@[i as int]);
        }
        if axes[i].is_configured() && r.len() < 3 {
            let a = copy_axis(&axes[i]);
            proof {
                assert(labels_of(r@.push(a)) == labels_of(r@).push(axis_labels(a)));
            }
            r.push(a);
        }
        i += 1;
    }
    assert(axes@.take(axes.len() as int) == axes@);
    r
}

/// What a backfill will do: the axes to score pages on.
pub struct BackfillPlan {
    pub semantic_axes: Vec<SemanticAxis>,
    pub embeddings: bool,
}

/// Decides whether a backfill can run with the current settings and on
/// which axes: embeddings need a model, and something must be enabled.
pub fn plan_backfill(
    axes: &Vec<SemanticAxis>,
    page_semantic_map_enabled: bool,
    llm_semantic_map_enabled: bool,
    has_embedding_model: bool,
) -> (r: Result<BackfillPlan, BackfillError>)
    ensures
        match r {
            Ok(plan) => {
                &&& labels_of(plan.semantic_axes@) == active_axes(axes@)
                &&& plan.embeddings == (page_semantic_map_enabled || llm_semantic_map_enabled)
                &&& (plan.embeddings || active_axes(axes@).len() > 0)
                &&& (plan.embeddings ==> has_embedding_model)
            },
            Err(BackfillError::NothingEnabled) => !page_semantic_map_enabled
                && !llm_semantic_map_enabled && active_axes(axes@).len() == 0,
            Err(BackfillError::NoEmbeddingModel) => (page_semantic_map_enabled
                || llm_semantic_map_enabled) && !has_embedding_model,
        },
{
    let semantic_axes = select_axes(axes);
    let embeddings = page_semantic_map_enabled || llm_semantic_map_enabled;
    if !embeddings && semantic_axes.len() == 0 {
        return Err(BackfillError::NothingEnabled);
    }
    if embeddings && !has_embedding_model {
        return Err(BackfillError::NoEmbeddingModel);
    }
    Ok(BackfillPlan { semantic_axes, embeddings })
}

/// The stage a backfill pass is in. Stages run in this order, each only when
/// enabled: content embeddings, judgment embeddings, axis scoring.
#[derive(Clone, Copy, Debug, PartialEq, Eq)]
pub enum BackfillPhase {
    PageEmbeddings,
    LlmEmbeddings,
    /// Scanning stored judgments; `offset` rows have been scanned so far.
    AxisScoring { offset: u64 },
    Finished,
}

/// Which stages a pass runs.
#[derive(Clone, Copy, Debug, PartialEq, Eq)]
pub struct BackfillStages {
    pub page_embeddings: bool,
    pub llm_embeddings: bool,
    pub axis_scoring: bool,
}

/// The first enabled stage from content embeddings on.
pub open spec fn from_page(stages: BackfillStages) -> BackfillPhase {
    if stages.page_embeddings {
        BackfillPhase::PageEmbeddings
    } else {
        from_llm(stages)
    }
}

/// The first enabled stage from judgment embeddings on.
pub open spec fn from_llm(stages: BackfillStages) -> BackfillPhase {
    if stages.llm_embeddings {
        BackfillPhase::LlmEmbeddings
    } else {
        from_axes(stages)
    }
}

/// Axis scoring from the first row, when enabled.
pub open spec fn from_axes(stages: BackfillStages) -> BackfillPhase {
    if stages.axis_scoring {
        BackfillPhase::AxisScoring { offset: 0 }
    } else {
        BackfillPhase::Finished
    }
}

/// The stage that follows a batch of `batch_len` rows in `phase`: an empty
/// batch ends the stage; otherwise the stage goes on (axis scoring further
/// along the scan).
pub open spec fn next_phase(stages: BackfillStages, phase: BackfillPhase, batch_len: nat) -> BackfillPhase {
    match phase {
        BackfillPhase::PageEmbeddings => if batch_len == 0 {
            from_llm(stages)
        } else {
            phase
        },
        BackfillPhase::LlmEmbeddings => if batch_len == 0 {
            from_axes(stages)
        } else {
            phase
        },
        BackfillPhase::AxisScoring { offset } => if batch_len == 0 {
            BackfillPhase::Finished
        } else {
            BackfillPhase::AxisScoring { offset: (offset + batch_len) as u64 }
        },
        BackfillPhase::Finished => BackfillPhase::Finished,
    }
}

/// The stage a pass starts in.
pub fn first_phase(stages: BackfillStages) -> (r: BackfillPhase)
    ensures
        r == from_page(stages),
{
    if stages.page_embeddings {
        BackfillPhase::PageEmbeddings
    } else if stages.llm_embeddings {
        BackfillPhase::LlmEmbeddings
    } else if stages.axis_scoring {
        BackfillPhase::AxisScoring { offset: 0 }
    } else {
        BackfillPhase::Finished
    }
}

/// The stage after a batch of `batch_len` rows was handled in `phase`.
pub fn after_batch(stages: BackfillStages, phase: BackfillPhase, batch_len: usize) -> (r:
    BackfillPhase)
    requires
        phase matches BackfillPhase::AxisScoring { offset } ==> offset + batch_len <= u64::MAX,
    ensures
        r == next_phase(stages, phase, batch_len as nat),
{
    match phase {
        BackfillPhase::PageEmbeddings => if batch_len == 0 {
            if stages.llm_embeddings {
                BackfillPhase::LlmEmbeddings
            } else if stages.axis_scoring {
                BackfillPhase::AxisScoring { offset: 0 }
            } else {
                BackfillPhase::Finished
            }
        } else {
            phase
        },
        BackfillPhase::LlmEmbeddings => if batch_len == 0 {
            if stages.axis_scoring {
                BackfillPhase::AxisScoring { offset: 0 }
            } else {
                BackfillPhase::Finished
            }
        } else {
            phase
        },
        BackfillPhase::AxisScoring { offset } => if batch_len == 0 {
            BackfillPhase::Finished
        } else {
            BackfillPhase::AxisScoring { offset: offset + batch_len as u64 }
        },
        BackfillPhase::Finished => BackfillPhase::Finished,
    }
}

/// The rank of a stage in the fixed order of a pass.
pub open spec fn phase_rank(phase: BackfillPhase) -> nat {
    match phase {
        BackfillPhase::PageEmbeddings => 0,
        BackfillPhase::LlmEmbeddings => 1,
        BackfillPhase::AxisScoring { .. } => 2,
        BackfillPhase::Finished => 3,
    }
}

/// A pass never goes back to an earlier stage, only enters enabled stages,
/// and once finished stays finished.
pub proof fn lemma_phases_advance(stages: BackfillStages, phase: BackfillPhase, batch_len: nat)
    ensures
        phase_rank(phase) <= phase_rank(next_phase(stages, phase, batch_len)),
        next_phase(stages, phase, batch_len) == BackfillPhase::PageEmbeddings ==> stages.page_embeddings || phase == BackfillPhase::PageEmbeddings,
        next_phase(stages, phase, batch_len) == BackfillPhase::LlmEmbeddings ==> stages.llm_embeddings || phase == BackfillPhase::LlmEmbeddings,
        next_phase(stages, phase, batch_len) is AxisScoring ==> stages.axis_scoring || phase is AxisScoring,
        phase == BackfillPhase::Finished ==> next_phase(stages, phase, batch_len) == BackfillPhase::Finished,
        batch_len == 0 && phase != BackfillPhase::Finished ==> phase_rank(phase) < phase_rank(
            next_phase(stages, phase, batch_len),
        ),
{
}

} // verus!
