//! Texts the crawl loop sends for embedding. Fetching, scoring and storage
//! are driven from outside; the loop's decisions that involve no floats are here.
use vstd::prelude::*;

use crate::backfill::{build_llm_embedding_from_novelty, judgment_text};
use crate::extractor::{first_n, PageDigest};
use crate::models::{has_content, is_blank, CheapSignals, LlmNovelty};
use crate::text::{chars_of, contains, find_chars, join, join_strings, texts};

verus! {

/// The sections embedded for a digest: title, summary, then the first four
/// key points and the first four claims.
pub open spec fn digest_sections(d: PageDigest) -> Seq<Seq<char>> {
    seq![d.title@, d.short_summary@] + first_n(texts(d.key_points@), 4) + first_n(
        texts(d.claims@),
        4,
    )
}

/// Appends copies of the first `n` strings of `items` to `out`.
fn extend_first(out: &mut Vec<String>, items: &Vec<String>, n: usize)
    ensures
        texts(final(out)@) == texts(old(out)@) + first_n(texts(items@), n as nat),
{
    let limit = if n < items.len() {
        n
    } else {
        items.len()
    };
    let ghost start = texts(out@);
    let mut i: usize = 0;
    while i < limit
        invariant
            0 <= i <= limit <= items.len(),
            texts(out@) == start + texts(items@).take(i as int),
        decreases limit - i,
    {
        let c = String::from_str(items[i].as_str());
        proof {
            assert(texts(out@.push(c)) == texts(out@).push(c@));
            assert(texts(items@).take(i + 1) == texts(items@).take(i as int).push(items@[i as int]@));
            assert(start + texts(items@).take(i + 1) == (start + texts(items@).take(i as int)).push(
                c@,
            ));
        }
        out.push(c);
        i += 1;
    }
}

/// The text embedded for a freshly crawled page, one section per line.
pub fn build_embedding_input(digest: &PageDigest) -> (r: String)
    ensures
        r@ == join(digest_sections(*digest), "\n"@),
{
    let mut sections: Vec<String> = Vec::new();
    sections.push(String::from_str(digest.title.as_str()));
    sections.push(String::from_str(digest.short_summary.as_str()));
    assert(texts(sections@) =~= seq![digest.title@, digest.short_summary@]);
    extend_first(&mut sections, &digest.key_points, 4);
    extend_first(&mut sections, &digest.claims, 4);
    join_strings(&sections, "\n")
}

/// The text embedded for a fresh model judgment.
pub fn build_llm_embedding_input(judgment: &LlmNovelty) -> (r: String)
    ensures
        r@ == judgment_text(*judgment),
{
    build_llm_embedding_from_novelty(judgment)
}

/// For a positive finite `threshold`, the `f32` with bits `bits` is strictly
/// greater than the one with bits `threshold` (NaN and negatives are not).
pub open spec fn f32_above(bits: u32, threshold: u32) -> bool {
    bits < 0x8000_0000 && threshold < bits && bits <= 0x7f80_0000
}

fn above(bits: u32, threshold: u32) -> (r: bool)
    ensures
        r == f32_above(bits, threshold),
{
    bits < 0x8000_0000 && threshold < bits && bits <= 0x7f80_0000
}

/// Whether the cheap signals are interesting enough to pay for a model
/// judgment: semantic distance above 0.10, new-token ratio above 0.12,
/// graph diversity above 0.25, or content change above 0.5.
pub open spec fn worth_querying(s: CheapSignals) -> bool {
    f32_above(s.semantic_distance, 0x3dcc_cccd) || f32_above(s.new_token_ratio, 0x3df5_c28f)
        || f32_above(s.local_graph_diversity, 0x3e80_0000) || f32_above(
        s.content_delta_from_last_snapshot,
        0x3f00_0000,
    )
}

/// Whether to ask the model to judge a page with these cheap signals.
pub fn should_query_model(signals: &CheapSignals) -> (r: bool)
    ensures
        r == worth_querying(*signals),
{
    above(signals.semantic_distance, 0x3dcc_cccd) || above(signals.new_token_ratio, 0x3df5_c28f)
        || above(signals.local_graph_diversity, 0x3e80_0000) || above(
        signals.content_delta_from_last_snapshot,
        0x3f00_0000,
    )
}

/// Why a fetched page is not processed further.
#[derive(Clone, Debug, PartialEq, Eq)]
pub enum FetchRejection {
    /// The server answered with a status outside 200..=299.
    Status(u16),
    /// The response is not HTML; the content type is kept.
    UnsupportedContentType(String),
    /// Extraction left no text to judge.
    NoUsableText,
}

/// The `Content-Type` that marks an HTML response.
pub open spec fn html_marker() -> Seq<char> {
    seq!['t', 'e', 'x', 't', '/', 'h', 't', 'm', 'l']
}

/// The response may be read as a page: a success status and an HTML content
/// type (a missing header counts as the empty string).
pub fn check_response(status: u16, content_type: &str) -> (r: Result<(), FetchRejection>)
    ensures
        !(200 <= status <= 299) ==> r == Err::<(), FetchRejection>(FetchRejection::Status(status)),
        200 <= status <= 299 && !contains(content_type@, html_marker()) ==> (r matches Err(
            FetchRejection::UnsupportedContentType(t),
        ) && t@ == content_type@),
        200 <= status <= 299 && contains(content_type@, html_marker()) ==> r is Ok,
{
    if status < 200 || status > 299 {
        return Err(FetchRejection::Status(status));
    }
    let cs = chars_of(content_type);
    let marker: Vec<char> = vec!['t', 'e', 'x', 't', '/', 'h', 't', 'm', 'l'];
    assert(marker@ =~= html_marker());
    match find_chars(&cs, &marker, 0) {
        Some(_) => Ok(()),
        None => Err(FetchRejection::UnsupportedContentType(String::from_str(content_type))),
    }
}

/// The extracted page has text to judge.
pub fn check_digest(digest: &PageDigest) -> (r: Result<(), FetchRejection>)
    ensures
        digest.clean_text@.len() == 0 ==> r == Err::<(), FetchRejection>(
            FetchRejection::NoUsableText,
        ),
        digest.clean_text@.len() > 0 ==> r is Ok,
{
    if digest.clean_text.as_str().is_empty() {
        Err(FetchRejection::NoUsableText)
    } else {
        Ok(())
    }
}

/// What the crawl loop just did, or that it is paused.
#[derive(Clone, Copy, Debug, PartialEq, Eq)]
pub enum CrawlStep {
    /// The operator paused crawling; no frontier item was claimed.
    Paused,
    /// A frontier item was claimed and processed (or marked failed).
    Processed,
    /// The frontier had nothing queued.
    Empty,
    /// Claiming or recording an item failed.
    Failed,
}

/// How long, in milliseconds, the loop waits before its next step: a short
/// poll while paused, none after a processed item, the configured idle delay
/// when the frontier was empty or the step failed.
pub fn crawl_delay_ms(step: CrawlStep, idle_delay_ms: u64) -> (r: u64)
    ensures
        r == match step {
            CrawlStep::Paused => 180,
            CrawlStep::Processed => 0,
            CrawlStep::Empty | CrawlStep::Failed => idle_delay_ms,
        },
{
    match step {
        CrawlStep::Paused => 180,
        CrawlStep::Processed => 0,
        CrawlStep::Empty | CrawlStep::Failed => idle_delay_ms,
    }
}

/// The text to embed for a fresh judgment: only when judgment embeddings are
/// enabled, a judgment was made, and its text is not blank.
pub fn judgment_embedding_input(enabled: bool, judgment: Option<&LlmNovelty>) -> (r: Option<String>)
    ensures
        r.deep_view() == match judgment {
            Some(j) => if enabled && has_content(judgment_text(*j)) {
                Some(judgment_text(*j))
            } else {
                None
            },
            None => None,
        },
{
    if !enabled {
        return None;
    }
    match judgment {
        Some(j) => {
            let input = build_llm_embedding_input(j);
            if is_blank(input.as_str()) {
                None
            } else {
                Some(input)
            }
        },
        None => None,
    }
}

/// The text to embed for a fresh page, when content embeddings are enabled.
pub fn page_embedding_input(enabled: bool, digest: &PageDigest) -> (r: Option<String>)
    ensures
        r.deep_view() == if enabled {
            Some(join(digest_sections(*digest), "\n"@))
        } else {
            None::<Seq<char>>
        },
{
    if enabled {
        Some(build_embedding_input(digest))
    } else {
        None
    }
}

} // verus!
