//! Decisions around the OpenAI-compatible model endpoint: locating the JSON
//! object in a model reply, when to retry without a structured-output hint,
//! and compacting text for prompts. The HTTP traffic itself lives outside.
use vstd::prelude::*;

use crate::extractor::{first_n, PageDigest};
use crate::models::{clamp_unit, clamp_unit_bits, LinkHint, LlmNovelty, OutboundLink, PageBrief};
use crate::text::{
    join, join_strings, push_str, texts,
    push_chars,    find_from, lemma_find_from_found, ascii_lower, chars_of, collapse_whitespace, collapse_ws, contains, find, find_chars, lower_ascii,
    slice_chars, starts_with, starts_with_at, string_of, string_of_range, trim, trim_chars,
    trim_start, trim_start_chars,
};

verus! {

/// Whether `text` parses as a JSON value under `serde_json`'s grammar.
pub uninterp spec fn spec_json_value(text: Seq<char>) -> bool;

/// Calls `serde_json::from_str::<serde_json::Value>`: true exactly when the
/// text parses as a JSON value. That depends on the text alone.
#[verifier::external_body]
fn parses_as_json(text: &str) -> (r: bool)
    ensures
        r == spec_json_value(text@),
{
    serde_json::from_str::<serde_json::Value>(text).is_ok()
}

/// The `response_format` hint sent with chat completions.
pub struct ResponseFormat {
    pub response_type: String,
}

impl ResponseFormat {
    /// The `{"type": "json_object"}` hint.
    pub fn json_object() -> (r: Self)
        ensures
            r.response_type@ == "json_object"@,
    {
        ResponseFormat { response_type: String::from_str("json_object") }
    }
}

/// Lexer state of the brace scan: nesting depth, inside a string, after a backslash.
pub open spec fn scan_step(st: (nat, bool, bool), ch: char) -> (nat, bool, bool) {
    let (depth, in_string, escaped) = st;
    if in_string {
        if escaped {
            (depth, true, false)
        } else if ch == '\\' {
            (depth, true, true)
        } else if ch == '"' {
            (depth, false, false)
        } else {
            (depth, true, false)
        }
    } else if ch == '"' {
        (depth, true, false)
    } else if ch == '{' {
        (depth + 1, false, false)
    } else if ch == '}' {
        (if depth > 0 { (depth - 1) as nat } else { 0 }, false, false)
    } else {
        st
    }
}

/// Lexer state after scanning `s` from its start.
pub open spec fn brace_scan(s: Seq<char>) -> (nat, bool, bool)
    decreases s.len(),
{
    if s.len() == 0 {
        (0, false, false)
    } else {
        scan_step(brace_scan(s.drop_last()), s.last())
    }
}

/// The `}` at `k` lies outside any string and brings the nesting back to zero.
pub open spec fn closes_at(s: Seq<char>, k: int) -> bool {
    &&& 0 <= k < s.len()
    &&& s[k] == '}'
    &&& !brace_scan(s.take(k)).1
    &&& brace_scan(s.take(k)).0 <= 1
}

/// `s[..=k]` ends at a top-level closing brace and parses as JSON.
pub open spec fn balanced_candidate(s: Seq<char>, k: int) -> bool {
    closes_at(s, k) && spec_json_value(s.take(k + 1))
}

/// The shortest prefix of `s`, searching ends from `k`, that closes the
/// nesting at a brace and parses as JSON.
pub open spec fn balanced_from(s: Seq<char>, k: int) -> Option<Seq<char>>
    decreases s.len() - k,
{
    if k < 0 || k >= s.len() {
        None
    } else if balanced_candidate(s, k) {
        Some(s.take(k + 1))
    } else {
        balanced_from(s, k + 1)
    }
}

/// Whatever the balanced search returns is a prefix of `s` that parses as JSON
/// and ends at a top-level closing brace, and no shorter such prefix exists.
pub proof fn lemma_balanced_from_sound(s: Seq<char>, k: int)
    requires
        0 <= k,
    ensures
        balanced_from(s, k) matches Some(x) ==> exists|e: int|
            #![trigger s.take(e + 1)]
            k <= e && balanced_candidate(s, e) && x == s.take(e + 1) && (forall|j: int|
                k <= j < e ==> !balanced_candidate(s, j)),
        balanced_from(s, k) is None ==> forall|j: int| k <= j ==> !balanced_candidate(s, j),
    decreases s.len() - k,
{
    if k < 0 || k >= s.len() {
    } else if balanced_candidate(s, k) {
        assert(s.take(k + 1) == s.take(k + 1));
    } else {
        lemma_balanced_from_sound(s, k + 1);
        if balanced_from(s, k + 1) is Some {
            let e = choose|e: int|
                #![trigger s.take(e + 1)]
                k + 1 <= e && balanced_candidate(s, e) && balanced_from(s, k + 1) == Some(
                    s.take(e + 1),
                ) && (forall|j: int| k + 1 <= j < e ==> !balanced_candidate(s, j));
            assert(forall|j: int| k <= j < e ==> !balanced_candidate(s, j));
        }
    }
}

/// The shortest brace-balanced prefix of `s` that parses as JSON.
pub open spec fn balanced_json(s: Seq<char>) -> Option<Seq<char>> {
    balanced_from(s, 0)
}

/// The first `{`-start in `t` at or after `i` whose balanced prefix parses as JSON.
pub open spec fn object_from(t: Seq<char>, i: int) -> Option<Seq<char>>
    decreases t.len() - i,
{
    if i < 0 || i >= t.len() {
        None
    } else if t[i] == '{' && balanced_json(t.skip(i)) is Some {
        balanced_json(t.skip(i))
    } else {
        object_from(t, i + 1)
    }
}

/// An object found by the brace search is a slice of the text that opens
/// with `{` and closes with `}`.
pub proof fn lemma_object_from_shape(t: Seq<char>, i: int)
    requires
        0 <= i,
    ensures
        object_from(t, i) matches Some(x) ==> exists|a: int, b: int|
            #![trigger t.subrange(a, b)]
            i <= a < b <= t.len() && x == t.subrange(a, b) && t[a] == '{' && t[b - 1] == '}'
                && spec_json_value(x),
    decreases t.len() - i,
{
    if i >= t.len() {
    } else if t[i] == '{' && balanced_json(t.skip(i)) is Some {
        let s = t.skip(i);
        lemma_balanced_from_sound(s, 0);
        let e = choose|e: int|
            #![trigger s.take(e + 1)]
            0 <= e && balanced_candidate(s, e) && balanced_json(s) == Some(s.take(e + 1)) && (
            forall|j: int| 0 <= j < e ==> !balanced_candidate(s, j));
        assert(s.take(e + 1) =~= t.subrange(i, i + e + 1));
        assert(t[i + e] == s[e]);
    } else {
        lemma_object_from_shape(t, i + 1);
    }
}

/// The three backticks of a markdown fence.
pub open spec fn fence() -> Seq<char> {
    seq!['`', '`', '`']
}

/// The `json` language tag of a fence.
pub open spec fn json_tag() -> Seq<char> {
    seq!['j', 's', 'o', 'n']
}

/// The trimmed body of the first fenced block of `c`, when it parses as JSON.
pub open spec fn fenced_json(c: Seq<char>) -> Option<Seq<char>> {
    match find(c, fence()) {
        None => None,
        Some(start) => {
            let rest0 = c.skip(start + 3);
            let rest = if starts_with(rest0, json_tag()) {
                trim_start(rest0.skip(4))
            } else {
                rest0
            };
            match find(rest, fence()) {
                None => None,
                Some(end) => {
                    let candidate = trim(rest.take(end));
                    if spec_json_value(candidate) {
                        Some(candidate)
                    } else {
                        None
                    }
                },
            }
        },
    }
}

/// The JSON object carried by a model reply: the whole trimmed reply when it
/// parses, else the first fenced block that parses, else the first balanced
/// `{...}` that parses.
pub open spec fn json_object_of(content: Seq<char>) -> Option<Seq<char>> {
    let t = trim(content);
    if spec_json_value(t) {
        Some(t)
    } else if fenced_json(t) is Some {
        fenced_json(t)
    } else {
        object_from(t, 0)
    }
}

/// The brace search takes the object at the earliest `{` whose balanced
/// prefix parses: every earlier `{` from `i` on has none.
pub proof fn lemma_object_from_earliest(t: Seq<char>, i: int)
    requires
        0 <= i,
    ensures
        object_from(t, i) matches Some(x) ==> exists|k: int|
            i <= k < t.len() && t[k] == '{' && #[trigger] balanced_json(t.skip(k)) == Some(x)
                && forall|j: int|
                i <= j < k && t[j] == '{' ==> #[trigger] balanced_json(t.skip(j)) is None,
        object_from(t, i) is None ==> forall|j: int|
            i <= j < t.len() && t[j] == '{' ==> #[trigger] balanced_json(t.skip(j)) is None,
    decreases t.len() - i,
{
    if i >= t.len() {
    } else if t[i] == '{' && balanced_json(t.skip(i)) is Some {
        assert(balanced_json(t.skip(i)) == object_from(t, i));
    } else {
        lemma_object_from_earliest(t, i + 1);
        if object_from(t, i + 1) is Some {
            let x = object_from(t, i + 1)->0;
            let k = choose|k: int|
                i + 1 <= k < t.len() && t[k] == '{' && #[trigger] balanced_json(t.skip(k)) == Some(
                    x,
                ) && forall|j: int|
                    i + 1 <= j < k && t[j] == '{' ==> #[trigger] balanced_json(t.skip(j)) is None;
            assert(forall|j: int|
                i <= j < k && t[j] == '{' ==> #[trigger] balanced_json(t.skip(j)) is None);
        }
    }
}

/// When neither the trimmed reply nor a fenced block parses, the object taken
/// from a reply starts at the earliest `{` of the trimmed reply whose
/// balanced prefix parses; no earlier `{` has one, and nothing is taken when
/// no `{` has one.
pub proof fn lemma_json_object_earliest(content: Seq<char>)
    requires
        !spec_json_value(trim(content)),
        fenced_json(trim(content)) is None,
    ensures
        json_object_of(content) matches Some(x) ==> exists|k: int|
            0 <= k < trim(content).len() && trim(content)[k] == '{' && #[trigger] balanced_json(
                trim(content).skip(k),
            ) == Some(x) && forall|j: int|
                0 <= j < k && trim(content)[j] == '{' ==> #[trigger] balanced_json(
                    trim(content).skip(j),
                ) is None,
        json_object_of(content) is None ==> forall|j: int|
            0 <= j < trim(content).len() && trim(content)[j] == '{' ==> #[trigger] balanced_json(
                trim(content).skip(j),
            ) is None,
{
    lemma_object_from_earliest(trim(content), 0);
}

/// Whatever is taken from a reply parses as JSON, and a reply that is JSON
/// as a whole (surrounding whitespace aside) is taken whole.
pub proof fn lemma_json_object_parses(content: Seq<char>)
    ensures
        json_object_of(content) matches Some(x) ==> spec_json_value(x),
        spec_json_value(trim(content)) ==> json_object_of(content) == Some(trim(content)),
{
    lemma_object_from_shape(trim(content), 0);
}

/// Shortest brace-balanced prefix of `cs` that parses as JSON.
fn balanced_in(cs: &Vec<char>) -> (r: Option<String>)
    ensures
        r matches Some(x) ==> balanced_json(cs@) == Some(x@),
        r is None ==> balanced_json(cs@) is None,
{
    let mut depth: usize = 0;
    let mut in_string = false;
    let mut escaped = false;
    let mut idx: usize = 0;
    while idx < cs.len()
        invariant
            0 <= idx <= cs.len(),
            depth <= idx,
            brace_scan(cs@.take(idx as int)) == (depth as nat, in_string, escaped),
            !in_string ==> !escaped,
            balanced_json(cs@) == balanced_from(cs@, idx as int),
        decreases cs.len() - idx,
    {
        let ch = cs[idx];
        proof {
            assert(cs@.take(idx + 1).drop_last() == cs@.take(idx as int));
            assert(cs@.take(idx + 1).last() == ch);
        }
        if in_string {
            if escaped {
                escaped = false;
            } else if ch == '\\' {
                escaped = true;
            } else if ch == '"' {
                in_string = false;
            }
        } else if ch == '"' {
            in_string = true;
        } else if ch == '{' {
            depth = depth + 1;
        } else if ch == '}' {
            let before = depth;
            if depth > 0 {
                depth = depth - 1;
            }
            if depth == 0 {
                let candidate = string_of_range(cs, 0, idx + 1);
                assert(cs@.subrange(0, idx + 1) == cs@.take(idx + 1));
                if parses_as_json(candidate.as_str()) {
                    assert(closes_at(cs@, idx as int));
                    return Some(candidate);
                }
                assert(!balanced_candidate(cs@, idx as int));
            } else {
                assert(!closes_at(cs@, idx as int));
            }
        }
        proof {
            if !(ch == '}' && !brace_scan(cs@.take(idx as int)).1) {
                assert(!closes_at(cs@, idx as int));
            }
        }
        idx = idx + 1;
    }
    None
}

/// The shortest prefix of `content` that closes its braces at top level
/// (outside JSON strings) and parses as JSON.
pub fn extract_balanced_json(content: &str) -> (r: Option<String>)
    ensures
        r matches Some(x) ==> balanced_json(content@) == Some(x@),
        r is None ==> balanced_json(content@) is None,
{
    let cs = chars_of(content);
    balanced_in(&cs)
}

/// The trimmed body of the first markdown-fenced block of `content`
/// (a leading `json` tag dropped), when that body parses as JSON.
pub fn extract_fenced_json(content: &str) -> (r: Option<String>)
    ensures
        r matches Some(x) ==> fenced_json(content@) == Some(x@),
        r is None ==> fenced_json(content@) is None,
{
    let cs = chars_of(content);
    let fence_chars: Vec<char> = vec!['`', '`', '`'];
    assert(fence_chars@ == fence());
    let found = find_chars(&cs, &fence_chars, 0);
    let start = match found {
        None => return None,
        Some(start) => start,
    };
    proof {
        assert(find_from(cs@, fence_chars@, 0) == Some(start as int));
        lemma_find_from_found(cs@, fence_chars@, 0);
        assert(fence_chars@.len() == 3);
        assert(start + 3 <= cs@.len());
    }
    let n = cs.len();
    let rest0 = slice_chars(&cs, start + 3, n);
    assert(rest0@ == cs@.skip(start + 3));
    let tag: Vec<char> = vec!['j', 's', 'o', 'n'];
    assert(tag@ == json_tag());
    let rest = if starts_with_at(&rest0, 0, &tag) {
        let after = slice_chars(&rest0, 4, rest0.len());
        assert(after@ == rest0@.skip(4));
        trim_start_chars(&after)
    } else {
        assert(rest0@.skip(0) == rest0@);
        rest0
    };
    proof {
        assert(rest0@.skip(0) == rest0@);
    }
    let end = match find_chars(&rest, &fence_chars, 0) {
        None => return None,
        Some(end) => end,
    };
    proof {
        lemma_find_from_found(rest@, fence_chars@, 0);
    }
    let body = slice_chars(&rest, 0, end);
    assert(body@ == rest@.take(end as int));
    let candidate = trim_chars(&body);
    let text = string_of(&candidate);
    if parses_as_json(text.as_str()) {
        Some(text)
    } else {
        None
    }
}

/// The JSON object carried by a model reply: the trimmed reply itself when it
/// parses, else the first fenced block that parses, else the first
/// brace-balanced `{...}` that parses.
pub fn extract_json_object(content: &str) -> (r: Option<String>)
    ensures
        r matches Some(x) ==> json_object_of(content@) == Some(x@),
        r is None ==> json_object_of(content@) is None,
        r matches Some(x) ==> spec_json_value(x@),
{
    let cs = chars_of(content);
    let t = trim_chars(&cs);
    let trimmed = string_of(&t);
    if parses_as_json(trimmed.as_str()) {
        return Some(trimmed);
    }
    let fenced = extract_fenced_json(trimmed.as_str());
    if fenced.is_some() {
        return fenced;
    }
    let mut start: usize = 0;
    while start < t.len()
        invariant
            0 <= start <= t.len(),
            object_from(t@, 0) == object_from(t@, start as int),
            json_object_of(content@) == object_from(t@, 0),
        decreases t.len() - start,
    {
        if t[start] == '{' {
            let sub = slice_chars(&t, start, t.len());
            assert(sub@ == t@.skip(start as int));
            let found = balanced_in(&sub);
            if found.is_some() {
                proof {
                    lemma_balanced_from_sound(sub@, 0);
                }
                return found;
            }
        }
        start += 1;
    }
    None
}

/// Whether a rejected chat request should be sent again without its
/// `response_format` hint: the server answered 400, a hint was sent, and the
/// lowered body names `response_format` together with a structured-output
/// complaint.
pub open spec fn retry_without_format(
    status_code: u16,
    body: Seq<char>,
    has_format: bool,
) -> bool {
    let n = ascii_lower(body);
    &&& status_code == 400
    &&& has_format
    &&& contains(n, "response_format"@)
    &&& (contains(n, "json_object"@) || contains(n, "json_schema"@) || contains(
        n,
        "must be 'json_schema' or 'text'"@,
    ) || contains(n, "unsupported"@))
}

/// `pat` occurs in `hay`.
fn has_text(hay: &Vec<char>, pat: &str) -> (r: bool)
    ensures
        r == contains(hay@, pat@),
{
    let p = chars_of(pat);
    find_chars(hay, &p, 0).is_some()
}

/// Decides whether to retry a chat request without its structured-output hint.
pub fn should_retry_without_response_format(
    status_code: u16,
    body: &str,
    response_format: Option<&ResponseFormat>,
) -> (r: bool)
    ensures
        r == retry_without_format(status_code, body@, response_format is Some),
{
    if status_code != 400 || response_format.is_none() {
        return false;
    }
    let body_chars = chars_of(body);
    let normalized = lower_ascii(&body_chars);
    has_text(&normalized, "response_format") && (has_text(&normalized, "json_object") || has_text(
        &normalized,
        "json_schema",
    ) || has_text(&normalized, "must be 'json_schema' or 'text'") || has_text(
        &normalized,
        "unsupported",
    ))
}

/// Three dots marking an elided tail.
pub open spec fn ellipsis() -> Seq<char> {
    seq!['.', '.', '.']
}

/// `value` with whitespace collapsed, cut to `max_chars` characters plus an
/// ellipsis when longer.
pub open spec fn compacted(value: Seq<char>, max_chars: nat) -> Seq<char> {
    let normalized = collapse_ws(value);
    if normalized.len() <= max_chars {
        normalized
    } else {
        normalized.take(max_chars as int) + ellipsis()
    }
}

/// A compacted text is at most three characters longer than the limit, and
/// is the collapsed text itself whenever that fits.
pub proof fn lemma_compacted_bounded(value: Seq<char>, max_chars: nat)
    ensures
        compacted(value, max_chars).len() <= max_chars + 3,
        collapse_ws(value).len() <= max_chars ==> compacted(value, max_chars) == collapse_ws(
            value,
        ),
        collapse_ws(value).len() > max_chars ==> compacted(value, max_chars).take(
            max_chars as int,
        ) == collapse_ws(value).take(max_chars as int),
{
    let n = collapse_ws(value);
    if n.len() > max_chars {
        assert((n.take(max_chars as int) + ellipsis()).take(max_chars as int) =~= n.take(
            max_chars as int,
        ));
    }
}

/// `value` with whitespace collapsed and cut to `max_chars` characters
/// (followed by `...` when cut).
pub fn compact_text(value: &str, max_chars: usize) -> (r: String)
    ensures
        r@ == compacted(value@, max_chars as nat),
{
    let normalized = collapse_whitespace(value);
    let cs = chars_of(normalized.as_str());
    if cs.len() <= max_chars {
        normalized
    } else {
        let mut out = string_of_range(&cs, 0, max_chars);
        let dots: Vec<char> = vec!['.', '.', '.'];
        push_chars(&mut out, &dots);
        assert(cs@.subrange(0, max_chars as int) == cs@.take(max_chars as int));
        out
    }
}

/// Multi-line prompt sections compacted the same way as single values.
pub fn compact_lines(value: &str, max_chars: usize) -> (r: String)
    ensures
        r@ == compacted(value@, max_chars as nat),
{
    compact_text(value, max_chars)
}

/// Bearer authentication is sent only when an API key is configured.
pub fn auth_mode(api_key: &str) -> (r: &'static str)
    ensures
        api_key@.len() == 0 ==> r@ == "none"@,
        api_key@.len() > 0 ==> r@ == "bearer"@,
{
    if api_key.is_empty() {
        "none"
    } else {
        "bearer"
    }
}

/// Brings every score of a parsed judgment, and every link-hint priority,
/// into `[0, 1]`; the text is left as it is.
pub fn clamp_novelty(novelty: &mut LlmNovelty)
    ensures
        final(novelty).factual_novelty == clamp_unit(old(novelty).factual_novelty),
        final(novelty).entity_novelty == clamp_unit(old(novelty).entity_novelty),
        final(novelty).relational_novelty == clamp_unit(old(novelty).relational_novelty),
        final(novelty).temporal_novelty == clamp_unit(old(novelty).temporal_novelty),
        final(novelty).expected_crawl_value == clamp_unit(old(novelty).expected_crawl_value),
        final(novelty).analysis == old(novelty).analysis,
        final(novelty).concise_reason == old(novelty).concise_reason,
        final(novelty).likely_novel_aspects == old(novelty).likely_novel_aspects,
        final(novelty).likely_redundant_aspects == old(novelty).likely_redundant_aspects,
        final(novelty).recommended_action == old(novelty).recommended_action,
        final(novelty).axis_scores == old(novelty).axis_scores,
        final(novelty).recommended_link_hints@.len() == old(novelty).recommended_link_hints@.len(),
        forall|i: int|
            0 <= i < old(novelty).recommended_link_hints@.len() ==> {
                let before = #[trigger] old(novelty).recommended_link_hints@[i];
                let after = final(novelty).recommended_link_hints@[i];
                &&& after.link_url@ == before.link_url@
                &&& after.reason@ == before.reason@
                &&& after.priority == clamp_unit(before.priority)
            },
{
    novelty.factual_novelty = clamp_unit_bits(novelty.factual_novelty);
    novelty.entity_novelty = clamp_unit_bits(novelty.entity_novelty);
    novelty.relational_novelty = clamp_unit_bits(novelty.relational_novelty);
    novelty.temporal_novelty = clamp_unit_bits(novelty.temporal_novelty);
    novelty.expected_crawl_value = clamp_unit_bits(novelty.expected_crawl_value);
    let ghost before = novelty.recommended_link_hints@;
    let ghost mid = *novelty;
    let mut i: usize = 0;
    while i < novelty.recommended_link_hints.len()
        invariant
            0 <= i <= before.len(),
            novelty.factual_novelty == mid.factual_novelty,
            novelty.entity_novelty == mid.entity_novelty,
            novelty.relational_novelty == mid.relational_novelty,
            novelty.temporal_novelty == mid.temporal_novelty,
            novelty.expected_crawl_value == mid.expected_crawl_value,
            novelty.analysis == mid.analysis,
            novelty.concise_reason == mid.concise_reason,
            novelty.likely_novel_aspects == mid.likely_novel_aspects,
            novelty.likely_redundant_aspects == mid.likely_redundant_aspects,
            novelty.recommended_action == mid.recommended_action,
            novelty.axis_scores == mid.axis_scores,
            novelty.recommended_link_hints@.len() == before.len(),
            forall|k: int|
                0 <= k < before.len() ==> {
                    let b = #[trigger] before[k];
                    let a = novelty.recommended_link_hints@[k];
                    &&& a.link_url@ == b.link_url@
                    &&& a.reason@ == b.reason@
                    &&& a.priority == if k < i {
                        clamp_unit(b.priority)
                    } else {
                        b.priority
                    }
                },
        decreases before.len() - i,
    {
        let hint = LinkHint {
            link_url: String::from_str(novelty.recommended_link_hints[i].link_url.as_str()),
            reason: String::from_str(novelty.recommended_link_hints[i].reason.as_str()),
            priority: clamp_unit_bits(novelty.recommended_link_hints[i].priority),
        };
        novelty.recommended_link_hints.set(i, hint);
        i += 1;
    }
}

/// A prompt bullet: `- ` and the text.
pub open spec fn bullet(text: Seq<char>) -> Seq<char> {
    seq!['-', ' '] + text
}

/// The bullet list of the first `k` items, each compacted to `max_chars`.
pub open spec fn compacted_bullets(items: Seq<Seq<char>>, k: nat, max_chars: nat) -> Seq<char> {
    join(first_n(items, k).map_values(|x: Seq<char>| bullet(compacted(x, max_chars))), seq!['\n'])
}

/// The field separator inside one prompt line.
pub open spec fn bar() -> Seq<char> {
    seq![' ', '|', ' ']
}

/// A nearby page as the prompt lists it: URL, title and summary.
pub open spec fn nearby_line(p: PageBrief) -> Seq<char> {
    bullet(p.url@ + bar() + p.title@ + bar() + p.summary@)
}

/// A page of the same domain as the prompt lists it: URL and summary.
pub open spec fn domain_line(p: PageBrief) -> Seq<char> {
    bullet(p.url@ + bar() + p.summary@)
}

/// An outbound link as the prompt lists it: URL and anchor text.
pub open spec fn link_line(l: OutboundLink) -> Seq<char> {
    bullet(l.url@ + bar() + l.anchor@)
}

/// The textual sections of the scoring prompt for a candidate page. The
/// cheap signals, which are floats, are formatted by the caller.
pub struct PromptSections {
    pub url: String,
    pub title: String,
    pub summary: String,
    pub key_points: String,
    pub entities: String,
    pub claims: String,
    pub outbound: String,
    pub nearby: String,
    pub same_domain: String,
}

/// The first `k` items, each compacted to `max_chars`, as a bullet list.
fn bullet_list(items: &Vec<String>, k: usize, max_chars: usize) -> (r: String)
    ensures
        r@ == compacted_bullets(texts(items@), k as nat, max_chars as nat),
{
    let limit = if k < items.len() {
        k
    } else {
        items.len()
    };
    let ghost target = first_n(texts(items@), k as nat).map_values(
        |x: Seq<char>| bullet(compacted(x, max_chars as nat)),
    );
    let mut lines: Vec<String> = Vec::new();
    let mut i: usize = 0;
    while i < limit
        invariant
            0 <= i <= limit <= items@.len(),
            limit == first_n(texts(items@), k as nat).len(),
            target == first_n(texts(items@), k as nat).map_values(
                |x: Seq<char>| bullet(compacted(x, max_chars as nat)),
            ),
            texts(lines@) == target.take(i as int),
        decreases limit - i,
    {
        let mut line = String::from_str("- ");
        proof {
            reveal_strlit("- ");
        }
        let c = compact_text(items[i].as_str(), max_chars);
        push_str(&mut line, c.as_str());
        proof {
            assert(line@ =~= bullet(compacted(items@[i as int]@, max_chars as nat)));
            assert(target[i as int] == line@);
            assert(texts(lines@.push(line)) =~= texts(lines@).push(line@));
            assert(target.take(i + 1) =~= target.take(i as int).push(target[i as int]));
        }
        lines.push(line);
        i += 1;
    }
    assert(target.take(limit as int) =~= target);
    proof {
        reveal_strlit("\n");
    }
    let r = join_strings(&lines, "\n");
    assert("\n"@ =~= seq!['\n']);
    r
}

/// Appends the prompt line of each page (built by `line`) to a list, then
/// joins it: the first `k` similar pages with their titles.
fn nearby_lines(pages: &[PageBrief], k: usize) -> (r: String)
    ensures
        r@ == join(first_n(pages@, k as nat).map_values(|p: PageBrief| nearby_line(p)), seq!['\n']),
{
    let limit = if k < pages.len() {
        k
    } else {
        pages.len()
    };
    let ghost target = first_n(pages@, k as nat).map_values(|p: PageBrief| nearby_line(p));
    let mut lines: Vec<String> = Vec::new();
    let mut i: usize = 0;
    while i < limit
        invariant
            0 <= i <= limit <= pages@.len(),
            limit == first_n(pages@, k as nat).len(),
            target == first_n(pages@, k as nat).map_values(|p: PageBrief| nearby_line(p)),
            texts(lines@) == target.take(i as int),
        decreases limit - i,
    {
        let mut line = String::from_str("- ");
        proof {
            reveal_strlit("- ");
            reveal_strlit(" | ");
        }
        push_str(&mut line, pages[i].url.as_str());
        push_str(&mut line, " | ");
        push_str(&mut line, pages[i].title.as_str());
        push_str(&mut line, " | ");
        push_str(&mut line, pages[i].summary.as_str());
        proof {
            assert(line@ =~= nearby_line(pages@[i as int]));
            assert(texts(lines@.push(line)) =~= texts(lines@).push(line@));
            assert(target.take(i + 1) =~= target.take(i as int).push(target[i as int]));
        }
        lines.push(line);
        i += 1;
    }
    assert(target.take(limit as int) =~= target);
    proof {
        reveal_strlit("\n");
    }
    let r = join_strings(&lines, "\n");
    assert("\n"@ =~= seq!['\n']);
    r
}

/// The first `k` pages of the same domain, one line each.
fn domain_lines(pages: &[PageBrief], k: usize) -> (r: String)
    ensures
        r@ == join(first_n(pages@, k as nat).map_values(|p: PageBrief| domain_line(p)), seq!['\n']),
{
    let limit = if k < pages.len() {
        k
    } else {
        pages.len()
    };
    let ghost target = first_n(pages@, k as nat).map_values(|p: PageBrief| domain_line(p));
    let mut lines: Vec<String> = Vec::new();
    let mut i: usize = 0;
    while i < limit
        invariant
            0 <= i <= limit <= pages@.len(),
            limit == first_n(pages@, k as nat).len(),
            target == first_n(pages@, k as nat).map_values(|p: PageBrief| domain_line(p)),
            texts(lines@) == target.take(i as int),
        decreases limit - i,
    {
        let mut line = String::from_str("- ");
        proof {
            reveal_strlit("- ");
            reveal_strlit(" | ");
        }
        push_str(&mut line, pages[i].url.as_str());
        push_str(&mut line, " | ");
        push_str(&mut line, pages[i].summary.as_str());
        proof {
            assert(line@ =~= domain_line(pages@[i as int]));
            assert(texts(lines@.push(line)) =~= texts(lines@).push(line@));
            assert(target.take(i + 1) =~= target.take(i as int).push(target[i as int]));
        }
        lines.push(line);
        i += 1;
    }
    assert(target.take(limit as int) =~= target);
    proof {
        reveal_strlit("\n");
    }
    let r = join_strings(&lines, "\n");
    assert("\n"@ =~= seq!['\n']);
    r
}

/// The first `k` outbound links, one line each.
fn link_lines(links: &Vec<OutboundLink>, k: usize) -> (r: String)
    ensures
        r@ == join(first_n(links@, k as nat).map_values(|l: OutboundLink| link_line(l)), seq!['\n']),
{
    let limit = if k < links.len() {
        k
    } else {
        links.len()
    };
    let ghost target = first_n(links@, k as nat).map_values(|l: OutboundLink| link_line(l));
    let mut lines: Vec<String> = Vec::new();
    let mut i: usize = 0;
    while i < limit
        invariant
            0 <= i <= limit <= links@.len(),
            limit == first_n(links@, k as nat).len(),
            target == first_n(links@, k as nat).map_values(|l: OutboundLink| link_line(l)),
            texts(lines@) == target.take(i as int),
        decreases limit - i,
    {
        let mut line = String::from_str("- ");
        proof {
            reveal_strlit("- ");
            reveal_strlit(" | ");
        }
        push_str(&mut line, links[i].url.as_str());
        push_str(&mut line, " | ");
        push_str(&mut line, links[i].anchor.as_str());
        proof {
            assert(line@ =~= link_line(links@[i as int]));
            assert(texts(lines@.push(line)) =~= texts(lines@).push(line@));
            assert(target.take(i + 1) =~= target.take(i as int).push(target[i as int]));
        }
        lines.push(line);
        i += 1;
    }
    assert(target.take(limit as int) =~= target);
    proof {
        reveal_strlit("\n");
    }
    let r = join_strings(&lines, "\n");
    assert("\n"@ =~= seq!['\n']);
    r
}

/// The texts the scoring prompt quotes: the candidate's title (to 120
/// characters) and summary (to 340), its first four key points (140 each),
/// ten entities (40 each) and four claims (180 each), its first ten outbound
/// links (900 in all), four nearby pages (1200) and three pages of the same
/// domain (800).
pub fn build_prompt(candidate: &PageDigest, similar_pages: &[PageBrief], same_domain_pages: &[PageBrief]) -> (r: PromptSections)
    ensures
        r.url@ == candidate.url@,
        r.title@ == compacted(candidate.title@, 120),
        r.summary@ == compacted(candidate.short_summary@, 340),
        r.key_points@ == compacted_bullets(texts(candidate.key_points@), 4, 140),
        r.entities@ == compacted_bullets(texts(candidate.entities@), 10, 40),
        r.claims@ == compacted_bullets(texts(candidate.claims@), 4, 180),
        r.outbound@ == compacted(
            join(first_n(candidate.outbound_links@, 10).map_values(|l: OutboundLink| link_line(l)), seq!['\n']),
            900,
        ),
        r.nearby@ == compacted(
            join(first_n(similar_pages@, 4).map_values(|p: PageBrief| nearby_line(p)), seq!['\n']),
            1200,
        ),
        r.same_domain@ == compacted(
            join(first_n(same_domain_pages@, 3).map_values(|p: PageBrief| domain_line(p)), seq!['\n']),
            800,
        ),
{
    let nearby = nearby_lines(similar_pages, 4);
    let same_domain = domain_lines(same_domain_pages, 3);
    let outbound = link_lines(&candidate.outbound_links, 10);
    PromptSections {
        url: String::from_str(candidate.url.as_str()),
        title: compact_text(candidate.title.as_str(), 120),
        summary: compact_text(candidate.short_summary.as_str(), 340),
        key_points: bullet_list(&candidate.key_points, 4, 140),
        entities: bullet_list(&candidate.entities, 10, 40),
        claims: bullet_list(&candidate.claims, 4, 180),
        outbound: compact_lines(outbound.as_str(), 900),
        nearby: compact_lines(nearby.as_str(), 1200),
        same_domain: compact_lines(same_domain.as_str(), 800),
    }
}

} // verus!
