//! The lexical side of novelty scoring: the distinctive tokens of a text.
//! Similarities and energies are floating-point and computed by the caller.
use vstd::prelude::*;

use crate::extractor::{link_view, link_views, spec_url_domain, url_domain, PageDigest};
use crate::models::{LinkHint, OutboundLink};
use crate::rank::{distinct, key_ints, lemma_top_ranked_unique, min_len, positions, rank_top, top_ranked};
use crate::text::{chars_equal, contains, find_chars, split_words, words, ascii_lower, ascii_lower_char, byte_len, chars_of, lower_ascii, same_chars, string_of, texts, trim, trim_chars};

verus! {

/// Whether `c` has the Unicode `Alphabetic` or `Numeric` property.
pub uninterp spec fn spec_is_alphanumeric(c: char) -> bool;

/// Calls `char::is_alphanumeric`, which depends on the character alone.
#[verifier::external_body]
fn char_is_alphanumeric(c: char) -> (r: bool)
    ensures
        r == spec_is_alphanumeric(c),
{
    c.is_alphanumeric()
}

/// Scan state of a split at characters that are not alphanumeric.
pub open spec fn token_scan(s: Seq<char>) -> (Seq<Seq<char>>, Seq<char>)
    decreases s.len(),
{
    if s.len() == 0 {
        (Seq::empty(), Seq::empty())
    } else {
        let (done, cur) = token_scan(s.drop_last());
        if !spec_is_alphanumeric(s.last()) {
            (done.push(cur), Seq::empty())
        } else {
            (done, cur.push(s.last()))
        }
    }
}

/// The pieces of `s` between non-alphanumeric characters, empty ones included.
pub open spec fn token_pieces(s: Seq<char>) -> Seq<Seq<char>> {
    let (done, cur) = token_scan(s);
    done.push(cur)
}

/// The pieces trimmed, those of at least four bytes kept and ASCII-lowered.
pub open spec fn long_tokens(pieces: Seq<Seq<char>>) -> Seq<Seq<char>>
    decreases pieces.len(),
{
    if pieces.len() == 0 {
        Seq::empty()
    } else {
        let prior = long_tokens(pieces.drop_last());
        let t = trim(pieces.last());
        if byte_len(t) >= 4 {
            prior.push(ascii_lower(t))
        } else {
            prior
        }
    }
}

/// `s` without repeats, each item kept at its first occurrence.
pub open spec fn dedup(s: Seq<Seq<char>>) -> Seq<Seq<char>>
    decreases s.len(),
{
    if s.len() == 0 {
        Seq::empty()
    } else {
        let prior = dedup(s.drop_last());
        if prior.contains(s.last()) {
            prior
        } else {
            prior.push(s.last())
        }
    }
}

/// The distinct lower-cased tokens of at least four bytes in `text`.
pub open spec fn tokens_of(text: Seq<char>) -> Seq<Seq<char>> {
    dedup(long_tokens(token_pieces(text)))
}

/// Position of `x` among `seen`, if there.
fn seen_before(seen: &Vec<Vec<char>>, x: &Vec<char>) -> (r: bool)
    ensures
        r == seen@.map_values(|v: Vec<char>| v@).contains(x@),
{
    let ghost views = seen@.map_values(|v: Vec<char>| v@);
    let mut i: usize = 0;
    while i < seen.len()
        invariant
            0 <= i <= seen.len(),
            views == seen@.map_values(|v: Vec<char>| v@),
            forall|t: int| 0 <= t < i ==> views[t] != x@,
        decreases seen.len() - i,
    {
        if same_chars(&seen[i], x) {
            assert(views[i as int] == x@);
            return true;
        }
        i += 1;
    }
    false
}

/// Scan state of a split at the characters not marked alphanumeric.
pub open spec fn token_scan_with(s: Seq<char>, alphanumeric: Seq<bool>) -> (Seq<Seq<char>>, Seq<char>)
    decreases s.len(),
{
    if s.len() == 0 {
        (Seq::empty(), Seq::empty())
    } else {
        let (done, cur) = token_scan_with(s.drop_last(), alphanumeric);
        if !alphanumeric[s.len() - 1] {
            (done.push(cur), Seq::empty())
        } else {
            (done, cur.push(s.last()))
        }
    }
}

/// The pieces of `s` between the characters not marked alphanumeric.
pub open spec fn pieces_with(s: Seq<char>, alphanumeric: Seq<bool>) -> Seq<Seq<char>> {
    let (done, cur) = token_scan_with(s, alphanumeric);
    done.push(cur)
}

/// Marking each character by `char::is_alphanumeric` gives the same split.
proof fn lemma_token_scan_with(s: Seq<char>, alphanumeric: Seq<bool>)
    requires
        alphanumeric.len() >= s.len(),
        forall|i: int| 0 <= i < s.len() ==> #[trigger] alphanumeric[i] == spec_is_alphanumeric(s[i]),
    ensures
        token_scan_with(s, alphanumeric) == token_scan(s),
    decreases s.len(),
{
    if s.len() > 0 {
        let init = s.drop_last();
        assert forall|i: int| 0 <= i < init.len() implies #[trigger] alphanumeric[i]
            == spec_is_alphanumeric(init[i]) by {
            assert(init[i] == s[i]);
        }
        lemma_token_scan_with(init, alphanumeric);
        assert(alphanumeric[s.len() - 1] == spec_is_alphanumeric(s[s.len() - 1]));
    }
}

/// The distinct tokens of `text`, given which of its characters are
/// alphanumeric: pieces between the other characters, trimmed, at least four
/// bytes long, ASCII-lowered, each kept once in order of first appearance.
pub fn tokens_from_classes(text: &str, alphanumeric: &Vec<bool>) -> (r: Vec<String>)
    requires
        alphanumeric@.len() == text@.len(),
    ensures
        texts(r@) == dedup(long_tokens(pieces_with(text@, alphanumeric@))),
{
    let cs = chars_of(text);
    let mut pieces: Vec<Vec<char>> = Vec::new();
    let mut cur: Vec<char> = Vec::new();
    let mut i: usize = 0;
    while i < cs.len()
        invariant
            0 <= i <= cs.len(),
            cs@ == text@,
            alphanumeric@.len() == cs@.len(),
            pieces@.map_values(|v: Vec<char>| v@) == token_scan_with(cs@.take(i as int), alphanumeric@).0,
            cur@ == token_scan_with(cs@.take(i as int), alphanumeric@).1,
        decreases cs.len() - i,
    {
        proof {
            assert(cs@.take(i + 1).drop_last() == cs@.take(i as int));
        }
        let c = cs[i];
        if !alphanumeric[i] {
            let piece = cur;
            proof {
                assert(pieces@.push(piece).map_values(|v: Vec<char>| v@) == pieces@.map_values(
                    |v: Vec<char>| v@,
                ).push(piece@));
            }
            pieces.push(piece);
            cur = Vec::new();
        } else {
            cur.push(c);
        }
        i += 1;
    }
    assert(cs@.take(cs.len() as int) == cs@);
    let last = cur;
    proof {
        assert(pieces@.push(last).map_values(|v: Vec<char>| v@) == pieces@.map_values(
            |v: Vec<char>| v@,
        ).push(last@));
    }
    pieces.push(last);
    let ghost ps = pieces@.map_values(|v: Vec<char>| v@);
    assert(ps == pieces_with(text@, alphanumeric@));
    let mut seen: Vec<Vec<char>> = Vec::new();
    let mut out: Vec<String> = Vec::new();
    let mut k: usize = 0;
    while k < pieces.len()
        invariant
            0 <= k <= pieces.len(),
            ps == pieces@.map_values(|v: Vec<char>| v@),
            seen@.map_values(|v: Vec<char>| v@) == dedup(long_tokens(ps.take(k as int))),
            texts(out@) == dedup(long_tokens(ps.take(k as int))),
        decreases pieces.len() - k,
    {
        proof {
            assert(ps.take(k + 1).drop_last() == ps.take(k as int));
            assert(ps.take(k + 1).last() == pieces@[k as int]@);
        }
        let t = trim_chars(&pieces[k]);
        let ts = string_of(&t);
        let ghost lt = long_tokens(ps.take(k as int));
        proof {
            let x = ascii_lower(t@);
            assert(lt.push(x).drop_last() == lt);
            assert(long_tokens(ps.take(k + 1)) == if byte_len(t@) >= 4 {
                lt.push(x)
            } else {
                lt
            });
        }
        if ts.as_str().len() >= 4 {
            let lowered = lower_ascii(&t);
            if !seen_before(&seen, &lowered) {
                let word = string_of(&lowered);
                proof {
                    assert(texts(out@.push(word)) == texts(out@).push(word@));
                    assert(seen@.push(lowered).map_values(|v: Vec<char>| v@) == seen@.map_values(
                        |v: Vec<char>| v@,
                    ).push(lowered@));
                }
                out.push(word);
                seen.push(lowered);
            }
        }
        k += 1;
    }
    assert(ps.take(ps.len() as int) == ps);
    out
}

/// The distinct tokens of `text`: pieces between non-alphanumeric
/// characters, trimmed, at least four bytes long, ASCII-lowered, each kept
/// once in order of first appearance.
pub fn token_set(text: &str) -> (r: Vec<String>)
    ensures
        texts(r@) == tokens_of(text@),
{
    let cs = chars_of(text);
    let mut classes: Vec<bool> = Vec::new();
    let mut i: usize = 0;
    while i < cs.len()
        invariant
            0 <= i <= cs@.len(),
            cs@ == text@,
            classes@.len() == i,
            forall|j: int| 0 <= j < i ==> #[trigger] classes@[j] == spec_is_alphanumeric(cs@[j]),
        decreases cs.len() - i,
    {
        classes.push(char_is_alphanumeric(cs[i]));
        i += 1;
    }
    proof {
        lemma_token_scan_with(text@, classes@);
    }
    tokens_from_classes(text, &classes)
}

/// Lowering ASCII twice is lowering once.
proof fn lemma_ascii_lower_idempotent(t: Seq<char>)
    ensures
        ascii_lower(ascii_lower(t)) == ascii_lower(t),
{
    assert forall|i: int| 0 <= i < t.len() implies #[trigger] ascii_lower_char(ascii_lower_char(t[i]))
        == ascii_lower_char(t[i]) by {
        let c = t[i];
        if 'A' <= c <= 'Z' {
            let u = (c as u32) + 32;
            assert(0x61 <= u <= 0x7a);
        }
    }
    assert(ascii_lower(ascii_lower(t)) =~= ascii_lower(t));
}

/// Kept tokens are already lower-case.
proof fn lemma_long_tokens_lower(pieces: Seq<Seq<char>>)
    ensures
        forall|i: int|
            0 <= i < long_tokens(pieces).len() ==> ascii_lower(#[trigger] long_tokens(pieces)[i])
                == long_tokens(pieces)[i],
    decreases pieces.len(),
{
    if pieces.len() > 0 {
        lemma_long_tokens_lower(pieces.drop_last());
        let prior = long_tokens(pieces.drop_last());
        let t = trim(pieces.last());
        if byte_len(t) >= 4 {
            lemma_ascii_lower_idempotent(t);
            assert forall|i: int| 0 <= i < prior.push(ascii_lower(t)).len() implies ascii_lower(
                #[trigger] prior.push(ascii_lower(t))[i],
            ) == prior.push(ascii_lower(t))[i] by {
                if i < prior.len() {
                    assert(prior.push(ascii_lower(t))[i] == prior[i]);
                }
            }
        }
    }
}

/// Deduplication keeps each item once, and only items of the input.
proof fn lemma_dedup(s: Seq<Seq<char>>)
    ensures
        dedup(s).no_duplicates(),
        forall|i: int| 0 <= i < dedup(s).len() ==> s.contains(#[trigger] dedup(s)[i]),
    decreases s.len(),
{
    if s.len() > 0 {
        let init = s.drop_last();
        lemma_dedup(init);
        let prior = dedup(init);
        let x = s.last();
        assert forall|i: int| 0 <= i < dedup(s).len() implies s.contains(#[trigger] dedup(s)[i]) by {
            if i < prior.len() {
                assert(dedup(s)[i] == prior[i]);
                let k = choose|k: int| 0 <= k < init.len() && init[k] == prior[i];
                assert(s[k] == init[k]);
            } else {
                assert(dedup(s)[i] == x);
                assert(s[s.len() - 1] == x);
            }
        }
        if !prior.contains(x) {
            assert forall|i: int, j: int|
                0 <= i < j < prior.push(x).len() implies #[trigger] prior.push(x)[i]
                != #[trigger] prior.push(x)[j] by {
                assert(prior.push(x)[i] == prior[i]);
                if j < prior.len() {
                    assert(prior.push(x)[j] == prior[j]);
                }
            }
        }
    }
}

/// The tokens of a text are distinct and already lower-case.
pub proof fn lemma_tokens_distinct_lower(text: Seq<char>)
    ensures
        tokens_of(text).no_duplicates(),
        forall|i: int|
            0 <= i < tokens_of(text).len() ==> ascii_lower(#[trigger] tokens_of(text)[i])
                == tokens_of(text)[i],
{
    let lt = long_tokens(token_pieces(text));
    lemma_long_tokens_lower(token_pieces(text));
    lemma_dedup(lt);
    assert forall|i: int| 0 <= i < tokens_of(text).len() implies ascii_lower(
        #[trigger] tokens_of(text)[i],
    ) == tokens_of(text)[i] by {
        let k = choose|k: int| 0 <= k < lt.len() && lt[k] == tokens_of(text)[i];
        assert(ascii_lower(lt[k]) == lt[k]);
    }
}

/// For a positive finite `threshold`, the `f32` with bits `bits` is at least
/// the one with bits `threshold` (IEEE comparison: NaN and negatives fail).
pub open spec fn f32_at_least(bits: u32, threshold: u32) -> bool {
    bits < 0x8000_0000 && threshold <= bits && bits <= 0x7f80_0000
}

/// How many links a page of the given energy (bits of an `f32`) may spawn:
/// all allowed at 0.75 and above, two at 0.45, one at 0.25, none below.
pub open spec fn expansion_budget(energy: u32, max_links_per_page: nat) -> nat {
    if f32_at_least(energy, 0x3f40_0000) {
        max_links_per_page
    } else if f32_at_least(energy, 0x3ee6_6666) {
        if max_links_per_page < 2 {
            max_links_per_page
        } else {
            2
        }
    } else if f32_at_least(energy, 0x3e80_0000) {
        1
    } else {
        0
    }
}

/// The key under which `f32::total_cmp` orders floats, as an unsigned number.
pub open spec fn total_key(bits: u32) -> int {
    if bits >= 0x8000_0000 {
        0xffff_ffff - bits
    } else {
        bits + 0x8000_0000
    }
}

/// The ranking keys of link scores given as `f32` bits.
pub open spec fn score_keys(scores: Seq<u32>) -> Seq<int> {
    scores.map_values(|b: u32| total_key(b))
}

/// The `f32` with bits `a` is at least the positive finite one with bits `t`.
fn at_least(a: u32, t: u32) -> (r: bool)
    ensures
        r == f32_at_least(a, t),
{
    a < 0x8000_0000 && t <= a && a <= 0x7f80_0000
}

/// The order key of an `f32` under `total_cmp`.
fn total_key_of(bits: u32) -> (r: u32)
    ensures
        r as int == total_key(bits),
{
    if bits >= 0x8000_0000 {
        0xffff_ffff - bits
    } else {
        bits + 0x8000_0000
    }
}

/// `chosen` is what link selection yields: as many links as the energy
/// earns (at most the number available), best scored first, ties in page
/// order.
pub open spec fn links_selected(
    links: Seq<OutboundLink>,
    food_energy: u32,
    scores: Seq<u32>,
    max_links_per_page: nat,
    chosen: Seq<OutboundLink>,
) -> bool {
    &&& chosen.len() == min_len(expansion_budget(food_energy, max_links_per_page), scores.len())
    &&& exists|order: Seq<int>|
        top_ranked(score_keys(scores), order, chosen.len()) && forall|p: int|
            0 <= p < chosen.len() ==> link_view(#[trigger] chosen[p]) == link_view(
                links[order[p]],
            )
}

/// Link selection is deterministic: the same page, energy and scores always
/// yield the same links in the same order.
pub proof fn lemma_links_selected_deterministic(
    links: Seq<OutboundLink>,
    food_energy: u32,
    scores: Seq<u32>,
    max_links_per_page: nat,
    first: Seq<OutboundLink>,
    second: Seq<OutboundLink>,
)
    requires
        links_selected(links, food_energy, scores, max_links_per_page, first),
        links_selected(links, food_energy, scores, max_links_per_page, second),
    ensures
        link_views(first) == link_views(second),
{
    let o1 = choose|order: Seq<int>|
        top_ranked(score_keys(scores), order, first.len()) && forall|p: int|
            0 <= p < first.len() ==> link_view(#[trigger] first[p]) == link_view(links[order[p]]);
    let o2 = choose|order: Seq<int>|
        top_ranked(score_keys(scores), order, second.len()) && forall|p: int|
            0 <= p < second.len() ==> link_view(#[trigger] second[p]) == link_view(links[order[p]]);
    lemma_top_ranked_unique(score_keys(scores), o1, o2, first.len());
    assert(link_views(first) =~= link_views(second)) by {
        assert forall|p: int| 0 <= p < first.len() implies link_view(first[p]) == link_view(
            second[p],
        ) by {
            assert(link_view(first[p]) == link_view(links[o1[p]]));
            assert(link_view(second[p]) == link_view(links[o2[p]]));
        }
    }
}

/// Expansion never exceeds the configured maximum, except that a page with
/// energy of at least 0.25 may always spawn one link.
pub proof fn lemma_expansion_bounded(energy: u32, max_links_per_page: nat)
    ensures
        expansion_budget(energy, max_links_per_page) <= max_links_per_page || expansion_budget(
            energy,
            max_links_per_page,
        ) == 1,
        !f32_at_least(energy, 0x3e80_0000) ==> expansion_budget(energy, max_links_per_page) == 0,
{
}

/// The outbound links worth following: as many as the page's energy earns
/// (bounded by `max_links_per_page`), best scored first, ties in page order
/// (scores compared as `f32::total_cmp` does). `food_energy` and each of
/// `link_scores` (one per outbound link) are the bits of `f32` values.
pub fn select_links(
    candidate: &PageDigest,
    food_energy: u32,
    link_scores: &Vec<u32>,
    max_links_per_page: usize,
) -> (r: Vec<OutboundLink>)
    requires
        link_scores@.len() == candidate.outbound_links@.len(),
    ensures
        links_selected(
            candidate.outbound_links@,
            food_energy,
            link_scores@,
            max_links_per_page as nat,
            r@,
        ),
{
    let n = link_scores.len();
    let budget: usize = if at_least(food_energy, 0x3f40_0000) {
        max_links_per_page
    } else if at_least(food_energy, 0x3ee6_6666) {
        if max_links_per_page < 2 {
            max_links_per_page
        } else {
            2
        }
    } else if at_least(food_energy, 0x3e80_0000) {
        1
    } else {
        0
    };
    let mut keys: Vec<u64> = Vec::new();
    let mut i: usize = 0;
    while i < n
        invariant
            0 <= i <= n,
            n == link_scores@.len(),
            keys@.len() == i,
            forall|t: int| 0 <= t < i ==> #[trigger] keys@[t] as int == total_key(link_scores@[t]),
        decreases n - i,
    {
        let key = total_key_of(link_scores[i]);
        keys.push(key as u64);
        i += 1;
    }
    assert(key_ints(keys@) =~= score_keys(link_scores@));
    let picked = rank_top(&keys, budget);
    let ghost order = positions(picked@);
    let mut out: Vec<OutboundLink> = Vec::new();
    let mut p: usize = 0;
    while p < picked.len()
        invariant
            0 <= p <= picked@.len(),
            order == positions(picked@),
            top_ranked(score_keys(link_scores@), order, picked@.len() as nat),
            link_scores@.len() == candidate.outbound_links@.len(),
            out@.len() == p,
            forall|q: int|
                0 <= q < p ==> link_view(#[trigger] out@[q]) == link_view(
                    candidate.outbound_links@[order[q]],
                ),
        decreases picked.len() - p,
    {
        let idx = picked[p];
        assert(order[p as int] == idx as int);
        let link = OutboundLink {
            url: String::from_str(candidate.outbound_links[idx].url.as_str()),
            anchor: String::from_str(candidate.outbound_links[idx].anchor.as_str()),
        };
        out.push(link);
        p += 1;
    }
    out
}

/// `x` is one of the texts of `pool`.
fn holds_text(pool: &Vec<String>, x: &str) -> (r: bool)
    ensures
        r == texts(pool@).contains(x@),
{
    let mut i: usize = 0;
    while i < pool.len()
        invariant
            0 <= i <= pool@.len(),
            forall|t: int| 0 <= t < i ==> texts(pool@)[t] != x@,
        decreases pool.len() - i,
    {
        let cs = chars_of(pool[i].as_str());
        if chars_equal(&cs, x) {
            assert(texts(pool@)[i as int] == x@);
            return true;
        }
        i += 1;
    }
    false
}

/// How many of `values` are missing from `pool`.
pub open spec fn count_outside(values: Seq<Seq<char>>, pool: Seq<Seq<char>>) -> nat
    decreases values.len(),
{
    if values.len() == 0 {
        0
    } else {
        count_outside(values.drop_last(), pool) + if pool.contains(values.last()) {
            0nat
        } else {
            1nat
        }
    }
}

/// No more values are missing than there are values.
pub proof fn lemma_count_outside_bounded(values: Seq<Seq<char>>, pool: Seq<Seq<char>>)
    ensures
        count_outside(values, pool) <= values.len(),
    decreases values.len(),
{
    if values.len() > 0 {
        lemma_count_outside_bounded(values.drop_last(), pool);
    }
}

/// Counts the values missing from `pool`.
fn count_not_in(values: &Vec<String>, pool: &Vec<String>) -> (r: usize)
    ensures
        r == count_outside(texts(values@), texts(pool@)),
{
    let ghost vs = texts(values@);
    let mut n: usize = 0;
    let mut i: usize = 0;
    while i < values.len()
        invariant
            0 <= i <= values@.len(),
            vs == texts(values@),
            n == count_outside(vs.take(i as int), texts(pool@)),
            n <= i,
        decreases values.len() - i,
    {
        assert(vs.take(i + 1).drop_last() =~= vs.take(i as int));
        assert(vs.take(i + 1).last() == values@[i as int]@);
        if !holds_text(pool, values[i].as_str()) {
            n = n + 1;
        }
        i += 1;
    }
    assert(vs.take(values@.len() as int) =~= vs);
    n
}

/// The tokens of each text in turn, repeats kept.
pub open spec fn seen_tokens(texts_seen: Seq<Seq<char>>) -> Seq<Seq<char>>
    decreases texts_seen.len(),
{
    if texts_seen.len() == 0 {
        Seq::empty()
    } else {
        seen_tokens(texts_seen.drop_last()) + tokens_of(texts_seen.last())
    }
}

/// The seen tokens are exactly the tokens of the recent texts: a token is
/// seen when some recent text has it, and only then.
pub proof fn lemma_seen_tokens(texts_seen: Seq<Seq<char>>)
    ensures
        forall|x: Seq<char>|
            #[trigger] seen_tokens(texts_seen).contains(x) <==> exists|i: int|
                0 <= i < texts_seen.len() && #[trigger] tokens_of(texts_seen[i]).contains(x),
    decreases texts_seen.len(),
{
    if texts_seen.len() > 0 {
        let init = texts_seen.drop_last();
        lemma_seen_tokens(init);
        let prior = seen_tokens(init);
        let last = tokens_of(texts_seen.last());
        assert forall|x: Seq<char>|
            #[trigger] seen_tokens(texts_seen).contains(x) <==> exists|i: int|
                0 <= i < texts_seen.len() && #[trigger] tokens_of(texts_seen[i]).contains(x) by {
            let all = prior + last;
            if all.contains(x) {
                let k = choose|k: int| 0 <= k < all.len() && all[k] == x;
                if k < prior.len() {
                    assert(prior[k] == x);
                    assert(prior.contains(x));
                    let i = choose|i: int|
                        0 <= i < init.len() && #[trigger] tokens_of(init[i]).contains(x);
                    assert(texts_seen[i] == init[i]);
                } else {
                    assert(last[k - prior.len()] == x);
                    assert(last.contains(x));
                    assert(texts_seen[texts_seen.len() - 1] == texts_seen.last());
                }
            }
            if exists|i: int|
                0 <= i < texts_seen.len() && #[trigger] tokens_of(texts_seen[i]).contains(x) {
                let i = choose|i: int|
                    0 <= i < texts_seen.len() && #[trigger] tokens_of(texts_seen[i]).contains(x);
                if i < init.len() {
                    assert(texts_seen[i] == init[i]);
                    assert(tokens_of(init[i]).contains(x));
                    assert(prior.contains(x));
                    let k = choose|k: int| 0 <= k < prior.len() && prior[k] == x;
                    assert(all[k] == x);
                } else {
                    assert(texts_seen[i] == texts_seen.last());
                    let k = choose|k: int| 0 <= k < last.len() && last[k] == x;
                    assert(all[prior.len() + k] == x);
                }
            }
        }
    }
}

/// Counting values outside a pool depends only on which values the pool holds.
pub proof fn lemma_count_outside_membership(
    values: Seq<Seq<char>>,
    pool: Seq<Seq<char>>,
    other: Seq<Seq<char>>,
)
    requires
        forall|x: Seq<char>| pool.contains(x) <==> other.contains(x),
    ensures
        count_outside(values, pool) == count_outside(values, other),
    decreases values.len(),
{
    if values.len() > 0 {
        lemma_count_outside_membership(values.drop_last(), pool, other);
        assert(pool.contains(values.last()) == other.contains(values.last()));
    }
}

/// No value that the pool holds is counted as missing from it.
pub proof fn lemma_count_outside_covered(values: Seq<Seq<char>>, pool: Seq<Seq<char>>)
    requires
        forall|k: int| 0 <= k < values.len() ==> pool.contains(#[trigger] values[k]),
    ensures
        count_outside(values, pool) == 0,
    decreases values.len(),
{
    if values.len() > 0 {
        let init = values.drop_last();
        assert forall|k: int| 0 <= k < init.len() implies pool.contains(#[trigger] init[k]) by {
            assert(init[k] == values[k]);
        }
        lemma_count_outside_covered(init, pool);
        assert(pool.contains(values[values.len() - 1]));
    }
}

/// Every recent summary is read: the unseen count of a candidate equals its
/// count against any pool holding exactly the tokens of the summaries, and a
/// candidate whose every token appears in some summary has no unseen tokens.
pub proof fn lemma_token_novelty_reads_all(
    candidate: Seq<char>,
    summaries: Seq<Seq<char>>,
    pool: Seq<Seq<char>>,
)
    requires
        forall|x: Seq<char>|
            #[trigger] pool.contains(x) <==> exists|i: int|
                0 <= i < summaries.len() && #[trigger] tokens_of(summaries[i]).contains(x),
    ensures
        count_outside(tokens_of(candidate), seen_tokens(summaries)) == count_outside(
            tokens_of(candidate),
            pool,
        ),
        (forall|k: int|
            0 <= k < tokens_of(candidate).len() ==> pool.contains(#[trigger] tokens_of(candidate)[k]))
            ==> count_outside(tokens_of(candidate), seen_tokens(summaries)) == 0,
{
    lemma_seen_tokens(summaries);
    assert forall|x: Seq<char>| seen_tokens(summaries).contains(x) <==> pool.contains(x) by {
        assert(seen_tokens(summaries).contains(x) <==> exists|i: int|
            0 <= i < summaries.len() && #[trigger] tokens_of(summaries[i]).contains(x));
        assert(pool.contains(x) <==> exists|i: int|
            0 <= i < summaries.len() && #[trigger] tokens_of(summaries[i]).contains(x));
    }
    lemma_count_outside_membership(tokens_of(candidate), seen_tokens(summaries), pool);
    if forall|k: int|
        0 <= k < tokens_of(candidate).len() ==> pool.contains(#[trigger] tokens_of(candidate)[k]) {
        lemma_count_outside_covered(tokens_of(candidate), pool);
    }
}

/// A text measured against recent summaries that include itself has no
/// unseen tokens.
pub proof fn lemma_own_tokens_seen(candidate: Seq<char>, summaries: Seq<Seq<char>>, i: int)
    requires
        0 <= i < summaries.len(),
        summaries[i] == candidate,
    ensures
        count_outside(tokens_of(candidate), seen_tokens(summaries)) == 0,
{
    lemma_seen_tokens(summaries);
    assert forall|k: int| 0 <= k < tokens_of(candidate).len() implies seen_tokens(
        summaries,
    ).contains(#[trigger] tokens_of(candidate)[k]) by {
        let x = tokens_of(candidate)[k];
        assert(tokens_of(summaries[i]).contains(x));
    }
    lemma_count_outside_covered(tokens_of(candidate), seen_tokens(summaries));
}

/// How many of a candidate's tokens the recent summaries never used, and
/// how many distinct tokens the candidate has.
pub fn token_novelty(candidate_text: &str, recent_summaries: &Vec<String>) -> (r: (usize, usize))
    ensures
        r.1 == tokens_of(candidate_text@).len(),
        r.0 == count_outside(tokens_of(candidate_text@), seen_tokens(texts(recent_summaries@))),
{
    let tokens = token_set(candidate_text);
    let ghost ss = texts(recent_summaries@);
    let mut seen: Vec<String> = Vec::new();
    let mut i: usize = 0;
    while i < recent_summaries.len()
        invariant
            0 <= i <= recent_summaries@.len(),
            ss == texts(recent_summaries@),
            texts(seen@) == seen_tokens(ss.take(i as int)),
        decreases recent_summaries.len() - i,
    {
        let mut more = token_set(recent_summaries[i].as_str());
        let ghost before = seen@;
        let ghost added = more@;
        seen.append(&mut more);
        proof {
            assert(ss.take(i + 1).drop_last() =~= ss.take(i as int));
            assert(ss.take(i + 1).last() == recent_summaries@[i as int]@);
            assert(texts(before + added) =~= texts(before) + texts(added));
        }
        i += 1;
    }
    assert(ss.take(recent_summaries@.len() as int) =~= ss);
    (count_not_in(&tokens, &seen), tokens.len())
}

/// How two texts' token sets overlap: the tokens they share, the tokens of
/// the left text, and the tokens only the right text has.
pub struct TokenOverlap {
    pub shared: usize,
    pub left_total: usize,
    pub right_only: usize,
}

/// The token overlap of `left` and `right`, from which their Jaccard
/// similarity is `shared / (left_total + right_only)`.
pub fn token_overlap(left: &str, right: &str) -> (r: TokenOverlap)
    ensures
        r.left_total == tokens_of(left@).len(),
        r.shared == tokens_of(left@).len() - count_outside(tokens_of(left@), tokens_of(right@)),
        r.right_only == count_outside(tokens_of(right@), tokens_of(left@)),
{
    let a = token_set(left);
    let b = token_set(right);
    let missing = count_not_in(&a, &b);
    proof {
        lemma_count_outside_bounded(texts(a@), texts(b@));
    }
    let right_only = count_not_in(&b, &a);
    TokenOverlap { shared: a.len() - missing, left_total: a.len(), right_only }
}

/// The texts of `values` without repeats, first occurrences kept.
fn distinct_texts(values: &Vec<String>) -> (r: Vec<String>)
    ensures
        texts(r@) == distinct(texts(values@)),
{
    let ghost vs = texts(values@);
    let mut out: Vec<String> = Vec::new();
    let mut i: usize = 0;
    while i < values.len()
        invariant
            0 <= i <= values@.len(),
            vs == texts(values@),
            texts(out@) == distinct(vs.take(i as int)),
        decreases values.len() - i,
    {
        assert(vs.take(i + 1).drop_last() =~= vs.take(i as int));
        assert(vs.take(i + 1).last() == values@[i as int]@);
        if !holds_text(&out, values[i].as_str()) {
            let c = String::from_str(values[i].as_str());
            assert(texts(out@.push(c)) =~= texts(out@).push(c@));
            out.push(c);
        }
        i += 1;
    }
    assert(vs.take(values@.len() as int) =~= vs);
    out
}

/// The domains of the links that have one, in link order.
pub open spec fn link_domains(links: Seq<OutboundLink>) -> Seq<Seq<char>>
    decreases links.len(),
{
    if links.len() == 0 {
        Seq::empty()
    } else {
        let prior = link_domains(links.drop_last());
        match spec_url_domain(links.last().url@) {
            Some(d) => prior.push(d),
            None => prior,
        }
    }
}

/// How many distinct domains a page links to that the recent pages do not
/// come from, and how many distinct domains it links to.
pub fn link_domain_novelty(links: &Vec<OutboundLink>, recent_domains: &Vec<String>) -> (r: (
    usize,
    usize,
))
    ensures
        r.1 == distinct(link_domains(links@)).len(),
        r.0 == count_outside(distinct(link_domains(links@)), texts(recent_domains@)),
{
    let mut domains: Vec<String> = Vec::new();
    let mut i: usize = 0;
    while i < links.len()
        invariant
            0 <= i <= links@.len(),
            texts(domains@) == link_domains(links@.take(i as int)),
        decreases links.len() - i,
    {
        assert(links@.take(i + 1).drop_last() =~= links@.take(i as int));
        assert(links@.take(i + 1).last() == links@[i as int]);
        match url_domain(links[i].url.as_str()) {
            Some(d) => {
                assert(texts(domains@.push(d)) =~= texts(domains@).push(d@));
                domains.push(d);
            },
            None => {},
        }
        i += 1;
    }
    assert(links@.take(links@.len() as int) =~= links@);
    let unique = distinct_texts(&domains);
    (count_not_in(&unique, recent_domains), unique.len())
}

/// Where `x` first occurs in `s`.
pub open spec fn first_position(s: Seq<Seq<char>>, x: Seq<char>) -> Option<int>
    decreases s.len(),
{
    if s.len() == 0 {
        None
    } else {
        match first_position(s.drop_last(), x) {
            Some(i) => Some(i),
            None => if s.last() == x {
                Some(s.len() - 1)
            } else {
                None
            },
        }
    }
}

/// Whether the page at `url` changed since it was last seen among the recent
/// pages (given by their URLs and content hashes): unseen pages count as changed.
pub open spec fn content_changed(
    urls: Seq<Seq<char>>,
    hashes: Seq<Seq<char>>,
    url: Seq<char>,
    hash: Seq<char>,
) -> bool {
    match first_position(urls, url) {
        Some(i) => hashes[i] != hash,
        None => true,
    }
}

/// Whether the page changed since the first recent snapshot of its URL.
pub fn content_delta_changed(
    url: &str,
    hash: &str,
    recent_urls: &Vec<String>,
    recent_hashes: &Vec<String>,
) -> (r: bool)
    requires
        recent_urls@.len() == recent_hashes@.len(),
    ensures
        r == content_changed(texts(recent_urls@), texts(recent_hashes@), url@, hash@),
{
    let ghost us = texts(recent_urls@);
    let mut i: usize = 0;
    while i < recent_urls.len()
        invariant
            0 <= i <= recent_urls@.len(),
            recent_urls@.len() == recent_hashes@.len(),
            us == texts(recent_urls@),
            first_position(us.take(i as int), url@) is None,
        decreases recent_urls.len() - i,
    {
        assert(us.take(i + 1).drop_last() =~= us.take(i as int));
        let cs = chars_of(recent_urls[i].as_str());
        if chars_equal(&cs, url) {
            proof {
                assert(us.take(i + 1).last() == url@);
                assert(first_position(us.take(i + 1), url@) == Some(i as int));
                lemma_first_position_prefix(us, url@, i + 1);
            }
            let hs = chars_of(recent_hashes[i].as_str());
            assert(texts(recent_hashes@)[i as int] == recent_hashes@[i as int]@);
            return !chars_equal(&hs, hash);
        }
        i += 1;
    }
    assert(us.take(recent_urls@.len() as int) =~= us);
    true
}

/// A first position found in a prefix is the first position in the whole.
proof fn lemma_first_position_prefix(s: Seq<Seq<char>>, x: Seq<char>, n: int)
    requires
        0 <= n <= s.len(),
        first_position(s.take(n), x) is Some,
    ensures
        first_position(s, x) == first_position(s.take(n), x),
    decreases s.len() - n,
{
    if n < s.len() {
        assert(s.take(n + 1).drop_last() =~= s.take(n));
        lemma_first_position_prefix(s, x, n + 1);
    } else {
        assert(s.take(n) =~= s);
    }
}

/// How promising a link's anchor text is.
#[derive(Clone, Copy, Debug, PartialEq, Eq)]
pub enum AnchorPromise {
    /// Two words or more.
    Descriptive,
    /// Some text, but fewer than two words.
    Terse,
    /// No anchor text at all.
    Missing,
}

/// Where a link leads relative to the page it is on.
#[derive(Clone, Copy, Debug, PartialEq, Eq)]
pub enum Destination {
    SameDomain,
    OtherDomain,
    /// The URL does not parse or has no domain host.
    Unknown,
}

/// What the link score is computed from.
pub struct LinkFeatures {
    /// The priority (bits of an `f32`) of the first model hint for this URL.
    pub hint_priority: Option<u32>,
    pub anchor: AnchorPromise,
    pub destination: Destination,
    /// The URL mentions `login` or `signup`.
    pub spammy: bool,
}

/// The URLs the model hinted at.
pub open spec fn hint_urls(hints: Seq<LinkHint>) -> Seq<Seq<char>> {
    hints.map_values(|h: LinkHint| h.link_url@)
}

/// A first position is where `x` first occurs; there is none exactly when
/// `x` does not occur.
pub proof fn lemma_first_position_first(s: Seq<Seq<char>>, x: Seq<char>)
    ensures
        first_position(s, x) matches Some(k) ==> 0 <= k < s.len() && s[k] == x && forall|j: int|
            0 <= j < k ==> #[trigger] s[j] != x,
        first_position(s, x) is None ==> forall|j: int| 0 <= j < s.len() ==> #[trigger] s[j] != x,
    decreases s.len(),
{
    if s.len() > 0 {
        let init = s.drop_last();
        lemma_first_position_first(init, x);
        assert forall|j: int| 0 <= j < init.len() implies #[trigger] s[j] == init[j] by {}
    }
}

/// The hint read for a link is the first hint that names the link's URL:
/// its priority when some hint names it, none when no hint does.
pub proof fn lemma_hint_is_first_naming(hints: Seq<LinkHint>, url: Seq<char>)
    ensures
        first_position(hint_urls(hints), url) matches Some(k) ==> 0 <= k < hints.len()
            && hints[k].link_url@ == url && forall|j: int|
            0 <= j < k ==> #[trigger] hints[j].link_url@ != url,
        first_position(hint_urls(hints), url) is None ==> forall|j: int|
            0 <= j < hints.len() ==> #[trigger] hints[j].link_url@ != url,
{
    let hu = hint_urls(hints);
    assert(hu.len() == hints.len());
    assert forall|j: int| 0 <= j < hints.len() implies #[trigger] hu[j] == hints[j].link_url@ by {}
    lemma_first_position_first(hu, url);
    if first_position(hu, url) is Some {
        let k = first_position(hu, url)->0;
        assert forall|j: int| 0 <= j < k implies #[trigger] hints[j].link_url@ != url by {
            assert(hu[j] == hints[j].link_url@);
        }
    } else {
        assert forall|j: int| 0 <= j < hints.len() implies #[trigger] hints[j].link_url@ != url by {
            assert(hu[j] == hints[j].link_url@);
        }
    }
}

/// The anchor class of an anchor text.
pub open spec fn anchor_promise(anchor: Seq<char>) -> AnchorPromise {
    if words(anchor).len() >= 2 {
        AnchorPromise::Descriptive
    } else if anchor.len() > 0 {
        AnchorPromise::Terse
    } else {
        AnchorPromise::Missing
    }
}

/// Where `url` leads relative to `page_domain`.
pub open spec fn destination_of(page_domain: Seq<char>, url: Seq<char>) -> Destination {
    match spec_url_domain(url) {
        Some(d) => if d == page_domain {
            Destination::SameDomain
        } else {
            Destination::OtherDomain
        },
        None => Destination::Unknown,
    }
}

/// The features of `link` on a page of `page_domain`, given the model's link
/// hints (none when the model was not asked).
pub fn link_features(page_domain: &str, link: &OutboundLink, hints: &Vec<LinkHint>) -> (r:
    LinkFeatures)
    ensures
        r.hint_priority == match first_position(hint_urls(hints@), link.url@) {
            Some(i) => Some(hints@[i].priority),
            None => None::<u32>,
        },
        r.anchor == anchor_promise(link.anchor@),
        r.destination == destination_of(page_domain@, link.url@),
        r.spammy == (contains(link.url@, "login"@) || contains(link.url@, "signup"@)),
{
    let ghost hu = hint_urls(hints@);
    let mut hint_priority: Option<u32> = None;
    let mut i: usize = 0;
    while i < hints.len()
        invariant
            0 <= i <= hints@.len(),
            hu == hint_urls(hints@),
            hu.len() == hints@.len(),
            hint_priority == match first_position(hu.take(i as int), link.url@) {
                Some(k) => Some(hints@[k].priority),
                None => None::<u32>,
            },
        decreases hints.len() - i,
    {
        assert(hu.take(i + 1).drop_last() =~= hu.take(i as int));
        assert(hu.take(i + 1).last() == hints@[i as int].link_url@);
        if hint_priority.is_none() {
            let cs = chars_of(hints[i].link_url.as_str());
            if chars_equal(&cs, link.url.as_str()) {
                hint_priority = Some(hints[i].priority);
            }
        }
        i += 1;
    }
    assert(hu.take(hints@.len() as int) =~= hu);
    let anchor_words = split_words(link.anchor.as_str());
    let anchor = if anchor_words.len() >= 2 {
        AnchorPromise::Descriptive
    } else if !link.anchor.as_str().is_empty() {
        AnchorPromise::Terse
    } else {
        AnchorPromise::Missing
    };
    let destination = match url_domain(link.url.as_str()) {
        Some(d) => {
            let cs = chars_of(d.as_str());
            if chars_equal(&cs, page_domain) {
                Destination::SameDomain
            } else {
                Destination::OtherDomain
            }
        },
        None => Destination::Unknown,
    };
    let url_chars = chars_of(link.url.as_str());
    let login = chars_of("login");
    let signup = chars_of("signup");
    let spammy = find_chars(&url_chars, &login, 0).is_some() || find_chars(
        &url_chars,
        &signup,
        0,
    ).is_some();
    LinkFeatures { hint_priority, anchor, destination, spammy }
}

} // verus!
