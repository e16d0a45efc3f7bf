//! Turning a fetched HTML page into a digest: readable text, summary
//! sentences, claims, entities, outbound links and a content hash.
//! HTML parsing, URL resolution, the entity pattern and the hash are done by
//! `scraper`, `url`, `regex` and `sha2`; the rest is decided here.
use sha2::Digest;
use vstd::prelude::*;

use crate::models::OutboundLink;
use crate::text::{
    char_is_ws, chars_of, collapse_whitespace, collapse_ws, join, join_first, join_strings,
    split_words, string_of, texts, trim, trim_chars, words,
};

verus! {

/// The whitespace-normalised text of `value`: words separated by single spaces.
pub fn normalize_whitespace(value: &str) -> (r: String)
    ensures
        r@ == collapse_ws(value@),
{
    collapse_whitespace(value)
}

/// A sentence terminator.
pub open spec fn is_terminator(c: char) -> bool {
    c == '.' || c == '!' || c == '?'
}

/// Scan state of a split at sentence terminators.
pub open spec fn sentence_scan(s: Seq<char>) -> (Seq<Seq<char>>, Seq<char>)
    decreases s.len(),
{
    if s.len() == 0 {
        (Seq::empty(), Seq::empty())
    } else {
        let (done, cur) = sentence_scan(s.drop_last());
        if is_terminator(s.last()) {
            (done.push(cur), Seq::empty())
        } else {
            (done, cur.push(s.last()))
        }
    }
}

/// The pieces between terminators, a final empty piece dropped
/// (`str::split_terminator(['.', '!', '?'])`).
pub open spec fn sentence_pieces(s: Seq<char>) -> Seq<Seq<char>> {
    let (done, cur) = sentence_scan(s);
    if cur.len() > 0 {
        done.push(cur)
    } else {
        done
    }
}

/// The pieces trimmed, keeping those of at least six words.
pub open spec fn long_sentences(pieces: Seq<Seq<char>>) -> Seq<Seq<char>>
    decreases pieces.len(),
{
    if pieces.len() == 0 {
        Seq::empty()
    } else {
        let prior = long_sentences(pieces.drop_last());
        let t = trim(pieces.last());
        if words(t).len() >= 6 {
            prior.push(t)
        } else {
            prior
        }
    }
}

/// The sentences of `text` with at least six words, trimmed, in order.
pub open spec fn sentences(text: Seq<char>) -> Seq<Seq<char>> {
    long_sentences(sentence_pieces(text))
}

/// The number of whitespace-separated words of `value`.
pub fn word_count(value: &str) -> (r: usize)
    ensures
        r == words(value@).len(),
{
    split_words(value).len()
}

/// The pieces of `value` between sentence terminators.
fn split_terminators(value: &str) -> (r: Vec<String>)
    ensures
        texts(r@) == sentence_pieces(value@),
{
    let cs = chars_of(value);
    let mut pieces: Vec<String> = Vec::new();
    let mut cur: Vec<char> = Vec::new();
    let mut i: usize = 0;
    while i < cs.len()
        invariant
            0 <= i <= cs.len(),
            cs@ == value@,
            texts(pieces@) == sentence_scan(cs@.take(i as int)).0,
            cur@ == sentence_scan(cs@.take(i as int)).1,
        decreases cs.len() - i,
    {
        proof {
            assert(cs@.take(i + 1).drop_last() == cs@.take(i as int));
        }
        let c = cs[i];
        if c == '.' || c == '!' || c == '?' {
            let piece = string_of(&cur);
            proof {
                assert(texts(pieces@.push(piece)) == texts(pieces@).push(piece@));
            }
            pieces.push(piece);
            cur = Vec::new();
        } else {
            cur.push(c);
        }
        i += 1;
    }
    assert(cs@.take(cs.len() as int) == cs@);
    if cur.len() > 0 {
        let piece = string_of(&cur);
        proof {
            assert(texts(pieces@.push(piece)) == texts(pieces@).push(piece@));
        }
        pieces.push(piece);
    }
    pieces
}

/// The sentences of `text` that have at least six words, trimmed.
pub fn split_sentences(text: &str) -> (r: Vec<String>)
    ensures
        texts(r@) == sentences(text@),
{
    let pieces = split_terminators(text);
    let mut r: Vec<String> = Vec::new();
    let mut i: usize = 0;
    while i < pieces.len()
        invariant
            0 <= i <= pieces.len(),
            texts(r@) == long_sentences(texts(pieces@).take(i as int)),
        decreases pieces.len() - i,
    {
        proof {
            assert(texts(pieces@).take(i + 1).drop_last() == texts(pieces@).take(i as int));
            assert(texts(pieces@).take(i + 1).last() == pieces@[i as int]@);
        }
        let t = string_of(&trim_chars(&chars_of(pieces[i].as_str())));
        if word_count(t.as_str()) >= 6 {
            proof {
                assert(texts(r@.push(t)) == texts(r@).push(t@));
            }
            r.push(t);
        }
        i += 1;
    }
    assert(texts(pieces@).take(pieces@.len() as int) == texts(pieces@));
    r
}

/// The text nodes, in document order, of each element of the HTML document
/// `html` matching the CSS selector `selector`, elements in document order.
pub uninterp spec fn spec_selected_text_nodes(html: Seq<char>, selector: Seq<char>) -> Seq<
    Seq<Seq<char>>,
>;

/// Parses `html` with `scraper::Html::parse_document`, the selector with
/// `scraper::Selector::parse`, and returns, for each element that
/// `Html::select` yields, the text nodes of `ElementRef::text`. A selector
/// that does not parse selects nothing. Parsing is deterministic, so the
/// result is a function of the two texts; what it is, the HTML5 parsing
/// algorithm decides, and no clause states it.
#[verifier::external_body]
fn select_text_nodes(html: &str, selector: &str) -> (r: Vec<Vec<String>>)
    ensures
        r.deep_view() == spec_selected_text_nodes(html@, selector@),
{
    let document = scraper::Html::parse_document(html);
    match scraper::Selector::parse(selector) {
        Ok(selector) => document.select(&selector).map(
            |element| element.text().map(|node| node.to_string()).collect(),
        ).collect(),
        Err(_) => Vec::new(),
    }
}

/// For each element of the HTML document `html` matching `selector`, in
/// document order: the value of its attribute `attr`, and its text nodes.
pub uninterp spec fn spec_selected_elements(
    html: Seq<char>,
    selector: Seq<char>,
    attr: Seq<char>,
) -> Seq<(Option<Seq<char>>, Seq<Seq<char>>)>;

/// As `select_text_nodes`, also returning each element's attribute `attr`
/// through `ElementRef::attr`.
#[verifier::external_body]
fn select_elements(html: &str, selector: &str, attr: &str) -> (r: Vec<(Option<String>, Vec<String>)>)
    ensures
        r.deep_view() == spec_selected_elements(html@, selector@, attr@),
{
    let document = scraper::Html::parse_document(html);
    match scraper::Selector::parse(selector) {
        Ok(selector) => document.select(&selector).map(
            |element|
                (
                    element.attr(attr).map(|value| value.to_string()),
                    element.text().map(|node| node.to_string()).collect(),
                ),
        ).collect(),
        Err(_) => Vec::new(),
    }
}

/// The scheme and serialisation of `href` resolved against the URL `base`,
/// or nothing when `base` does not parse or `href` cannot be joined to it.
pub uninterp spec fn spec_resolve_link(base: Seq<char>, href: Seq<char>) -> Option<
    (Seq<char>, Seq<char>),
>;

/// Parses `base` with `url::Url::parse` and resolves `href` with `Url::join`;
/// returns `Url::scheme` and the serialisation (`Url::to_string`) of the
/// result. Both calls are deterministic in their inputs.
#[verifier::external_body]
fn resolve_link(base: &str, href: &str) -> (r: Option<(String, String)>)
    ensures
        r.deep_view() == spec_resolve_link(base@, href@),
{
    let base = url::Url::parse(base).ok()?;
    let joined = base.join(href).ok()?;
    Some((joined.scheme().to_string(), joined.to_string()))
}

/// The domain of the URL `url`, when it parses and has a domain host.
pub uninterp spec fn spec_url_domain(url: Seq<char>) -> Option<Seq<char>>;

/// Parses `url` with `url::Url::parse` and returns `Url::domain`: nothing
/// when the text does not parse or its host is not a domain (an IP address,
/// or no host).
#[verifier::external_body]
pub(crate) fn url_domain(url: &str) -> (r: Option<String>)
    ensures
        r.deep_view() == spec_url_domain(url@),
{
    let parsed = url::Url::parse(url).ok()?;
    parsed.domain().map(|domain| domain.to_string())
}

/// The texts of the successive non-overlapping matches of the regular
/// expression `pattern` in `text`, or nothing when the pattern is invalid.
pub uninterp spec fn spec_regex_matches(pattern: Seq<char>, text: Seq<char>) -> Option<
    Seq<Seq<char>>,
>;

/// Compiles `pattern` with `regex::Regex::new` and collects the text of each
/// match of `Regex::find_iter` over `text`.
#[verifier::external_body]
fn regex_matches(pattern: &str, text: &str) -> (r: Option<Vec<String>>)
    ensures
        r.deep_view() == spec_regex_matches(pattern@, text@),
{
    let regex = regex::Regex::new(pattern).ok()?;
    Some(regex.find_iter(text).map(|found| found.as_str().to_string()).collect())
}

/// The SHA-256 digest of the UTF-8 bytes of `text`, in lower-case hex.
pub uninterp spec fn spec_sha256_hex(text: Seq<char>) -> Seq<char>;

/// Hashes the bytes of `text` with `sha2::Sha256` and formats the digest
/// with `{:x}`.
#[verifier::external_body]
fn sha256_hex(text: &str) -> (r: String)
    ensures
        r@ == spec_sha256_hex(text@),
{
    let mut hasher = sha2::Sha256::new();
    hasher.update(text.as_bytes());
    format!("{:x}", hasher.finalize())
}

/// At most the first `n` items of `s`.
pub open spec fn first_n<T>(s: Seq<T>, n: nat) -> Seq<T> {
    s.take(if n < s.len() { n as int } else { s.len() as int })
}

/// Copies of the first `n` strings of `v`.
pub fn copy_first(v: &Vec<String>, n: usize) -> (r: Vec<String>)
    ensures
        texts(r@) == first_n(texts(v@), n as nat),
{
    let limit = if n < v.len() {
        n
    } else {
        v.len()
    };
    let mut r: Vec<String> = Vec::new();
    let mut i: usize = 0;
    while i < limit
        invariant
            0 <= i <= limit <= v.len(),
            texts(r@) == texts(v@).take(i as int),
        decreases limit - i,
    {
        let c = String::from_str(v[i].as_str());
        proof {
            assert(texts(r@.push(c)) == texts(r@).push(c@));
            assert(texts(v@).take(i + 1) == texts(v@).take(i as int).push(v@[i as int]@));
        }
        r.push(c);
        i += 1;
    }
    r
}

/// The readable text of an element: its text nodes joined by spaces, whitespace collapsed.
pub open spec fn element_text(nodes: Seq<Seq<char>>) -> Seq<char> {
    collapse_ws(join(nodes, " "@))
}

/// The readable texts of the elements that are not empty, in order.
pub open spec fn nonempty_texts(elements: Seq<Seq<Seq<char>>>) -> Seq<Seq<char>>
    decreases elements.len(),
{
    if elements.len() == 0 {
        Seq::empty()
    } else {
        let prior = nonempty_texts(elements.drop_last());
        let t = element_text(elements.last());
        if t.len() > 0 {
            prior.push(t)
        } else {
            prior
        }
    }
}

/// The non-empty element texts for each selector in turn.
pub open spec fn selected_texts(html: Seq<char>, selectors: Seq<Seq<char>>) -> Seq<Seq<char>>
    decreases selectors.len(),
{
    if selectors.len() == 0 {
        Seq::empty()
    } else {
        selected_texts(html, selectors.drop_last()) + nonempty_texts(
            spec_selected_text_nodes(html, selectors.last()),
        )
    }
}

/// The readable text of one element.
fn element_text_of(nodes: &Vec<String>) -> (r: String)
    ensures
        r@ == element_text(texts(nodes@)),
{
    let joined = join_strings(nodes, " ");
    collapse_whitespace(joined.as_str())
}

/// The readable texts, in order, of the elements (each given by its text
/// nodes) whose text is not empty.
pub fn nonempty_element_texts(elements: &Vec<Vec<String>>) -> (r: Vec<String>)
    ensures
        texts(r@) == nonempty_texts(elements.deep_view()),
{
    let ghost els = elements.deep_view();
    let mut values: Vec<String> = Vec::new();
    let mut e: usize = 0;
    while e < elements.len()
        invariant
            0 <= e <= elements@.len(),
            els == elements.deep_view(),
            texts(values@) == nonempty_texts(els.take(e as int)),
        decreases elements.len() - e,
    {
        proof {
            assert(els.take(e + 1).drop_last() == els.take(e as int));
            assert(els.take(e + 1).last() == texts(elements@[e as int]@));
        }
        let t = element_text_of(&elements[e]);
        if !t.as_str().is_empty() {
            proof {
                assert(texts(values@.push(t)) == texts(values@).push(t@));
            }
            values.push(t);
        }
        e += 1;
    }
    assert(els.take(els.len() as int) == els);
    values
}

/// The non-empty texts of the elements matching each selector, selector by selector.
pub fn select_text(html: &str, selectors: &[&str]) -> (r: Vec<String>)
    ensures
        texts(r@) == selected_texts(html@, selectors.deep_view()),
{
    let mut values: Vec<String> = Vec::new();
    let mut k: usize = 0;
    while k < selectors.len()
        invariant
            0 <= k <= selectors@.len(),
            texts(values@) == selected_texts(html@, selectors.deep_view().take(k as int)),
        decreases selectors.len() - k,
    {
        let elements = select_text_nodes(html, selectors[k]);
        let ghost before = texts(values@);
        let ghost els = elements.deep_view();
        let mut found = nonempty_element_texts(&elements);
        proof {
            assert(texts(values@ + found@) =~= texts(values@) + texts(found@));
        }
        values.append(&mut found);
        proof {
            let sels = selectors.deep_view();
            assert(sels.take(k + 1).drop_last() == sels.take(k as int));
            assert(sels.take(k + 1).last() == selectors@[k as int]@);
        }
        k += 1;
    }
    assert(selectors.deep_view().take(selectors@.len() as int) == selectors.deep_view());
    values
}

/// The readable text of the first element matching `selector`, when not empty.
pub open spec fn first_text(html: Seq<char>, selector: Seq<char>) -> Option<Seq<char>> {
    let els = spec_selected_text_nodes(html, selector);
    if els.len() > 0 && element_text(els[0]).len() > 0 {
        Some(element_text(els[0]))
    } else {
        None
    }
}

/// The readable text of the first element (given by its text nodes), when
/// there is one and its text is not empty.
pub fn first_element_text(elements: &Vec<Vec<String>>) -> (r: Option<String>)
    ensures
        r.deep_view() == (if elements@.len() > 0 && element_text(texts(elements@[0]@)).len() > 0 {
            Some(element_text(texts(elements@[0]@)))
        } else {
            None
        }),
{
    if elements.len() == 0 {
        return None;
    }
    let t = element_text_of(&elements[0]);
    if t.as_str().is_empty() {
        None
    } else {
        Some(t)
    }
}

/// The text of the first element matching `selector`, unless it is empty.
pub fn text_for_first(html: &str, selector: &str) -> (r: Option<String>)
    ensures
        r.deep_view() == first_text(html@, selector@),
{
    let elements = select_text_nodes(html, selector);
    proof {
        if elements@.len() > 0 {
            crate::text::lemma_deep_texts(elements@[0]);
            assert(elements.deep_view()[0] == elements@[0].deep_view());
        }
    }
    first_element_text(&elements)
}

/// The link an anchor element contributes: its `href` resolved against the
/// page, when that is an HTTP(S) URL, with the anchor's readable text.
pub open spec fn link_of(base: Seq<char>, element: (Option<Seq<char>>, Seq<Seq<char>>)) -> Option<
    (Seq<char>, Seq<char>),
> {
    match element.0 {
        None => None,
        Some(href) => match spec_resolve_link(base, href) {
            Some((scheme, url)) => if scheme == "http"@ || scheme == "https"@ {
                Some((url, element_text(element.1)))
            } else {
                None
            },
            None => None,
        },
    }
}

/// The links of the anchor elements, in document order.
pub open spec fn links_from(base: Seq<char>, elements: Seq<(Option<Seq<char>>, Seq<Seq<char>>)>) -> Seq<
    (Seq<char>, Seq<char>),
>
    decreases elements.len(),
{
    if elements.len() == 0 {
        Seq::empty()
    } else {
        let prior = links_from(base, elements.drop_last());
        match link_of(base, elements.last()) {
            Some(link) => prior.push(link),
            None => prior,
        }
    }
}

/// The first 64 HTTP(S) links of the page at `base`.
pub open spec fn page_links(html: Seq<char>, base: Seq<char>) -> Seq<(Seq<char>, Seq<char>)> {
    first_n(links_from(base, spec_selected_elements(html, "a[href]"@, "href"@)), 64)
}

/// The URL and anchor text of a link.
pub open spec fn link_view(link: OutboundLink) -> (Seq<char>, Seq<char>) {
    (link.url@, link.anchor@)
}

/// The URL and anchor text of each link.
pub open spec fn link_views(links: Seq<OutboundLink>) -> Seq<(Seq<char>, Seq<char>)> {
    links.map_values(|l: OutboundLink| link_view(l))
}

/// `text` names an HTTP(S) scheme.
fn is_http_scheme(scheme: &str) -> (r: bool)
    ensures
        r == (scheme@ == "http"@ || scheme@ == "https"@),
{
    let cs = chars_of(scheme);
    crate::text::chars_equal(&cs, "http") || crate::text::chars_equal(&cs, "https")
}

/// How an anchor's `href` resolves against `base` (nothing without `href`).
pub open spec fn resolve_of(base: Seq<char>, element: (Option<Seq<char>>, Seq<Seq<char>>)) -> Option<
    (Seq<char>, Seq<char>),
> {
    match element.0 {
        Some(href) => spec_resolve_link(base, href),
        None => None,
    }
}

/// The link an anchor element contributes, given how its `href` resolved
/// (scheme and URL): HTTP(S) targets only, with the anchor's readable text.
pub open spec fn link_given(
    element: (Option<Seq<char>>, Seq<Seq<char>>),
    resolution: Option<(Seq<char>, Seq<char>)>,
) -> Option<(Seq<char>, Seq<char>)> {
    match element.0 {
        None => None,
        Some(_) => match resolution {
            Some((scheme, url)) => if scheme == "http"@ || scheme == "https"@ {
                Some((url, element_text(element.1)))
            } else {
                None
            },
            None => None,
        },
    }
}

/// The links of the anchor elements, given how each `href` resolved.
pub open spec fn links_given(
    elements: Seq<(Option<Seq<char>>, Seq<Seq<char>>)>,
    resolutions: Seq<Option<(Seq<char>, Seq<char>)>>,
) -> Seq<(Seq<char>, Seq<char>)>
    decreases elements.len(),
{
    if elements.len() == 0 {
        Seq::empty()
    } else {
        let prior = links_given(elements.drop_last(), resolutions);
        match link_given(elements.last(), resolutions[elements.len() - 1]) {
            Some(link) => prior.push(link),
            None => prior,
        }
    }
}

/// Links computed from given resolutions are the page's links when the
/// resolutions are those of the URL parser.
proof fn lemma_links_given(
    base: Seq<char>,
    elements: Seq<(Option<Seq<char>>, Seq<Seq<char>>)>,
    resolutions: Seq<Option<(Seq<char>, Seq<char>)>>,
)
    requires
        resolutions.len() >= elements.len(),
        forall|i: int| 0 <= i < elements.len() ==> #[trigger] resolutions[i] == resolve_of(base, elements[i]),
    ensures
        links_given(elements, resolutions) == links_from(base, elements),
    decreases elements.len(),
{
    if elements.len() > 0 {
        let init = elements.drop_last();
        assert forall|i: int| 0 <= i < init.len() implies #[trigger] resolutions[i] == resolve_of(
            base,
            init[i],
        ) by {
            assert(init[i] == elements[i]);
        }
        lemma_links_given(base, init, resolutions);
        assert(resolutions[elements.len() - 1] == resolve_of(base, elements[elements.len() - 1]));
    }
}

/// The first 64 HTTP(S) links of anchor elements (each its `href` and text
/// nodes), given how each `href` resolved against the page URL (its scheme
/// and serialisation), in document order.
pub fn links_from_resolved(
    elements: &Vec<(Option<String>, Vec<String>)>,
    resolutions: &Vec<Option<(String, String)>>,
) -> (r: Vec<OutboundLink>)
    requires
        resolutions@.len() == elements@.len(),
    ensures
        link_views(r@) == first_n(links_given(elements.deep_view(), resolutions.deep_view()), 64),
{
    let ghost els = elements.deep_view();
    let ghost res = resolutions.deep_view();
    let mut links: Vec<OutboundLink> = Vec::new();
    let mut e: usize = 0;
    while e < elements.len()
        invariant
            0 <= e <= elements@.len(),
            resolutions@.len() == elements@.len(),
            els == elements.deep_view(),
            res == resolutions.deep_view(),
            link_views(links@) == first_n(links_given(els.take(e as int), res), 64),
        decreases elements.len() - e,
    {
        proof {
            assert(els.take(e + 1).drop_last() == els.take(e as int));
            assert(els.take(e + 1).last() == elements@[e as int].deep_view());
        }
        let element = &elements[e];
        let ghost prior = links_given(els.take(e as int), res);
        proof {
            crate::text::lemma_deep_texts(element.1);
            assert(els[e as int] == elements@[e as int].deep_view());
            assert(res[e as int] == resolutions@[e as int].deep_view());
            assert(links_given(els.take(e + 1), res) == match link_given(els[e as int], res[e as int]) {
                Some(link) => prior.push(link),
                None => prior,
            });
            if prior.len() >= 64 {
                assert(first_n(prior, 64) =~= prior.take(64));
                assert(prior.push(link_given(els[e as int], res[e as int])->0).take(64) =~= prior.take(64));
            }
        }
        match &element.0 {
            Some(_) => {
                match &resolutions[e] {
                    Some(resolved) => {
                        if is_http_scheme(resolved.0.as_str()) && links.len() < 64 {
                            let link = OutboundLink {
                                url: String::from_str(resolved.1.as_str()),
                                anchor: element_text_of(&element.1),
                            };
                            proof {
                                assert(link_views(links@.push(link)) == link_views(links@).push(
                                    link_view(link),
                                ));
                            }
                            links.push(link);
                        }
                    },
                    None => {},
                }
            },
            None => {},
        }
        e += 1;
    }
    assert(els.take(els.len() as int) == els);
    links
}

/// The first 64 anchors of the page whose `href` resolves, against the page
/// URL, to an HTTP(S) URL, with their readable text.
pub fn extract_links(html: &str, page_url: &str) -> (r: Vec<OutboundLink>)
    ensures
        link_views(r@) == page_links(html@, page_url@),
{
    let elements = select_elements(html, "a[href]", "href");
    let ghost els = elements.deep_view();
    let mut resolutions: Vec<Option<(String, String)>> = Vec::new();
    let mut e: usize = 0;
    while e < elements.len()
        invariant
            0 <= e <= elements@.len(),
            els == elements.deep_view(),
            resolutions@.len() == e,
            forall|i: int| 0 <= i < e ==> #[trigger] resolutions.deep_view()[i] == resolve_of(page_url@, els[i]),
        decreases elements.len() - e,
    {
        assert(els[e as int] == elements@[e as int].deep_view());
        let resolved = match &elements[e].0 {
            Some(href) => resolve_link(page_url, href.as_str()),
            None => None,
        };
        let ghost before = resolutions.deep_view();
        resolutions.push(resolved);
        proof {
            assert(resolutions.deep_view() =~= before.push(resolved.deep_view()));
        }
        e += 1;
    }
    proof {
        lemma_links_given(page_url@, els, resolutions.deep_view());
    }
    links_from_resolved(&elements, &resolutions)
}

/// The pattern of a capitalised name of up to four words.
pub open spec fn entity_pattern() -> Seq<char> {
    "\\b(?:[A-Z][a-z]+(?:\\s+[A-Z][a-z]+){0,3})\\b"@
}

/// The matches trimmed, keeping those longer than two bytes and not seen before.
pub open spec fn distinct_entities(matches: Seq<Seq<char>>) -> Seq<Seq<char>>
    decreases matches.len(),
{
    if matches.len() == 0 {
        Seq::empty()
    } else {
        let prior = distinct_entities(matches.drop_last());
        let v = trim(matches.last());
        if crate::text::byte_len(v) > 2 && !prior.contains(v) {
            prior.push(v)
        } else {
            prior
        }
    }
}

/// The distinct capitalised names among the first twenty matches in `text`.
pub open spec fn entities_of(text: Seq<char>) -> Seq<Seq<char>> {
    match spec_regex_matches(entity_pattern(), text) {
        Some(found) => distinct_entities(first_n(found, 20)),
        None => Seq::empty(),
    }
}

/// Whether `x` is among the texts of `v`.
fn contains_text(v: &Vec<String>, x: &Vec<char>) -> (r: bool)
    ensures
        r == texts(v@).contains(x@),
{
    let mut i: usize = 0;
    while i < v.len()
        invariant
            0 <= i <= v.len(),
            forall|t: int| 0 <= t < i ==> texts(v@)[t] != x@,
        decreases v.len() - i,
    {
        if crate::text::same_chars(&chars_of(v[i].as_str()), x) {
            assert(texts(v@)[i as int] == x@);
            return true;
        }
        i += 1;
    }
    false
}

/// The entities among regular-expression matches: the first twenty matches
/// trimmed, those longer than two bytes kept once each, in order.
pub fn entities_from_matches(found: &Vec<String>) -> (r: Vec<String>)
    ensures
        texts(r@) == distinct_entities(first_n(texts(found@), 20)),
{
    let ghost ms = texts(found@);
    let limit = if found.len() < 20 {
        found.len()
    } else {
        20
    };
    let mut entities: Vec<String> = Vec::new();
    let mut i: usize = 0;
    while i < limit
        invariant
            0 <= i <= limit <= found@.len(),
            limit == (if 20 < found@.len() { 20 } else { found@.len() }),
            ms == texts(found@),
            texts(entities@) == distinct_entities(ms.take(i as int)),
        decreases limit - i,
    {
        proof {
            assert(ms.take(i + 1).drop_last() == ms.take(i as int));
            assert(ms.take(i + 1).last() == found@[i as int]@);
        }
        let value = trim_chars(&chars_of(found[i].as_str()));
        let v = string_of(&value);
        assert(v@ == trim(ms.take(i + 1).last()));
        if v.as_str().len() > 2 && !contains_text(&entities, &value) {
            proof {
                assert(texts(entities@.push(v)) == texts(entities@).push(v@));
            }
            entities.push(v);
        }
        i += 1;
    }
    assert(first_n(ms, 20) == ms.take(limit as int));
    entities
}

/// Capitalised names (up to four words) found among the first twenty
/// pattern matches, trimmed, longer than two bytes, without repeats.
pub fn extract_entities(text: &str) -> (r: Vec<String>)
    ensures
        texts(r@) == entities_of(text@),
{
    match regex_matches("\\b(?:[A-Z][a-z]+(?:\\s+[A-Z][a-z]+){0,3})\\b", text) {
        Some(found) => {
            assert(found.deep_view() == texts(found@));
            entities_from_matches(&found)
        },
        None => Vec::new(),
    }
}

/// The sentences of at least eight words, in order.
pub open spec fn claim_sentences(ss: Seq<Seq<char>>) -> Seq<Seq<char>>
    decreases ss.len(),
{
    if ss.len() == 0 {
        Seq::empty()
    } else {
        let prior = claim_sentences(ss.drop_last());
        if words(ss.last()).len() >= 8 {
            prior.push(ss.last())
        } else {
            prior
        }
    }
}

/// The first six sentences of at least eight words.
fn select_claims(ss: &Vec<String>) -> (r: Vec<String>)
    ensures
        texts(r@) == first_n(claim_sentences(texts(ss@)), 6),
{
    let mut r: Vec<String> = Vec::new();
    let mut i: usize = 0;
    while i < ss.len()
        invariant
            0 <= i <= ss.len(),
            texts(r@) == first_n(claim_sentences(texts(ss@).take(i as int)), 6),
        decreases ss.len() - i,
    {
        let ghost prior = claim_sentences(texts(ss@).take(i as int));
        proof {
            assert(texts(ss@).take(i + 1).drop_last() == texts(ss@).take(i as int));
            assert(texts(ss@).take(i + 1).last() == ss@[i as int]@);
            if prior.len() >= 6 {
                assert(prior.push(ss@[i as int]@).take(6) =~= prior.take(6));
            }
        }
        if word_count(ss[i].as_str()) >= 8 && r.len() < 6 {
            let c = String::from_str(ss[i].as_str());
            proof {
                assert(texts(r@.push(c)) == texts(r@).push(c@));
            }
            r.push(c);
        }
        i += 1;
    }
    assert(texts(ss@).take(ss@.len() as int) == texts(ss@));
    r
}

/// The selectors whose elements carry a page's main text.
pub open spec fn body_selectors() -> Seq<Seq<char>> {
    seq!["main"@, "article"@, "p"@, "li"@, "h1"@, "h2"@, "h3"@]
}

/// The readable text of a page: the main-content elements when they hold
/// any text, else the whole body.
pub open spec fn page_text(html: Seq<char>) -> Seq<char> {
    let clean = collapse_ws(join(selected_texts(html, body_selectors()), " "@));
    if clean.len() > 0 {
        clean
    } else {
        collapse_ws(join(selected_texts(html, seq!["body"@]), " "@))
    }
}

/// The digest of a fetched page. The share of the markup that is not text
/// (a float) is estimated by the caller from `clean_text` and the HTML.
#[derive(Clone, Debug)]
pub struct PageDigest {
    pub url: String,
    pub domain: String,
    pub title: String,
    pub clean_text: String,
    pub short_summary: String,
    pub key_points: Vec<String>,
    pub entities: Vec<String>,
    pub claims: Vec<String>,
    pub outbound_links: Vec<OutboundLink>,
    pub content_hash: String,
}

/// The text of an optional value, or `fallback`.
pub open spec fn or_else(value: Option<Seq<char>>, fallback: Seq<char>) -> Seq<char> {
    match value {
        Some(v) => v,
        None => fallback,
    }
}

/// Digests the page fetched from `url`: its title (or the URL), readable
/// text, a three-sentence summary, five key points, six claims, entities,
/// up to 64 outbound HTTP(S) links, the host's domain and a content hash.
pub fn extract_page(url: &str, html: &str) -> (r: PageDigest)
    ensures
        r.url@ == url@,
        r.domain@ == or_else(spec_url_domain(url@), Seq::empty()),
        r.title@ == or_else(first_text(html@, "title"@), url@),
        r.clean_text@ == page_text(html@),
        r.short_summary@ == join(first_n(sentences(page_text(html@)), 3), " "@),
        texts(r.key_points@) == first_n(sentences(page_text(html@)), 5),
        texts(r.claims@) == first_n(claim_sentences(sentences(page_text(html@))), 6),
        texts(r.entities@) == entities_of(page_text(html@)),
        link_views(r.outbound_links@) == page_links(html@, url@),
        r.content_hash@ == spec_sha256_hex(page_text(html@)),
{
    let title = match text_for_first(html, "title") {
        Some(t) => t,
        None => String::from_str(url),
    };
    let body_selectors_list: [&str; 7] = ["main", "article", "p", "li", "h1", "h2", "h3"];
    assert(body_selectors_list@.len() == 7);
    assert(body_selectors_list.deep_view() =~= body_selectors());
    let body_chunks = select_text(html, &body_selectors_list);
    let joined = join_strings(&body_chunks, " ");
    let clean_text = collapse_whitespace(joined.as_str());
    let text = if clean_text.as_str().is_empty() {
        let body_list: [&str; 1] = ["body"];
        assert(body_list.deep_view() =~= seq!["body"@]);
        let fallback_chunks = select_text(html, &body_list);
        let fallback_joined = join_strings(&fallback_chunks, " ");
        collapse_whitespace(fallback_joined.as_str())
    } else {
        clean_text
    };
    let sentence_list = split_sentences(text.as_str());
    let short_summary = join_first(&sentence_list, 3, " ");
    let key_points = copy_first(&sentence_list, 5);
    let claims = select_claims(&sentence_list);
    let entities = extract_entities(text.as_str());
    let outbound_links = extract_links(html, url);
    let content_hash = sha256_hex(text.as_str());
    let domain = match url_domain(url) {
        Some(d) => d,
        None => String::new(),
    };
    PageDigest {
        url: String::from_str(url),
        domain,
        title,
        clean_text: text,
        short_summary,
        key_points,
        entities,
        claims,
        outbound_links,
        content_hash,
    }
}

/// No character of `s` ends a sentence.
pub open spec fn no_terminator(s: Seq<char>) -> bool {
    forall|i: int| 0 <= i < s.len() ==> !is_terminator(#[trigger] s[i])
}

/// The pieces between terminators hold no terminator.
proof fn lemma_sentence_scan_clean(s: Seq<char>)
    ensures
        forall|i: int|
            0 <= i < sentence_scan(s).0.len() ==> no_terminator(#[trigger] sentence_scan(s).0[i]),
        no_terminator(sentence_scan(s).1),
    decreases s.len(),
{
    if s.len() > 0 {
        lemma_sentence_scan_clean(s.drop_last());
        let (done, cur) = sentence_scan(s.drop_last());
        let c = s.last();
        if is_terminator(c) {
            assert forall|i: int| 0 <= i < done.push(cur).len() implies no_terminator(
                #[trigger] done.push(cur)[i],
            ) by {
                if i < done.len() {
                    assert(done.push(cur)[i] == done[i]);
                }
            }
            assert(no_terminator(Seq::<char>::empty()));
        } else {
            assert forall|i: int| 0 <= i < cur.push(c).len() implies !is_terminator(
                #[trigger] cur.push(c)[i],
            ) by {
                if i < cur.len() {
                    assert(cur.push(c)[i] == cur[i]);
                }
            }
        }
    }
}

/// Kept sentences have six words or more and, when the pieces hold no
/// terminator, hold none either.
proof fn lemma_long_sentences(pieces: Seq<Seq<char>>)
    ensures
        long_sentences(pieces).len() <= pieces.len(),
        forall|i: int|
            0 <= i < long_sentences(pieces).len() ==> words(#[trigger] long_sentences(pieces)[i]).len()
                >= 6,
        (forall|j: int| 0 <= j < pieces.len() ==> no_terminator(#[trigger] pieces[j])) ==> forall|
            i: int,
        |
            0 <= i < long_sentences(pieces).len() ==> no_terminator(
                #[trigger] long_sentences(pieces)[i],
            ),
    decreases pieces.len(),
{
    if pieces.len() > 0 {
        let init = pieces.drop_last();
        lemma_long_sentences(init);
        let prior = long_sentences(init);
        let p = pieces.last();
        let t = trim(p);
        crate::text::lemma_trim_shape(p);
        if (forall|j: int| 0 <= j < pieces.len() ==> no_terminator(#[trigger] pieces[j])) {
            assert forall|j: int| 0 <= j < init.len() implies no_terminator(#[trigger] init[j]) by {
                assert(init[j] == pieces[j]);
            }
            assert(no_terminator(pieces[pieces.len() - 1]));
            let (a, b) = choose|a: int, b: int|
                0 <= a <= b <= p.len() && #[trigger] p.subrange(a, b) == t;
            assert forall|k: int| 0 <= k < t.len() implies !is_terminator(#[trigger] t[k]) by {
                assert(t[k] == p[a + k]);
            }
        }
        if words(t).len() >= 6 {
            assert forall|i: int| 0 <= i < prior.push(t).len() implies words(
                #[trigger] prior.push(t)[i],
            ).len() >= 6 by {
                if i < prior.len() {
                    assert(prior.push(t)[i] == prior[i]);
                }
            }
            if (forall|j: int| 0 <= j < pieces.len() ==> no_terminator(#[trigger] pieces[j])) {
                assert forall|i: int| 0 <= i < prior.push(t).len() implies no_terminator(
                    #[trigger] prior.push(t)[i],
                ) by {
                    if i < prior.len() {
                        assert(prior.push(t)[i] == prior[i]);
                    }
                }
            }
        }
    }
}

/// Every sentence has at least six words and contains no terminator.
pub proof fn lemma_sentences_shape(text: Seq<char>)
    ensures
        forall|i: int|
            0 <= i < sentences(text).len() ==> words(#[trigger] sentences(text)[i]).len() >= 6
                && no_terminator(sentences(text)[i]),
{
    lemma_sentence_scan_clean(text);
    let (done, cur) = sentence_scan(text);
    let pieces = sentence_pieces(text);
    assert forall|j: int| 0 <= j < pieces.len() implies no_terminator(#[trigger] pieces[j]) by {
        if cur.len() > 0 && j == done.len() {
            assert(pieces[j] == cur);
        } else {
            assert(pieces[j] == done[j]);
        }
    }
    lemma_long_sentences(pieces);
}

/// Claims have eight words or more and are among the sentences.
proof fn lemma_claims(ss: Seq<Seq<char>>)
    ensures
        claim_sentences(ss).len() <= ss.len(),
        forall|i: int|
            0 <= i < claim_sentences(ss).len() ==> words(#[trigger] claim_sentences(ss)[i]).len()
                >= 8 && ss.contains(claim_sentences(ss)[i]),
    decreases ss.len(),
{
    if ss.len() > 0 {
        let init = ss.drop_last();
        lemma_claims(init);
        let prior = claim_sentences(init);
        assert forall|i: int| 0 <= i < claim_sentences(ss).len() implies words(
            #[trigger] claim_sentences(ss)[i],
        ).len() >= 8 && ss.contains(claim_sentences(ss)[i]) by {
            if i < prior.len() {
                assert(claim_sentences(ss)[i] == prior[i]);
                let k = choose|k: int| 0 <= k < init.len() && init[k] == prior[i];
                assert(ss[k] == init[k]);
            } else {
                assert(claim_sentences(ss)[i] == ss.last());
                assert(ss[ss.len() - 1] == ss.last());
            }
        }
    }
}

/// Entities are distinct, at most as many as the matches.
proof fn lemma_distinct_entities(ms: Seq<Seq<char>>)
    ensures
        distinct_entities(ms).len() <= ms.len(),
        distinct_entities(ms).no_duplicates(),
    decreases ms.len(),
{
    if ms.len() > 0 {
        lemma_distinct_entities(ms.drop_last());
        let prior = distinct_entities(ms.drop_last());
        let v = trim(ms.last());
        if crate::text::byte_len(v) > 2 && !prior.contains(v) {
            assert forall|i: int, j: int|
                0 <= i < j < prior.push(v).len() implies #[trigger] prior.push(v)[i]
                != #[trigger] prior.push(v)[j] by {
                if j == prior.len() {
                    assert(prior.push(v)[i] == prior[i]);
                } else {
                    assert(prior.push(v)[i] == prior[i]);
                    assert(prior.push(v)[j] == prior[j]);
                }
            }
        }
    }
}

/// `url` is the serialisation of some `href` resolved against `base` to an HTTP(S) URL.
pub open spec fn resolved_http(base: Seq<char>, url: Seq<char>) -> bool {
    exists|href: Seq<char>|
        #[trigger] spec_resolve_link(base, href) matches Some(r) && r.1 == url && (r.0 == "http"@
            || r.0 == "https"@)
}

/// Every collected link is an HTTP(S) URL resolved against the page.
proof fn lemma_links_http(base: Seq<char>, elements: Seq<(Option<Seq<char>>, Seq<Seq<char>>)>)
    ensures
        links_from(base, elements).len() <= elements.len(),
        forall|i: int|
            0 <= i < links_from(base, elements).len() ==> resolved_http(
                base,
                (#[trigger] links_from(base, elements)[i]).0,
            ),
    decreases elements.len(),
{
    if elements.len() > 0 {
        lemma_links_http(base, elements.drop_last());
        let prior = links_from(base, elements.drop_last());
        let e = elements.last();
        match link_of(base, e) {
            Some(link) => {
                let href = e.0->0;
                let (scheme, url) = spec_resolve_link(base, href)->0;
                assert(resolved_http(base, link.0));
                assert forall|i: int| 0 <= i < prior.push(link).len() implies resolved_http(
                    base,
                    (#[trigger] prior.push(link)[i]).0,
                ) by {
                    if i < prior.len() {
                        assert(prior.push(link)[i] == prior[i]);
                    }
                }
            },
            None => {},
        }
    }
}

/// A page digest is bounded: three summary sentences, five key points, six
/// claims of at least eight words, at most twenty distinct entities and 64
/// links, each an HTTP(S) URL resolved against the page; every sentence has
/// at least six words and no terminator.
pub proof fn lemma_digest_bounded(url: Seq<char>, html: Seq<char>)
    ensures
        first_n(sentences(page_text(html)), 3).len() <= 3,
        first_n(sentences(page_text(html)), 5).len() <= 5,
        forall|i: int|
            0 <= i < sentences(page_text(html)).len() ==> words(
                #[trigger] sentences(page_text(html))[i],
            ).len() >= 6 && no_terminator(sentences(page_text(html))[i]),
        first_n(claim_sentences(sentences(page_text(html))), 6).len() <= 6,
        forall|i: int|
            0 <= i < first_n(claim_sentences(sentences(page_text(html))), 6).len() ==> words(
                #[trigger] first_n(claim_sentences(sentences(page_text(html))), 6)[i],
            ).len() >= 8,
        entities_of(page_text(html)).len() <= 20,
        entities_of(page_text(html)).no_duplicates(),
        page_links(html, url).len() <= 64,
        forall|i: int|
            0 <= i < page_links(html, url).len() ==> resolved_http(
                url,
                (#[trigger] page_links(html, url)[i]).0,
            ),
{
    let pt = page_text(html);
    lemma_sentences_shape(pt);
    let cs = claim_sentences(sentences(pt));
    lemma_claims(sentences(pt));
    assert forall|i: int| 0 <= i < first_n(cs, 6).len() implies words(
        #[trigger] first_n(cs, 6)[i],
    ).len() >= 8 by {
        assert(first_n(cs, 6)[i] == cs[i]);
    }
    match spec_regex_matches(entity_pattern(), pt) {
        Some(found) => {
            lemma_distinct_entities(first_n(found, 20));
        },
        None => {},
    }
    let els = spec_selected_elements(html, "a[href]"@, "href"@);
    lemma_links_http(url, els);
    let all = links_from(url, els);
    assert forall|i: int| 0 <= i < page_links(html, url).len() implies resolved_http(
        url,
        (#[trigger] page_links(html, url)[i]).0,
    ) by {
        assert(page_links(html, url)[i] == all[i]);
    }
}


/// The terminators of `s`, in order.
pub open spec fn terminators_of(s: Seq<char>) -> Seq<char>
    decreases s.len(),
{
    if s.len() == 0 {
        Seq::empty()
    } else if is_terminator(s.last()) {
        terminators_of(s.drop_last()).push(s.last())
    } else {
        terminators_of(s.drop_last())
    }
}

/// Pieces put back together, the `i`-th followed by the `i`-th terminator
/// when there is one.
pub open spec fn rejoin(pieces: Seq<Seq<char>>, terminators: Seq<char>) -> Seq<char>
    decreases pieces.len(),
{
    if pieces.len() == 0 {
        Seq::empty()
    } else {
        let k = pieces.len() - 1;
        rejoin(pieces.drop_last(), terminators) + pieces.last() + if k < terminators.len() {
            seq![terminators[k]]
        } else {
            Seq::empty()
        }
    }
}

/// Rejoining reads only as many terminators as there are pieces.
proof fn lemma_rejoin_prefix(pieces: Seq<Seq<char>>, t1: Seq<char>, t2: Seq<char>)
    requires
        t1.len() >= pieces.len(),
        t2.len() >= pieces.len(),
        forall|i: int| 0 <= i < pieces.len() ==> #[trigger] t1[i] == t2[i],
    ensures
        rejoin(pieces, t1) == rejoin(pieces, t2),
    decreases pieces.len(),
{
    if pieces.len() > 0 {
        lemma_rejoin_prefix(pieces.drop_last(), t1, t2);
        assert(t1[pieces.len() - 1] == t2[pieces.len() - 1]);
    }
}

/// The finished pieces of the scan, each with the terminator that closed it,
/// followed by the piece in progress, give back the scanned text.
proof fn lemma_scan_rejoin(s: Seq<char>)
    ensures
        sentence_scan(s).0.len() == terminators_of(s).len(),
        rejoin(sentence_scan(s).0, terminators_of(s)) + sentence_scan(s).1 == s,
    decreases s.len(),
{
    if s.len() > 0 {
        let init = s.drop_last();
        lemma_scan_rejoin(init);
        let (done, cur) = sentence_scan(init);
        let ts = terminators_of(init);
        let c = s.last();
        if is_terminator(c) {
            let ts2 = ts.push(c);
            lemma_rejoin_prefix(done, ts, ts2);
            assert(done.push(cur).drop_last() =~= done);
            assert(rejoin(done.push(cur), ts2) == rejoin(done, ts2) + cur + seq![c]);
            assert(rejoin(done, ts) + cur + seq![c] + Seq::<char>::empty() =~= s);
        } else {
            assert(s =~= init.push(c));
            assert(rejoin(done, ts) + cur.push(c) =~= (rejoin(done, ts) + cur).push(c));
        }
    }
}

/// Splitting at sentence terminators loses no text: the pieces, each
/// followed by the terminator that ended it, give back the whole input. There
/// is one piece per terminator, plus a last, non-empty piece for any text
/// after the last terminator; no piece holds a terminator.
pub proof fn lemma_sentence_pieces_rejoin(s: Seq<char>)
    ensures
        rejoin(sentence_pieces(s), terminators_of(s)) == s,
        sentence_pieces(s).len() == terminators_of(s).len() || (sentence_pieces(s).len()
            == terminators_of(s).len() + 1 && sentence_pieces(s).last().len() > 0),
        forall|i: int|
            0 <= i < sentence_pieces(s).len() ==> no_terminator(#[trigger] sentence_pieces(s)[i]),
{
    lemma_scan_rejoin(s);
    lemma_sentence_scan_clean(s);
    let (done, cur) = sentence_scan(s);
    let ts = terminators_of(s);
    if cur.len() > 0 {
        assert(done.push(cur).drop_last() =~= done);
        assert(rejoin(done.push(cur), ts) =~= rejoin(done, ts) + cur);
        assert forall|i: int| 0 <= i < done.push(cur).len() implies no_terminator(
            #[trigger] done.push(cur)[i],
        ) by {
            if i < done.len() {
                assert(done.push(cur)[i] == done[i]);
            }
        }
    } else {
        assert(rejoin(done, ts) + cur =~= rejoin(done, ts));
    }
}

/// A text without terminators is scanned as one piece in progress.
proof fn lemma_scan_no_terminator(s: Seq<char>)
    requires
        no_terminator(s),
    ensures
        sentence_scan(s) == (Seq::<Seq<char>>::empty(), s),
    decreases s.len(),
{
    if s.len() > 0 {
        assert(no_terminator(s.drop_last())) by {
            assert forall|i: int| 0 <= i < s.drop_last().len() implies !is_terminator(
                #[trigger] s.drop_last()[i],
            ) by {
                assert(s.drop_last()[i] == s[i]);
            }
        }
        lemma_scan_no_terminator(s.drop_last());
        assert(!is_terminator(s[s.len() - 1]));
        assert(s.drop_last().push(s.last()) =~= s);
    }
}

/// A text with no terminator and at least six words is one sentence: the
/// text itself, trimmed.
pub proof fn lemma_unterminated_sentence(text: Seq<char>)
    requires
        no_terminator(text),
        words(trim(text)).len() >= 6,
    ensures
        sentences(text) == seq![trim(text)],
{
    lemma_scan_no_terminator(text);
    if text.len() == 0 {
        crate::text::lemma_trim_idempotent(text);
        assert(trim(text) =~= Seq::<char>::empty()) by {
            assert(crate::text::trim_start(text) == text);
            assert(crate::text::trim_end(text) == text);
        }
        assert(words(Seq::<char>::empty()).len() == 0) by {
            assert(crate::text::word_scan(Seq::<char>::empty()) == (
                Seq::<Seq<char>>::empty(),
                Seq::<char>::empty(),
            ));
        }
    }
    let pieces = sentence_pieces(text);
    assert(pieces =~= seq![text]);
    assert(pieces.drop_last() =~= Seq::<Seq<char>>::empty());
    assert(long_sentences(pieces.drop_last()) == Seq::<Seq<char>>::empty());
}

} // verus!
