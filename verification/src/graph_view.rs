//! Vocabulary of the 3D graph viewport: colour modes and field telemetry.
use vstd::prelude::*;

use crate::rank::{
    distinct, key_ints, lemma_distinct, lemma_occurrences, min_len, occurrences, positions,
    rank_top, tally_keys, top_ranked,
};
use crate::text::{chars_equal, chars_of, texts};

verus! {

/// How the graph viewport colours and lays out pages.
#[derive(Clone, Copy, Debug, PartialEq, Eq, Hash)]
pub enum GraphColorMode {
    Novelty,
    PageSemantic,
    JudgmentSemantic,
}

impl Default for GraphColorMode {
    fn default() -> (r: Self)
        ensures
            r == GraphColorMode::Novelty,
    {
        GraphColorMode::Novelty
    }
}

impl GraphColorMode {
    /// Every mode, in the order the toolbar lists them.
    pub fn all() -> (r: [GraphColorMode; 3])
        ensures
            r@ == seq![
                GraphColorMode::Novelty,
                GraphColorMode::PageSemantic,
                GraphColorMode::JudgmentSemantic,
            ],
    {
        [GraphColorMode::Novelty, GraphColorMode::PageSemantic, GraphColorMode::JudgmentSemantic]
    }

    /// The toolbar label of the mode.
    pub fn label(self) -> (r: &'static str)
        ensures
            r@ == match self {
                GraphColorMode::Novelty => "NOVELTY"@,
                GraphColorMode::PageSemantic => "PAGE SEM"@,
                GraphColorMode::JudgmentSemantic => "LLM SEM"@,
            },
    {
        match self {
            GraphColorMode::Novelty => "NOVELTY",
            GraphColorMode::PageSemantic => "PAGE SEM",
            GraphColorMode::JudgmentSemantic => "LLM SEM",
        }
    }

    /// The caption shown under the viewport title.
    pub fn subtitle(self) -> (r: &'static str)
        ensures
            r@ == match self {
                GraphColorMode::Novelty => "hyperlink topology + novelty heat"@,
                GraphColorMode::PageSemantic => "content embeddings // semantic clusters"@,
                GraphColorMode::JudgmentSemantic => "llm judgment embeddings // response resonance"@,
            },
    {
        match self {
            GraphColorMode::Novelty => "hyperlink topology + novelty heat",
            GraphColorMode::PageSemantic => "content embeddings // semantic clusters",
            GraphColorMode::JudgmentSemantic => "llm judgment embeddings // response resonance",
        }
    }
}

/// How many pages fell into one semantic cluster.
#[derive(Clone, Debug, Default)]
pub struct ClusterTelemetry {
    pub cluster_index: usize,
    pub count: usize,
}

/// How many pages of the graph come from one domain.
#[derive(Clone, Debug, Default)]
pub struct DomainTelemetry {
    pub domain: String,
    pub count: usize,
}

/// Counts each distinct domain of `domains`, in order of first appearance.
fn tally_domains(domains: &Vec<String>) -> (r: (Vec<String>, Vec<usize>))
    ensures
        texts(r.0@) == distinct(texts(domains@)),
        r.1@.len() == r.0@.len(),
        forall|j: int|
            0 <= j < r.1@.len() ==> #[trigger] r.1@[j] == occurrences(texts(domains@), r.0@[j]@),
{
    let ghost ds = texts(domains@);
    let mut names: Vec<String> = Vec::new();
    let mut counts: Vec<usize> = Vec::new();
    let mut i: usize = 0;
    while i < domains.len()
        invariant
            0 <= i <= domains@.len(),
            ds == texts(domains@),
            texts(names@) == distinct(ds.take(i as int)),
            counts@.len() == names@.len(),
            forall|j: int|
                0 <= j < counts@.len() ==> #[trigger] counts@[j] == occurrences(
                    ds.take(i as int),
                    names@[j]@,
                ) && counts@[j] <= i,
        decreases domains.len() - i,
    {
        let ghost before = ds.take(i as int);
        let ghost after = ds.take(i + 1);
        let ghost d = domains@[i as int]@;
        proof {
            assert(after.drop_last() =~= before);
            assert(after.last() == d);
            lemma_distinct(before);
            assert forall|x: Seq<char>| #[trigger] occurrences(after, x) == occurrences(before, x)
                + if d == x {
                1nat
            } else {
                0nat
            } by {}
        }
        let mut found: usize = names.len();
        let mut j: usize = 0;
        while j < names.len()
            invariant
                0 <= j <= names@.len(),
                found == names@.len() || (found < j && names@[found as int]@ == d),
                found == names@.len() ==> forall|t: int| 0 <= t < j ==> #[trigger] names@[t]@ != d,
                d == domains@[i as int]@,
                i < domains@.len(),
            decreases names.len() - j,
        {
            if found == names.len() {
                let cs = chars_of(names[j].as_str());
                if chars_equal(&cs, domains[i].as_str()) {
                    found = j;
                }
            }
            j += 1;
        }
        if found < names.len() {
            let ghost old_counts = counts@;
            proof {
                assert(texts(names@)[found as int] == d);
                assert(distinct(before).contains(d));
            }
            let c = counts[found];
            counts.set(found, c + 1);
            proof {
                assert(texts(names@) == distinct(after));
                assert forall|t: int| 0 <= t < counts@.len() implies #[trigger] counts@[t]
                    == occurrences(after, names@[t]@) && counts@[t] <= i + 1 by {
                    assert(old_counts[t] == occurrences(before, names@[t]@));
                    if t != found {
                        assert(texts(names@)[t] != texts(names@)[found as int]);
                    }
                }
            }
        } else {
            proof {
                assert forall|t: int| 0 <= t < distinct(before).len() implies distinct(before)[t]
                    != d by {
                    assert(texts(names@)[t] == names@[t]@);
                }
                assert(!distinct(before).contains(d));
                assert(!before.contains(d));
                lemma_occurrences(before, d);
            }
            let ghost old_counts = counts@;
            let name = String::from_str(domains[i].as_str());
            names.push(name);
            counts.push(1);
            proof {
                assert(texts(names@) =~= distinct(before).push(d));
                assert forall|t: int| 0 <= t < counts@.len() implies #[trigger] counts@[t]
                    == occurrences(after, names@[t]@) && counts@[t] <= i + 1 by {
                    if t < old_counts.len() {
                        assert(old_counts[t] == occurrences(before, names@[t]@));
                        assert(texts(names@)[t] == distinct(before)[t]);
                    }
                }
            }
        }
        i += 1;
    }
    assert(ds.take(domains@.len() as int) =~= ds);
    (names, counts)
}

/// The `k` domains with the most graph nodes, busiest first (domains with
/// equal counts in order of first appearance), each with its node count.
pub fn top_domains(domains: &Vec<String>, k: usize) -> (r: Vec<DomainTelemetry>)
    ensures
        r@.len() == min_len(k as nat, distinct(texts(domains@)).len()),
        exists|order: Seq<int>|
            top_ranked(tally_keys(texts(domains@)), order, r@.len()) && forall|p: int|
                0 <= p < r@.len() ==> {
                    &&& (#[trigger] r@[p]).domain@ == distinct(texts(domains@))[order[p]]
                    &&& r@[p].count == occurrences(texts(domains@), r@[p].domain@)
                },
{
    let (names, counts) = tally_domains(domains);
    let mut keys: Vec<u64> = Vec::new();
    let mut i: usize = 0;
    while i < counts.len()
        invariant
            0 <= i <= counts@.len(),
            keys@.len() == i,
            forall|t: int| 0 <= t < i ==> #[trigger] keys@[t] == counts@[t],
        decreases counts.len() - i,
    {
        keys.push(counts[i] as u64);
        i += 1;
    }
    proof {
        assert forall|t: int| 0 <= t < keys@.len() implies #[trigger] key_ints(keys@)[t]
            == tally_keys(texts(domains@))[t] by {
            assert(texts(names@)[t] == names@[t]@);
        }
        assert(key_ints(keys@) =~= tally_keys(texts(domains@)));
    }
    let picked = rank_top(&keys, k);
    let ghost order = positions(picked@);
    let mut out: Vec<DomainTelemetry> = Vec::new();
    let mut p: usize = 0;
    while p < picked.len()
        invariant
            0 <= p <= picked@.len(),
            order == positions(picked@),
            top_ranked(tally_keys(texts(domains@)), order, picked@.len() as nat),
            texts(names@) == distinct(texts(domains@)),
            counts@.len() == names@.len(),
            forall|j: int|
                0 <= j < counts@.len() ==> #[trigger] counts@[j] == occurrences(
                    texts(domains@),
                    names@[j]@,
                ),
            out@.len() == p,
            forall|q: int|
                0 <= q < p ==> {
                    &&& (#[trigger] out@[q]).domain@ == distinct(texts(domains@))[order[q]]
                    &&& out@[q].count == occurrences(texts(domains@), out@[q].domain@)
                },
        decreases picked.len() - p,
    {
        let idx = picked[p];
        assert(order[p as int] == idx as int);
        assert(texts(names@)[idx as int] == names@[idx as int]@);
        out.push(DomainTelemetry { domain: String::from_str(names[idx].as_str()), count: counts[idx] });
        p += 1;
    }
    out
}

/// Counts each distinct cluster of `clusters`, in order of first appearance.
fn tally_clusters(clusters: &Vec<usize>) -> (r: (Vec<usize>, Vec<usize>))
    ensures
        r.0@ == distinct(clusters@),
        r.1@.len() == r.0@.len(),
        forall|j: int| 0 <= j < r.1@.len() ==> #[trigger] r.1@[j] == occurrences(clusters@, r.0@[j]),
{
    let mut ids: Vec<usize> = Vec::new();
    let mut counts: Vec<usize> = Vec::new();
    let mut i: usize = 0;
    while i < clusters.len()
        invariant
            0 <= i <= clusters@.len(),
            ids@ == distinct(clusters@.take(i as int)),
            counts@.len() == ids@.len(),
            forall|j: int|
                0 <= j < counts@.len() ==> #[trigger] counts@[j] == occurrences(
                    clusters@.take(i as int),
                    ids@[j],
                ) && counts@[j] <= i,
        decreases clusters.len() - i,
    {
        let ghost before = clusters@.take(i as int);
        let ghost after = clusters@.take(i + 1);
        let c = clusters[i];
        proof {
            assert(after.drop_last() =~= before);
            assert(after.last() == c);
            lemma_distinct(before);
            assert forall|x: usize| #[trigger] occurrences(after, x) == occurrences(before, x)
                + if c == x {
                1nat
            } else {
                0nat
            } by {}
        }
        let mut found: usize = ids.len();
        let mut j: usize = 0;
        while j < ids.len()
            invariant
                0 <= j <= ids@.len(),
                found == ids@.len() || (found < j && ids@[found as int] == c),
                found == ids@.len() ==> forall|t: int| 0 <= t < j ==> #[trigger] ids@[t] != c,
            decreases ids.len() - j,
        {
            if found == ids.len() && ids[j] == c {
                found = j;
            }
            j += 1;
        }
        if found < ids.len() {
            let ghost old_counts = counts@;
            let n = counts[found];
            counts.set(found, n + 1);
            proof {
                assert(distinct(before).contains(c));
                assert forall|t: int| 0 <= t < counts@.len() implies #[trigger] counts@[t]
                    == occurrences(after, ids@[t]) && counts@[t] <= i + 1 by {
                    assert(old_counts[t] == occurrences(before, ids@[t]));
                    if t != found {
                        assert(ids@[t] != ids@[found as int]);
                    }
                }
            }
        } else {
            proof {
                assert(!distinct(before).contains(c));
                assert(!before.contains(c));
                lemma_occurrences(before, c);
            }
            let ghost old_counts = counts@;
            ids.push(c);
            counts.push(1);
            proof {
                assert forall|t: int| 0 <= t < counts@.len() implies #[trigger] counts@[t]
                    == occurrences(after, ids@[t]) && counts@[t] <= i + 1 by {
                    if t < old_counts.len() {
                        assert(old_counts[t] == occurrences(before, ids@[t]));
                    }
                }
            }
        }
        i += 1;
    }
    assert(clusters@.take(clusters@.len() as int) =~= clusters@);
    (ids, counts)
}

/// The size of every semantic cluster, given the cluster of each placed
/// page: largest first, equal sizes in order of first appearance.
pub fn cluster_sizes(clusters: &Vec<usize>) -> (r: Vec<ClusterTelemetry>)
    ensures
        r@.len() == distinct(clusters@).len(),
        exists|order: Seq<int>|
            top_ranked(tally_keys(clusters@), order, r@.len()) && forall|p: int|
                0 <= p < r@.len() ==> {
                    &&& (#[trigger] r@[p]).cluster_index == distinct(clusters@)[order[p]]
                    &&& r@[p].count == occurrences(clusters@, r@[p].cluster_index)
                },
{
    let (ids, counts) = tally_clusters(clusters);
    let mut keys: Vec<u64> = Vec::new();
    let mut i: usize = 0;
    while i < counts.len()
        invariant
            0 <= i <= counts@.len(),
            keys@.len() == i,
            forall|t: int| 0 <= t < i ==> #[trigger] keys@[t] == counts@[t],
        decreases counts.len() - i,
    {
        keys.push(counts[i] as u64);
        i += 1;
    }
    assert(key_ints(keys@) =~= tally_keys(clusters@));
    let picked = rank_top(&keys, ids.len());
    let ghost order = positions(picked@);
    let mut out: Vec<ClusterTelemetry> = Vec::new();
    let mut p: usize = 0;
    while p < picked.len()
        invariant
            0 <= p <= picked@.len(),
            order == positions(picked@),
            top_ranked(tally_keys(clusters@), order, picked@.len() as nat),
            ids@ == distinct(clusters@),
            counts@.len() == ids@.len(),
            forall|j: int| 0 <= j < counts@.len() ==> #[trigger] counts@[j] == occurrences(clusters@, ids@[j]),
            out@.len() == p,
            forall|q: int|
                0 <= q < p ==> {
                    &&& (#[trigger] out@[q]).cluster_index == distinct(clusters@)[order[q]]
                    &&& out@[q].count == occurrences(clusters@, out@[q].cluster_index)
                },
        decreases picked.len() - p,
    {
        let idx = picked[p];
        assert(order[p as int] == idx as int);
        out.push(ClusterTelemetry { cluster_index: ids[idx], count: counts[idx] });
        p += 1;
    }
    out
}

} // verus!
