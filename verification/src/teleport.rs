//! Teleport/personalization vector construction for topic-biased ranking.
//!
//! A topic-weight mapping (`lemma → weight`) plus a minimum weight for
//! out-of-vocabulary nodes yields one raw weight per node, indexed exactly
//! like the compiled graph's nodes; the raw vector is then normalized to
//! total mass 1.0, falling back to uniform when every weight is zero.

use vstd::prelude::*;
use vstd::arithmetic::div_mod::{
    lemma_div_denominator, lemma_div_multiples_vanish, lemma_fundamental_div_mod,
};
use crate::csr::CsrGraph;
use crate::pagerank::{
    normalize_scores, spec_distribution, spec_normalize, spec_run, spec_uniform,
};
use crate::sums::{as_ints, lemma_sum_const, sum_int};
use crate::types::SCALE;

verus! {

/// One topic entry: a lemma and its fixed-point importance weight.
#[derive(Clone, Debug)]
pub struct TopicEntry {
    /// Lemma the weight applies to.
    pub lemma: String,
    /// Importance weight in fixed-point units of 1e-12.
    pub weight: u64,
}

/// A `lemma → weight` mapping with deterministic (first-match) lookup
/// order.
#[derive(Clone, Debug)]
pub struct TopicWeights {
    /// Entries in insertion order; lookup returns the first match.
    pub entries: Vec<TopicEntry>,
}

/// First-match lookup of a lemma's weight.
pub open spec fn spec_lookup(entries: Seq<TopicEntry>, lemma: Seq<char>) -> Option<u64>
    decreases entries.len(),
{
    if entries.len() == 0 {
        None
    } else if entries[0].lemma@ == lemma {
        Some(entries[0].weight)
    } else {
        spec_lookup(entries.drop_first(), lemma)
    }
}

/// The raw weight of a node: its lemma's topic weight, or `min_weight`
/// when the lemma is out of vocabulary.
pub open spec fn spec_node_weight(
    entries: Seq<TopicEntry>,
    lemma: Seq<char>,
    min_weight: u64,
) -> u64 {
    match spec_lookup(entries, lemma) {
        Some(w) => w,
        None => min_weight,
    }
}

/// Raw per-node weights in node-index order.
pub open spec fn spec_raw_weights(
    g: CsrGraph,
    entries: Seq<TopicEntry>,
    min_weight: u64,
) -> Seq<int> {
    Seq::new(
        g.n() as nat,
        |i: int| spec_node_weight(entries, g.keys_view()[i].lemma, min_weight) as int,
    )
}

/// The teleport vector: raw weights normalized to mass 1.0 (uniform when
/// the raw vector is all zero).
pub open spec fn spec_teleport(g: CsrGraph, entries: Seq<TopicEntry>, min_weight: u64) -> Seq<
    int,
> {
    spec_normalize(spec_raw_weights(g, entries, min_weight))
}

impl TopicWeights {
    /// Create an empty mapping.
    pub fn new() -> (r: TopicWeights)
        ensures
            r.entries@.len() == 0,
    {
        TopicWeights { entries: Vec::new() }
    }

    /// Append an entry. An existing entry for the same lemma keeps
    /// priority: lookup returns the first match.
    pub fn insert(&mut self, lemma: String, weight: u64)
        ensures
            final(self).entries@ == old(self).entries@.push(
                TopicEntry { lemma, weight },
            ),
    {
        self.entries.push(TopicEntry { lemma, weight });
    }

    /// Number of entries.
    pub fn len(&self) -> (n: usize)
        ensures
            n == self.entries@.len(),
    {
        self.entries.len()
    }

    /// The weight recorded for `lemma`, or `min_weight` when absent.
    pub fn weight_for(&self, lemma: &String, min_weight: u64) -> (w: u64)
        ensures
            w == spec_node_weight(self.entries@, lemma@, min_weight),
    {
        let n = self.entries.len();
        proof {
            assert(self.entries@.skip(0) =~= self.entries@);
        }
        let mut h: usize = 0;
        while h < n
            invariant
                n == self.entries@.len(),
                h <= n,
                spec_lookup(self.entries@, lemma@) == spec_lookup(
                    self.entries@.skip(h as int),
                    lemma@,
                ),
            decreases n - h,
        {
            proof {
                assert(self.entries@.skip(h as int)[0] == self.entries@[h as int]);
                assert(self.entries@.skip(h as int).drop_first() =~= self.entries@.skip(
                    h as int + 1,
                ));
            }
            if self.entries[h].lemma == *lemma {
                return self.entries[h].weight;
            }
            h = h + 1;
        }
        min_weight
    }
}

/// Build the teleport vector for `graph` from a topic-weight mapping.
///
/// For each node index `i` with key lemma `k`, the raw weight is the
/// mapping's weight for `k`, or `min_weight` when absent; the raw vector
/// is normalized to sum 1.0, or replaced by the uniform vector when its
/// sum is zero.
pub fn build_teleport(topic_weights: &TopicWeights, graph: &CsrGraph, min_weight: u64) -> (t: Vec<
    u64,
>)
    requires
        graph.wf(),
        graph.n() >= 1,
    ensures
        t@.len() == graph.n(),
        as_ints(t@) == spec_teleport(*graph, topic_weights.entries@, min_weight),
        spec_distribution(as_ints(t@), graph.n()),
        forall|p: int| 0 <= p < t@.len() ==> #[trigger] t@[p] <= SCALE,
{
    let n = graph.node_count();
    let mut raws: Vec<u64> = Vec::new();
    let mut i: usize = 0;
    while i < n
        invariant
            graph.wf(),
            n as int == graph.n(),
            i <= n,
            raws@.len() == i,
            forall|p: int|
                0 <= p < i ==> #[trigger] raws@[p] == spec_node_weight(
                    topic_weights.entries@,
                    graph.keys_view()[p].lemma,
                    min_weight,
                ),
        decreases n - i,
    {
        let key = graph.key_at(i);
        let w = topic_weights.weight_for(&key.lemma, min_weight);
        raws.push(w);
        i = i + 1;
    }
    proof {
        assert(as_ints(raws@) =~= spec_raw_weights(*graph, topic_weights.entries@, min_weight));
    }
    normalize_scores(&raws)
}

/// Normalizing a constant vector gives the uniform vector: a topic-weight
/// mapping that assigns every node lemma the same weight (the empty
/// mapping with any `min_weight` included) biases nothing.
pub proof fn lemma_equal_weights_uniform(raw: Seq<int>, w: int)
    requires
        raw.len() >= 1,
        w >= 0,
        forall|i: int| 0 <= i < raw.len() ==> raw[i] == w,
    ensures
        spec_normalize(raw) == spec_uniform(raw.len() as int),
{
    let n = raw.len() as int;
    assert(raw =~= Seq::new(n as nat, |i: int| w));
    lemma_sum_const(n as nat, w);
    let s = sum_int(raw);
    assert(s == n * w);
    if w == 0 {
        assert(s == 0) by (nonlinear_arith)
            requires
                s == n * w,
                w == 0,
        ;
    } else {
        assert(s > 0) by (nonlinear_arith)
            requires
                s == n * w,
                n >= 1,
                w >= 1,
        ;
        let big = SCALE as int;
        let floors = crate::pagerank::spec_floors(raw);
        assert forall|i: int| 0 <= i < n implies #[trigger] floors[i] == big / n by {
            assert(floors[i] == (w * big) / s);
            assert(s == w * n) by (nonlinear_arith)
                requires
                    s == n * w,
            ;
            lemma_div_denominator(w * big, w, n);
            lemma_div_multiples_vanish(big, w);
            assert((w * big) / w == big);
            assert((w * big) / (w * n) == ((w * big) / w) / n);
        }
        let base = Seq::new(n as nat, |i: int| big / n);
        assert(floors =~= base);
        lemma_sum_const(n as nat, big / n);
        assert(sum_int(floors) == n * (big / n));
        lemma_fundamental_div_mod(big, n);
        assert(big - sum_int(floors) == big % n);
        assert(spec_normalize(raw) == spec_uniform(n));
    }
}

/// Personalization round-trip: a topic-weight mapping that gives every
/// node lemma one equal weight produces exactly the uniform teleport
/// vector, so the personalized run coincides with the plain (uniform)
/// run, step for step.
pub proof fn lemma_equal_topic_run_is_uniform_run(
    g: CsrGraph,
    entries: Seq<TopicEntry>,
    min_weight: u64,
    w: int,
    d: int,
    thr: int,
    budget: int,
)
    requires
        g.wf(),
        g.n() >= 1,
        w >= 0,
        forall|i: int|
            0 <= i < g.n() ==> spec_node_weight(entries, g.keys_view()[i].lemma, min_weight)
                as int == w,
    ensures
        spec_teleport(g, entries, min_weight) == spec_uniform(g.n()),
        spec_run(
            g,
            d,
            spec_teleport(g, entries, min_weight),
            thr,
            spec_teleport(g, entries, min_weight),
            budget,
        ) == spec_run(g, d, spec_uniform(g.n()), thr, spec_uniform(g.n()), budget),
{
    let raw = spec_raw_weights(g, entries, min_weight);
    assert forall|i: int| 0 <= i < raw.len() implies raw[i] == w by {}
    lemma_equal_weights_uniform(raw, w);
}

/// The empty topic-weight mapping with a uniform out-of-vocabulary
/// fallback yields the uniform teleport vector, for every `min_weight`.
pub proof fn lemma_empty_topic_uniform(g: CsrGraph, min_weight: u64)
    requires
        g.wf(),
        g.n() >= 1,
    ensures
        spec_teleport(g, Seq::<TopicEntry>::empty(), min_weight) == spec_uniform(g.n()),
{
    assert forall|i: int|
        0 <= i < g.n() implies spec_node_weight(
        Seq::<TopicEntry>::empty(),
        g.keys_view()[i].lemma,
        min_weight,
    ) as int == min_weight as int by {}
    lemma_equal_topic_run_is_uniform_run(
        g,
        Seq::<TopicEntry>::empty(),
        min_weight,
        min_weight as int,
        0,
        0,
        0,
    );
}

} // verus!
