//! Mutable accumulator for the weighted co-occurrence graph.
//!
//! A [`GraphBuilder`] owns the node keys in first-seen order and a symmetric
//! adjacency store: each undirected edge is recorded in the rows of both of
//! its endpoints with the same weight. It is write-only during construction;
//! ranking operates on the compiled form only.
//!
//! The functional model: [`spec_node_keys`] gives the node keys that survive
//! the POS/stopword filters in first-seen order, and [`spec_cooc`] counts the
//! co-occurrence pairs of two keys within the window, honoring the
//! sentence-boundary policy. [`GraphBuilder::from_tokens`] ensures that the
//! builder agrees exactly with this model.

use vstd::prelude::*;
use vstd::arithmetic::mul::lemma_mul_inequality;
use crate::types::{KeyView, NodeKey, PosTag, Token, MAX_COOC_PAIRS};

verus! {

/// One adjacency entry: a neighbor index and the accumulated edge weight.
#[derive(Clone, Copy, Debug, PartialEq, Eq, Structural)]
pub struct AdjEntry {
    /// Index of the neighboring node.
    pub node: usize,
    /// Accumulated co-occurrence weight of the edge.
    pub weight: u64,
}

/// Ghost bundle of the graph-construction configuration.
pub ghost struct BuildCfg {
    /// POS allow-list (empty means no filtering).
    pub pos_filter: Seq<PosTag>,
    /// Whether node identity includes the POS tag.
    pub pos_sensitive: bool,
    /// Whether windows may span sentence boundaries.
    pub ignore_sb: bool,
    /// Window size.
    pub window: int,
    /// Whether repeated co-occurrence accumulates weight.
    pub weighted: bool,
}

/// A token survives the filters: not a stopword, and its POS tag is allowed.
pub open spec fn spec_included(t: Token, pos_filter: Seq<PosTag>) -> bool {
    !t.is_stopword && (pos_filter.len() == 0 || pos_filter.contains(t.pos))
}

/// The node key of a token.
pub open spec fn spec_token_key(t: Token, pos_sensitive: bool) -> KeyView {
    KeyView {
        lemma: t.lemma@,
        pos: if pos_sensitive {
            Some(t.pos)
        } else {
            None
        },
    }
}

/// Node keys of the first `n` tokens that survive the filters, in first-seen
/// order, without duplicates.
pub open spec fn spec_node_keys_upto(
    tokens: Seq<Token>,
    pos_filter: Seq<PosTag>,
    pos_sensitive: bool,
    n: int,
) -> Seq<KeyView>
    decreases n,
{
    if n <= 0 {
        Seq::empty()
    } else {
        let prev = spec_node_keys_upto(tokens, pos_filter, pos_sensitive, n - 1);
        let k = spec_token_key(tokens[n - 1], pos_sensitive);
        if spec_included(tokens[n - 1], pos_filter) && !prev.contains(k) {
            prev.push(k)
        } else {
            prev
        }
    }
}

/// Node keys of the whole document, in first-seen order.
pub open spec fn spec_node_keys(
    tokens: Seq<Token>,
    pos_filter: Seq<PosTag>,
    pos_sensitive: bool,
) -> Seq<KeyView> {
    spec_node_keys_upto(tokens, pos_filter, pos_sensitive, tokens.len() as int)
}

/// Positions `i < j` form a countable co-occurrence pair: within the window,
/// both tokens survive the filters, the window does not illegally span a
/// sentence boundary, and the two keys differ (no self-loops).
pub open spec fn spec_pair_ok(tokens: Seq<Token>, cfg: BuildCfg, i: int, j: int) -> bool {
    &&& 0 <= i < j < tokens.len()
    &&& j - i <= cfg.window
    &&& spec_included(tokens[i], cfg.pos_filter)
    &&& spec_included(tokens[j], cfg.pos_filter)
    &&& (cfg.ignore_sb || tokens[i].sentence_idx == tokens[j].sentence_idx)
    &&& spec_token_key(tokens[i], cfg.pos_sensitive) != spec_token_key(
        tokens[j],
        cfg.pos_sensitive,
    )
}

/// The pair at `(i, j)` counts towards the unordered key pair `{ka, kb}`.
pub open spec fn spec_pair_matches(
    tokens: Seq<Token>,
    cfg: BuildCfg,
    ka: KeyView,
    kb: KeyView,
    i: int,
    j: int,
) -> bool {
    &&& spec_pair_ok(tokens, cfg, i, j)
    &&& ((spec_token_key(tokens[i], cfg.pos_sensitive) == ka && spec_token_key(
        tokens[j],
        cfg.pos_sensitive,
    ) == kb) || (spec_token_key(tokens[i], cfg.pos_sensitive) == kb && spec_token_key(
        tokens[j],
        cfg.pos_sensitive,
    ) == ka))
}

/// Number of countable pairs `(i, j')` for `{ka, kb}` with `i < j' < jend`.
pub open spec fn spec_row_cooc(
    tokens: Seq<Token>,
    cfg: BuildCfg,
    ka: KeyView,
    kb: KeyView,
    i: int,
    jend: int,
) -> int
    decreases jend - i,
{
    if jend <= i + 1 {
        0
    } else {
        spec_row_cooc(tokens, cfg, ka, kb, i, jend - 1) + if spec_pair_matches(
            tokens,
            cfg,
            ka,
            kb,
            i,
            jend - 1,
        ) {
            1int
        } else {
            0int
        }
    }
}

/// One past the last position the window starting at `i` can reach.
pub open spec fn spec_row_end(tokens_len: int, window: int, i: int) -> int {
    if i + window + 1 <= tokens_len {
        i + window + 1
    } else {
        tokens_len
    }
}

/// Number of countable pairs `(i, j)` for `{ka, kb}` with `i < n`.
pub open spec fn spec_cooc_upto(
    tokens: Seq<Token>,
    cfg: BuildCfg,
    ka: KeyView,
    kb: KeyView,
    n: int,
) -> int
    decreases n,
{
    if n <= 0 {
        0
    } else {
        spec_cooc_upto(tokens, cfg, ka, kb, n - 1) + spec_row_cooc(
            tokens,
            cfg,
            ka,
            kb,
            n - 1,
            spec_row_end(tokens.len() as int, cfg.window, n - 1),
        )
    }
}

/// Total co-occurrence count of the unordered key pair `{ka, kb}` over the
/// whole document.
pub open spec fn spec_cooc(tokens: Seq<Token>, cfg: BuildCfg, ka: KeyView, kb: KeyView) -> int {
    spec_cooc_upto(tokens, cfg, ka, kb, tokens.len() as int)
}

/// A co-occurrence count as an edge weight: kept as is when weighted,
/// else saturated at 1.
pub open spec fn spec_clamp(c: int, weighted: bool) -> int {
    if weighted {
        c
    } else if c > 0 {
        1
    } else {
        0
    }
}

/// The edge weight demanded by the model: the full count when weighted,
/// else saturated at 1.
pub open spec fn spec_edge_weight_model(
    tokens: Seq<Token>,
    cfg: BuildCfg,
    ka: KeyView,
    kb: KeyView,
) -> int {
    spec_clamp(spec_cooc(tokens, cfg, ka, kb), cfg.weighted)
}

/// Weight recorded for neighbor `v` in an adjacency row (0 when absent).
pub open spec fn spec_row_weight(row: Seq<AdjEntry>, v: int) -> int
    decreases row.len(),
{
    if row.len() == 0 {
        0
    } else if row.last().node == v {
        row.last().weight as int
    } else {
        spec_row_weight(row.drop_last(), v)
    }
}

/// Sum of the weights of an adjacency row.
pub open spec fn spec_row_sum(row: Seq<AdjEntry>) -> int
    decreases row.len(),
{
    if row.len() == 0 {
        0
    } else {
        spec_row_sum(row.drop_last()) + row.last().weight
    }
}

/// The neighbor indices of a row are pairwise distinct.
pub open spec fn spec_row_distinct(row: Seq<AdjEntry>) -> bool {
    forall|k1: int, k2: int|
        0 <= k1 < k2 < row.len() ==> (#[trigger] row[k1]).node != (#[trigger] row[k2]).node
}

/// The node keys of a sequence of key values.
pub open spec fn keys_seq(keys: Seq<NodeKey>) -> Seq<KeyView> {
    keys.map_values(|k: NodeKey| k@)
}

pub proof fn lemma_row_weight_nonneg(row: Seq<AdjEntry>, v: int)
    ensures
        spec_row_weight(row, v) >= 0,
    decreases row.len(),
{
    if row.len() > 0 && row.last().node != v {
        lemma_row_weight_nonneg(row.drop_last(), v);
    }
}

pub proof fn lemma_row_sum_nonneg(row: Seq<AdjEntry>)
    ensures
        spec_row_sum(row) >= 0,
    decreases row.len(),
{
    if row.len() > 0 {
        lemma_row_sum_nonneg(row.drop_last());
    }
}

/// A neighbor absent from the row carries weight 0.
pub proof fn lemma_row_weight_absent(row: Seq<AdjEntry>, v: int)
    requires
        forall|k: int| 0 <= k < row.len() ==> (#[trigger] row[k]).node != v,
    ensures
        spec_row_weight(row, v) == 0,
    decreases row.len(),
{
    if row.len() > 0 {
        assert(row.last() == row[row.len() - 1]);
        lemma_row_weight_absent(row.drop_last(), v);
    }
}

/// The row weight of a present neighbor is the weight of its entry.
pub proof fn lemma_row_weight_at(row: Seq<AdjEntry>, k: int)
    requires
        spec_row_distinct(row),
        0 <= k < row.len(),
    ensures
        spec_row_weight(row, row[k].node as int) == row[k].weight as int,
    decreases row.len(),
{
    if k == row.len() - 1 {
        assert(row.last() == row[k]);
    } else {
        assert(row.last() == row[row.len() - 1]);
        assert(row[row.len() - 1].node != row[k].node);
        assert(row.drop_last()[k] == row[k]);
        assert(spec_row_distinct(row.drop_last()));
        lemma_row_weight_at(row.drop_last(), k);
    }
}

/// Updating an entry in place changes only that neighbor's weight.
pub proof fn lemma_row_weight_update(row: Seq<AdjEntry>, k: int, e: AdjEntry, v: int)
    requires
        spec_row_distinct(row),
        0 <= k < row.len(),
        row[k].node == e.node,
    ensures
        spec_row_weight(row.update(k, e), v) == if v == e.node as int {
            e.weight as int
        } else {
            spec_row_weight(row, v)
        },
    decreases row.len(),
{
    let row2 = row.update(k, e);
    if k == row.len() - 1 {
        assert(row2.last() == e);
        assert(row2.drop_last() =~= row.drop_last());
        if v != e.node {
            assert(row.last().node == e.node);
        }
    } else {
        assert(row2.last() == row.last());
        assert(row2.drop_last() =~= row.drop_last().update(k, e));
        assert(spec_row_distinct(row.drop_last()));
        assert(row.drop_last()[k] == row[k]);
        lemma_row_weight_update(row.drop_last(), k, e, v);
        if v == e.node as int {
            assert(row.last().node != row[k].node);
        }
    }
}

pub proof fn lemma_row_sum_update(row: Seq<AdjEntry>, k: int, e: AdjEntry)
    requires
        0 <= k < row.len(),
    ensures
        spec_row_sum(row.update(k, e)) == spec_row_sum(row) - row[k].weight + e.weight,
    decreases row.len(),
{
    let row2 = row.update(k, e);
    if k == row.len() - 1 {
        assert(row2.last() == e);
        assert(row2.drop_last() =~= row.drop_last());
    } else {
        assert(row2.last() == row.last());
        assert(row2.drop_last() =~= row.drop_last().update(k, e));
        lemma_row_sum_update(row.drop_last(), k, e);
    }
}

pub proof fn lemma_row_weight_push(row: Seq<AdjEntry>, e: AdjEntry, v: int)
    ensures
        spec_row_weight(row.push(e), v) == if e.node == v {
            e.weight as int
        } else {
            spec_row_weight(row, v)
        },
        spec_row_sum(row.push(e)) == spec_row_sum(row) + e.weight,
{
    assert(row.push(e).drop_last() =~= row);
    assert(row.push(e).last() == e);
}

/// A single weight never exceeds the row sum.
pub proof fn lemma_row_weight_le_sum(row: Seq<AdjEntry>, v: int)
    ensures
        spec_row_weight(row, v) <= spec_row_sum(row),
    decreases row.len(),
{
    if row.len() > 0 {
        if row.last().node == v {
            lemma_row_sum_nonneg(row.drop_last());
            lemma_row_weight_nonneg(row.drop_last(), v);
        } else {
            lemma_row_weight_le_sum(row.drop_last(), v);
        }
    }
}

pub proof fn lemma_row_cooc_nonneg(
    tokens: Seq<Token>,
    cfg: BuildCfg,
    ka: KeyView,
    kb: KeyView,
    i: int,
    jend: int,
)
    ensures
        spec_row_cooc(tokens, cfg, ka, kb, i, jend) >= 0,
    decreases jend - i,
{
    if jend > i + 1 {
        lemma_row_cooc_nonneg(tokens, cfg, ka, kb, i, jend - 1);
    }
}

pub proof fn lemma_cooc_upto_nonneg(
    tokens: Seq<Token>,
    cfg: BuildCfg,
    ka: KeyView,
    kb: KeyView,
    n: int,
)
    ensures
        spec_cooc_upto(tokens, cfg, ka, kb, n) >= 0,
    decreases n,
{
    if n > 0 {
        lemma_cooc_upto_nonneg(tokens, cfg, ka, kb, n - 1);
        lemma_row_cooc_nonneg(
            tokens,
            cfg,
            ka,
            kb,
            n - 1,
            spec_row_end(tokens.len() as int, cfg.window, n - 1),
        );
    }
}

/// A row whose head token is filtered out, or out of range, counts nothing.
pub proof fn lemma_row_cooc_zero(
    tokens: Seq<Token>,
    cfg: BuildCfg,
    ka: KeyView,
    kb: KeyView,
    i: int,
    jend: int,
)
    requires
        !(0 <= i < tokens.len()) || !spec_included(tokens[i], cfg.pos_filter),
    ensures
        spec_row_cooc(tokens, cfg, ka, kb, i, jend) == 0,
    decreases jend - i,
{
    if jend > i + 1 {
        lemma_row_cooc_zero(tokens, cfg, ka, kb, i, jend - 1);
    }
}

/// The first-seen key sequence has no duplicates.
pub proof fn lemma_node_keys_distinct(
    tokens: Seq<Token>,
    pos_filter: Seq<PosTag>,
    pos_sensitive: bool,
    n: int,
)
    ensures
        forall|i: int, j: int|
            0 <= i < j < spec_node_keys_upto(tokens, pos_filter, pos_sensitive, n).len()
                ==> spec_node_keys_upto(tokens, pos_filter, pos_sensitive, n)[i]
                != spec_node_keys_upto(tokens, pos_filter, pos_sensitive, n)[j],
    decreases n,
{
    if n > 0 {
        lemma_node_keys_distinct(tokens, pos_filter, pos_sensitive, n - 1);
        let prev = spec_node_keys_upto(tokens, pos_filter, pos_sensitive, n - 1);
        let cur = spec_node_keys_upto(tokens, pos_filter, pos_sensitive, n);
        if cur.len() == prev.len() + 1 {
            assert forall|i: int, j: int| 0 <= i < j < cur.len() implies cur[i] != cur[j] by {
                if j == cur.len() - 1 {
                    assert(!prev.contains(cur[j]));
                    assert(cur[i] == prev[i]);
                }
            }
        }
    }
}

/// Growing the prefix only appends keys.
pub proof fn lemma_node_keys_monotone(
    tokens: Seq<Token>,
    pos_filter: Seq<PosTag>,
    pos_sensitive: bool,
    n1: int,
    n2: int,
)
    requires
        n1 <= n2,
    ensures
        spec_node_keys_upto(tokens, pos_filter, pos_sensitive, n1).is_prefix_of(
            spec_node_keys_upto(tokens, pos_filter, pos_sensitive, n2),
        ),
    decreases n2 - n1,
{
    if n1 < n2 {
        lemma_node_keys_monotone(tokens, pos_filter, pos_sensitive, n1, n2 - 1);
    }
}

/// The key of every surviving token appears among the node keys.
pub proof fn lemma_included_key_present(
    tokens: Seq<Token>,
    pos_filter: Seq<PosTag>,
    pos_sensitive: bool,
    i: int,
    n: int,
)
    requires
        0 <= i < n <= tokens.len(),
        spec_included(tokens[i], pos_filter),
    ensures
        spec_node_keys_upto(tokens, pos_filter, pos_sensitive, n).contains(
            spec_token_key(tokens[i], pos_sensitive),
        ),
{
    let k = spec_token_key(tokens[i], pos_sensitive);
    let prev = spec_node_keys_upto(tokens, pos_filter, pos_sensitive, i);
    let at = spec_node_keys_upto(tokens, pos_filter, pos_sensitive, i + 1);
    if prev.contains(k) {
        lemma_node_keys_monotone(tokens, pos_filter, pos_sensitive, i, i + 1);
        let w = choose|w: int| 0 <= w < prev.len() && prev[w] == k;
        assert(at[w] == k);
    } else {
        assert(at.last() == k);
    }
    lemma_node_keys_monotone(tokens, pos_filter, pos_sensitive, i + 1, n);
    let w2 = choose|w2: int| 0 <= w2 < at.len() && at[w2] == k;
    assert(spec_node_keys_upto(tokens, pos_filter, pos_sensitive, n)[w2] == k);
}

/// Mutable accumulator owning the node keys (first-seen order) and the
/// symmetric adjacency rows.
#[derive(Debug)]
pub struct GraphBuilder {
    /// Node keys, indexed by node index, in first-seen order.
    pub keys: Vec<NodeKey>,
    /// Adjacency rows: `adj[u]` holds one entry per neighbor of `u`.
    pub adj: Vec<Vec<AdjEntry>>,
    /// Number of co-occurrence pairs recorded so far; bounds every row sum.
    pub pairs: u64,
}

impl GraphBuilder {
    /// Node keys as mathematical values.
    pub open spec fn keys_view(self) -> Seq<KeyView> {
        keys_seq(self.keys@)
    }

    /// Adjacency row of node `u`.
    pub open spec fn row(self, u: int) -> Seq<AdjEntry> {
        self.adj@[u]@
    }

    /// Accumulated weight of the undirected edge `{u, v}`; 0 for self-pairs
    /// and out-of-range indices.
    pub open spec fn edge_weight(self, u: int, v: int) -> int {
        if 0 <= u < self.adj@.len() && 0 <= v < self.adj@.len() && u != v {
            spec_row_weight(self.row(u), v)
        } else {
            0
        }
    }

    /// Structural invariant of the builder.
    pub open spec fn wf(self) -> bool {
        &&& self.adj@.len() == self.keys@.len()
        &&& (forall|i: int, j: int|
            0 <= i < j < self.keys_view().len() ==> self.keys_view()[i] != self.keys_view()[j])
        &&& (forall|u: int, k: int|
            0 <= u < self.adj@.len() && 0 <= k < self.row(u).len() ==> {
                &&& (#[trigger] self.row(u)[k]).node < self.adj@.len()
                &&& self.row(u)[k].node != u
                &&& self.row(u)[k].weight >= 1
            })
        &&& (forall|u: int| 0 <= u < self.adj@.len() ==> spec_row_distinct(#[trigger] self.row(u)))
        &&& (forall|u: int, v: int|
            0 <= u < self.adj@.len() && 0 <= v < self.adj@.len() ==> #[trigger] spec_row_weight(
                self.row(u),
                v,
            ) == spec_row_weight(self.row(v), u))
        &&& (forall|u: int|
            0 <= u < self.adj@.len() ==> #[trigger] spec_row_sum(self.row(u))
                <= self.pairs as int)
    }

    /// Create an empty builder.
    pub fn new() -> (b: GraphBuilder)
        ensures
            b.wf(),
            b.keys@.len() == 0,
            b.adj@.len() == 0,
            b.pairs == 0,
    {
        GraphBuilder { keys: Vec::new(), adj: Vec::new(), pairs: 0 }
    }

    /// Number of nodes accumulated so far.
    pub fn node_count(&self) -> (n: usize)
        ensures
            n == self.keys@.len(),
    {
        self.keys.len()
    }

    /// Whether the builder holds no nodes; callers must short-circuit
    /// ranking on an empty builder.
    pub fn is_empty(&self) -> (r: bool)
        ensures
            r == (self.keys@.len() == 0),
    {
        self.keys.len() == 0
    }

    /// Insert the key of `t` if it is not yet present; return its node
    /// index.
    fn ensure_node(&mut self, t: &Token, pos_sensitive: bool) -> (i: usize)
        requires
            old(self).wf(),
        ensures
            final(self).wf(),
            final(self).pairs == old(self).pairs,
            (i as int) < final(self).keys@.len(),
            final(self).keys_view()[i as int] == spec_token_key(*t, pos_sensitive),
            final(self).keys_view() == if old(self).keys_view().contains(
                spec_token_key(*t, pos_sensitive),
            ) {
                old(self).keys_view()
            } else {
                old(self).keys_view().push(spec_token_key(*t, pos_sensitive))
            },
            forall|u: int|
                0 <= u < old(self).adj@.len() ==> final(self).row(u) == old(self).row(u),
            forall|u: int|
                old(self).adj@.len() <= u < final(self).adj@.len() ==> final(self).row(u).len()
                    == 0,
            forall|u: int, v: int|
                final(self).edge_weight(u, v) == old(self).edge_weight(u, v),
    {
        let ghost key = spec_token_key(*t, pos_sensitive);
        match find_key(&self.keys, t, pos_sensitive) {
            Some(i) => {
                proof {
                    assert(self.keys_view().contains(key)) by {
                        assert(self.keys_view()[i as int] == key);
                    }
                }
                i
            },
            None => {
                let i = self.keys.len();
                self.keys.push(NodeKey {
                    lemma: clone_string(&t.lemma),
                    pos: if pos_sensitive {
                        Some(t.pos)
                    } else {
                        None
                    },
                });
                self.adj.push(Vec::new());
                proof {
                    assert(self.keys_view() =~= old(self).keys_view().push(key));
                    assert(self.row(old(self).adj@.len() as int).len() == 0);
                    let n0 = old(self).adj@.len() as int;
                    assert forall|u: int, v: int|
                        final(self).edge_weight(u, v) == old(self).edge_weight(u, v) by {
                        if 0 <= u < n0 && 0 <= v < n0 && u != v {
                            assert(self.row(u) == old(self).row(u));
                        } else if 0 <= u <= n0 && 0 <= v <= n0 && u != v {
                            if u == n0 {
                                assert(self.row(u).len() == 0);
                            } else if v == n0 {
                                assert(self.row(u) == old(self).row(u));
                                assert forall|kk: int|
                                    0 <= kk < self.row(u).len() implies (#[trigger] self.row(
                                        u,
                                    )[kk]).node != v by {
                                    assert(old(self).row(u)[kk].node < n0);
                                }
                                lemma_row_weight_absent(self.row(u), v);
                            }
                        }
                    }
                    assert forall|u: int, v: int|
                        0 <= u < self.adj@.len() && 0 <= v < self.adj@.len() implies #[trigger]
                        spec_row_weight(self.row(u), v) == spec_row_weight(self.row(v), u) by {
                        if u < n0 && v < n0 {
                            assert(self.row(u) == old(self).row(u));
                            assert(self.row(v) == old(self).row(v));
                        } else if u == n0 {
                            if v < n0 {
                                assert(self.row(v) == old(self).row(v));
                                assert forall|kk: int|
                                    0 <= kk < self.row(v).len() implies (#[trigger] self.row(
                                        v,
                                    )[kk]).node != u by {
                                    assert(old(self).row(v)[kk].node < n0);
                                }
                                lemma_row_weight_absent(self.row(v), u);
                                assert(self.row(u).len() == 0);
                            }
                        } else if v == n0 {
                            assert(self.row(u) == old(self).row(u));
                            assert forall|kk: int|
                                0 <= kk < self.row(u).len() implies (#[trigger] self.row(
                                    u,
                                )[kk]).node != v by {
                                assert(old(self).row(u)[kk].node < n0);
                            }
                            lemma_row_weight_absent(self.row(u), v);
                            assert(self.row(v).len() == 0);
                        }
                    }
                    assert forall|u: int, k: int|
                        0 <= u < self.adj@.len() && 0 <= k < self.row(u).len() implies {
                        &&& (#[trigger] self.row(u)[k]).node < self.adj@.len()
                        &&& self.row(u)[k].node != u
                        &&& self.row(u)[k].weight >= 1
                    } by {
                        if u < n0 {
                            assert(self.row(u) == old(self).row(u));
                            assert(old(self).row(u)[k].node < n0);
                        }
                    }
                    assert forall|u: int|
                        0 <= u < self.adj@.len() implies spec_row_distinct(
                        #[trigger] self.row(u)) by {
                        if u < n0 {
                            assert(self.row(u) == old(self).row(u));
                        }
                    }
                    assert forall|u: int|
                        0 <= u < self.adj@.len() implies #[trigger] spec_row_sum(self.row(u))
                        <= self.pairs as int by {
                        if u < n0 {
                            assert(self.row(u) == old(self).row(u));
                        }
                    }
                }
                i
            },
        }
    }

    /// Record one co-occurrence of the distinct nodes `a` and `b`: both
    /// directed rows gain (or bump) the entry symmetrically.
    fn add_edge(&mut self, a: usize, b: usize, weighted: bool)
        requires
            old(self).wf(),
            (a as int) < old(self).adj@.len(),
            (b as int) < old(self).adj@.len(),
            a != b,
            old(self).pairs < u64::MAX,
        ensures
            final(self).wf(),
            final(self).keys_view() == old(self).keys_view(),
            final(self).adj@.len() == old(self).adj@.len(),
            final(self).pairs == old(self).pairs + 1,
            final(self).edge_weight(a as int, b as int) == spec_bumped(
                old(self).edge_weight(a as int, b as int),
                weighted,
            ),
            forall|u: int, v: int|
                !((u == a && v == b) || (u == b && v == a)) ==> final(self).edge_weight(u, v)
                    == old(self).edge_weight(u, v),
    {
        let ghost prev = *old(self);
        let ghost ai = a as int;
        let ghost bi = b as int;
        let ghost n = prev.adj@.len() as int;
        proof {
            lemma_row_weight_le_sum(prev.row(ai), bi);
            lemma_row_weight_nonneg(prev.row(ai), bi);
        }
        self.pairs = self.pairs + 1;
        match row_find(&self.adj[a], b) {
            Some(k) => {
                proof {
                    lemma_row_weight_at(prev.row(ai), k as int);
                }
                let w_old = self.adj[a][k].weight;
                if weighted {
                    self.set_weight(a, b, k, w_old + 1);
                    let k2 = self.row_position(b, a);
                    proof {
                        lemma_row_weight_at(prev.row(bi), k2 as int);
                    }
                    self.set_weight(b, a, k2, w_old + 1);
                    proof {
                        self.lemma_after_symmetric_bump(prev, ai, bi, (w_old + 1) as int);
                    }
                } else {
                    proof {
                        self.lemma_after_symmetric_bump(prev, ai, bi, w_old as int);
                    }
                }
            },
            None => {
                proof {
                    lemma_row_weight_absent(prev.row(ai), bi);
                    assert(forall|kk: int|
                        0 <= kk < prev.row(bi).len() ==> (#[trigger] prev.row(bi)[kk]).node
                            != a) by {
                        if exists|kk: int|
                            0 <= kk < prev.row(bi).len() && (#[trigger] prev.row(bi)[kk]).node
                                == a {
                            let kk = choose|kk: int|
                                0 <= kk < prev.row(bi).len() && (#[trigger] prev.row(
                                    bi,
                                )[kk]).node == a;
                            lemma_row_weight_at(prev.row(bi), kk);
                        }
                    }
                }
                self.push_entry(a, b, 1);
                self.push_entry(b, a, 1);
                proof {
                    self.lemma_after_symmetric_bump(prev, ai, bi, 1);
                }
            },
        }
    }

    /// After both directed rows of the pair `{a, b}` were set to the same
    /// weight `w` (with each row sum growing by `delta`), the invariant and
    /// the edge-weight frame conditions hold again.
    proof fn lemma_after_symmetric_bump(&self, prev: GraphBuilder, a: int, b: int, w: int)
        requires
            prev.wf(),
            0 <= a < prev.adj@.len(),
            0 <= b < prev.adj@.len(),
            a != b,
            self.keys@ == prev.keys@,
            self.adj@.len() == prev.adj@.len(),
            self.pairs as int == prev.pairs as int + 1,
            w >= 1,
            forall|x: int| 0 <= x < self.adj@.len() && x != a && x != b ==> self.row(x) == prev.row(x),
            spec_row_distinct(self.row(a)),
            spec_row_distinct(self.row(b)),
            forall|k: int|
                0 <= k < self.row(a).len() ==> {
                    &&& (#[trigger] self.row(a)[k]).node < self.adj@.len()
                    &&& self.row(a)[k].node != a
                    &&& self.row(a)[k].weight >= 1
                },
            forall|k: int|
                0 <= k < self.row(b).len() ==> {
                    &&& (#[trigger] self.row(b)[k]).node < self.adj@.len()
                    &&& self.row(b)[k].node != b
                    &&& self.row(b)[k].weight >= 1
                },
            forall|x: int| #[trigger]
                spec_row_weight(self.row(a), x) == if x == b {
                    w
                } else {
                    spec_row_weight(prev.row(a), x)
                },
            forall|x: int| #[trigger]
                spec_row_weight(self.row(b), x) == if x == a {
                    w
                } else {
                    spec_row_weight(prev.row(b), x)
                },
            spec_row_sum(self.row(a)) <= spec_row_sum(prev.row(a)) + 1,
            spec_row_sum(self.row(b)) <= spec_row_sum(prev.row(b)) + 1,
        ensures
            self.wf(),
            forall|u: int, v: int|
                0 <= u < self.adj@.len() && 0 <= v < self.adj@.len() ==> #[trigger]
                spec_row_weight(self.row(u), v) == spec_row_weight(self.row(v), u),
            self.edge_weight(a, b) == w,
            self.edge_weight(b, a) == w,
            forall|u: int, v: int|
                !((u == a && v == b) || (u == b && v == a)) ==> self.edge_weight(u, v)
                    == prev.edge_weight(u, v),
            forall|u: int, k: int|
                0 <= u < self.adj@.len() && 0 <= k < self.row(u).len() ==> {
                    &&& (#[trigger] self.row(u)[k]).node < self.adj@.len()
                    &&& self.row(u)[k].node != u
                    &&& self.row(u)[k].weight >= 1
                },
            forall|u: int| 0 <= u < self.adj@.len() ==> spec_row_distinct(#[trigger] self.row(u)),
    {
        let n = self.adj@.len() as int;
        assert forall|u: int, k: int|
            0 <= u < n && 0 <= k < self.row(u).len() implies {
            &&& (#[trigger] self.row(u)[k]).node < n
            &&& self.row(u)[k].node != u
            &&& self.row(u)[k].weight >= 1
        } by {
            if u != a && u != b {
                assert(self.row(u) == prev.row(u));
                assert(prev.row(u)[k].node < n);
            }
        }
        assert forall|u: int| 0 <= u < n implies spec_row_distinct(#[trigger] self.row(u)) by {
            if u != a && u != b {
                assert(self.row(u) == prev.row(u));
            }
        }
        assert forall|u: int, v: int|
            0 <= u < n && 0 <= v < n implies #[trigger] spec_row_weight(self.row(u), v)
            == spec_row_weight(self.row(v), u) by {
            if u == a || u == b || v == a || v == b {
            } else {
                assert(self.row(u) == prev.row(u));
                assert(self.row(v) == prev.row(v));
            }
        }
        assert forall|u: int|
            0 <= u < n implies #[trigger] spec_row_sum(self.row(u)) <= self.pairs as int by {
            if u != a && u != b {
                assert(self.row(u) == prev.row(u));
            }
        }
        assert(self.keys_view() == prev.keys_view());
        assert forall|i: int, j: int|
            0 <= i < j < self.keys_view().len() implies self.keys_view()[i]
            != self.keys_view()[j] by {
            assert(prev.keys_view()[i] != prev.keys_view()[j]);
        }
        assert forall|u: int, v: int|
            !((u == a && v == b) || (u == b && v == a)) implies self.edge_weight(u, v)
            == prev.edge_weight(u, v) by {
            if 0 <= u < n && 0 <= v < n && u != v {
                if u == a || u == b {
                } else {
                    assert(self.row(u) == prev.row(u));
                }
            }
        }
    }
}

/// Bundle the graph-construction parameters for the specification.
pub open spec fn spec_build_cfg(
    pos_filter: Seq<PosTag>,
    pos_sensitive: bool,
    ignore_sb: bool,
    window: int,
    weighted: bool,
) -> BuildCfg {
    BuildCfg { pos_filter, pos_sensitive, ignore_sb, window, weighted }
}

impl GraphBuilder {
    /// Accumulate the co-occurrence graph of a token sequence.
    ///
    /// Node keys are assigned dense indices in first-seen order; for each
    /// position `i`, every position `j` with `1 <= j - i <= window_size`
    /// contributes an edge, subject to the sentence-boundary policy and the
    /// POS/stopword filters. Self-pairs never produce an edge. The result
    /// agrees exactly with [`spec_node_keys`] and [`spec_edge_weight_model`].
    pub fn from_tokens(
        tokens: &Vec<Token>,
        window_size: usize,
        weighted: bool,
        pos_filter: &Vec<PosTag>,
        pos_sensitive: bool,
        ignore_sentence_boundaries: bool,
    ) -> (b: GraphBuilder)
        requires
            window_size >= 1,
            (tokens@.len() as int) * (window_size as int) <= MAX_COOC_PAIRS as int,
        ensures
            b.wf(),
            b.keys_view() == spec_node_keys(tokens@, pos_filter@, pos_sensitive),
            forall|x: int, y: int|
                0 <= x < b.keys_view().len() && 0 <= y < b.keys_view().len() && x != y
                    ==> #[trigger] b.edge_weight(x, y) == spec_edge_weight_model(
                    tokens@,
                    spec_build_cfg(
                        pos_filter@,
                        pos_sensitive,
                        ignore_sentence_boundaries,
                        window_size as int,
                        weighted,
                    ),
                    b.keys_view()[x],
                    b.keys_view()[y],
                ),
    {
        let ghost cfg = spec_build_cfg(
            pos_filter@,
            pos_sensitive,
            ignore_sentence_boundaries,
            window_size as int,
            weighted,
        );
        let ghost toks = tokens@;
        let ghost len = tokens@.len() as int;
        let mut g = GraphBuilder::new();
        let mut i: usize = 0;
        while i < tokens.len()
            invariant
                g.wf(),
                g.pairs == 0,
                i <= toks.len(),
                toks == tokens@,
                g.keys_view() == spec_node_keys_upto(toks, pos_filter@, pos_sensitive, i as int),
                forall|u: int| 0 <= u < g.adj@.len() ==> (#[trigger] g.row(u)).len() == 0,
            decreases toks.len() - i,
        {
            let t = &tokens[i];
            if token_included(t, pos_filter) {
                g.ensure_node(t, pos_sensitive);
            }
            i = i + 1;
        }
        let ghost keysv = g.keys_view();
        proof {
            assert(keysv == spec_node_keys(toks, pos_filter@, pos_sensitive));
            assert forall|x: int, y: int|
                0 <= x < keysv.len() && 0 <= y < keysv.len() && x != y implies #[trigger]
                g.edge_weight(x, y) == spec_clamp(
                spec_cooc_upto(toks, cfg, keysv[x], keysv[y], 0),
                weighted,
            ) by {
                assert(g.row(x).len() == 0);
            }
        }
        let mut i: usize = 0;
        while i < tokens.len()
            invariant
                g.wf(),
                i <= toks.len(),
                toks == tokens@,
                len == toks.len() as int,
                window_size >= 1,
                len * (window_size as int) <= MAX_COOC_PAIRS as int,
                cfg == spec_build_cfg(
                    pos_filter@,
                    pos_sensitive,
                    ignore_sentence_boundaries,
                    window_size as int,
                    weighted,
                ),
                g.keys_view() == keysv,
                keysv == spec_node_keys(toks, pos_filter@, pos_sensitive),
                g.pairs as int <= (i as int) * (window_size as int),
                forall|x: int, y: int|
                    0 <= x < keysv.len() && 0 <= y < keysv.len() && x != y ==> #[trigger]
                    g.edge_weight(x, y) == spec_clamp(
                        spec_cooc_upto(toks, cfg, keysv[x], keysv[y], i as int),
                        weighted,
                    ),
            decreases toks.len() - i,
        {
            let ghost ii = i as int;
            let t = &tokens[i];
            if token_included(t, pos_filter) {
                let a = match find_key(&g.keys, t, pos_sensitive) {
                    Some(x) => x,
                    None => {
                        proof {
                            lemma_included_key_present(
                                toks,
                                pos_filter@,
                                pos_sensitive,
                                ii,
                                toks.len() as int,
                            );
                        }
                        0
                    },
                };
                let mut j: usize = i + 1;
                proof {
                    lemma_mul_inequality(ii + 1, len, window_size as int);
                }
                while j < tokens.len() && j - i <= window_size
                    invariant
                        g.wf(),
                        toks == tokens@,
                        len == toks.len() as int,
                        window_size >= 1,
                        len * (window_size as int) <= MAX_COOC_PAIRS as int,
                        cfg == spec_build_cfg(
                            pos_filter@,
                            pos_sensitive,
                            ignore_sentence_boundaries,
                            window_size as int,
                            weighted,
                        ),
                        g.keys_view() == keysv,
                        keysv == spec_node_keys(toks, pos_filter@, pos_sensitive),
                        ii == i as int,
                        0 <= ii < len,
                        ii + 1 <= j as int <= len,
                        (j as int) - ii <= window_size as int + 1,
                        spec_included(toks[ii], pos_filter@),
                        (a as int) < keysv.len(),
                        keysv[a as int] == spec_token_key(toks[ii], pos_sensitive),
                        g.pairs as int <= ii * (window_size as int) + (j as int) - ii - 1,
                        forall|x: int, y: int|
                            0 <= x < keysv.len() && 0 <= y < keysv.len() && x != y ==> #[trigger]
                            g.edge_weight(x, y) == spec_clamp(
                                spec_cooc_upto(toks, cfg, keysv[x], keysv[y], ii)
                                    + spec_row_cooc(toks, cfg, keysv[x], keysv[y], ii, j as int),
                                weighted,
                            ),
                    decreases toks.len() - j,
                {
                    let ghost jj = j as int;
                    let ghost gpre = g;
                    let tj = &tokens[j];
                    if token_included(tj, pos_filter) && (ignore_sentence_boundaries
                        || tj.sentence_idx == tokens[i].sentence_idx) {
                        let bb = match find_key(&g.keys, tj, pos_sensitive) {
                            Some(x) => x,
                            None => {
                                proof {
                                    lemma_included_key_present(
                                        toks,
                                        pos_filter@,
                                        pos_sensitive,
                                        jj,
                                        toks.len() as int,
                                    );
                                }
                                0
                            },
                        };
                        if a != bb {
                            proof {
                                lemma_mul_inequality(ii + 1, len, window_size as int);
                                assert((ii + 1) * (window_size as int) == ii * (
                                window_size as int) + (window_size as int))
                                    by (nonlinear_arith);
                            }
                            g.add_edge(a, bb, weighted);
                            proof {
                                assert(spec_pair_ok(toks, cfg, ii, jj));
                                assert forall|x: int, y: int|
                                    0 <= x < keysv.len() && 0 <= y < keysv.len() && x != y
                                        implies #[trigger] g.edge_weight(x, y) == spec_clamp(
                                    spec_cooc_upto(toks, cfg, keysv[x], keysv[y], ii)
                                        + spec_row_cooc(toks, cfg, keysv[x], keysv[y], ii, jj + 1),
                                    weighted,
                                ) by {
                                    let c0 = spec_cooc_upto(toks, cfg, keysv[x], keysv[y], ii)
                                        + spec_row_cooc(toks, cfg, keysv[x], keysv[y], ii, jj);
                                    lemma_cooc_upto_nonneg(toks, cfg, keysv[x], keysv[y], ii);
                                    lemma_row_cooc_nonneg(toks, cfg, keysv[x], keysv[y], ii, jj);
                                    if (x == a as int && y == bb as int) || (x == bb as int && y
                                        == a as int) {
                                        assert(spec_pair_matches(
                                            toks,
                                            cfg,
                                            keysv[x],
                                            keysv[y],
                                            ii,
                                            jj,
                                        ));
                                        assert(g.edge_weight(x, y) == spec_bumped(
                                            gpre.edge_weight(x, y),
                                            weighted,
                                        ));
                                    } else {
                                        assert(!((x == a as int && y == bb as int) || (x
                                            == bb as int && y == a as int)));
                                        assert(g.edge_weight(x, y) == gpre.edge_weight(x, y));
                                        if spec_pair_matches(toks, cfg, keysv[x], keysv[y], ii, jj) {
                                            assert(keysv[x] == keysv[a as int] || keysv[x]
                                                == keysv[bb as int]);
                                            assert(false);
                                        }
                                    }
                                }
                            }
                        } else {
                            proof {
                                assert(keysv[a as int] == spec_token_key(toks[jj], pos_sensitive));
                                assert(!spec_pair_ok(toks, cfg, ii, jj));
                            }
                        }
                    } else {
                        proof {
                            assert(!spec_pair_ok(toks, cfg, ii, jj));
                        }
                    }
                    j = j + 1;
                }
                proof {
                    assert(j as int == spec_row_end(len, cfg.window, ii));
                    lemma_mul_inequality(ii + 1, len, window_size as int);
                    assert((ii + 1) * (window_size as int) == ii * (window_size as int) + (
                    window_size as int)) by (nonlinear_arith);
                }
            } else {
                proof {
                    assert forall|x: int, y: int|
                        0 <= x < keysv.len() && 0 <= y < keysv.len() && x != y implies #[trigger]
                        g.edge_weight(x, y) == spec_clamp(
                        spec_cooc_upto(toks, cfg, keysv[x], keysv[y], ii + 1),
                        weighted,
                    ) by {
                        lemma_row_cooc_zero(
                            toks,
                            cfg,
                            keysv[x],
                            keysv[y],
                            ii,
                            spec_row_end(len, cfg.window, ii),
                        );
                    }
                    lemma_mul_inequality(ii + 1, len, window_size as int);
                    assert((ii + 1) * (window_size as int) == ii * (window_size as int) + (
                    window_size as int)) by (nonlinear_arith);
                }
            }
            i = i + 1;
        }
        g
    }
}

/// The new weight of an edge after one recorded co-occurrence.
pub open spec fn spec_bumped(w: int, weighted: bool) -> int {
    if weighted {
        w + 1
    } else if w == 0 {
        1
    } else {
        w
    }
}

/// Edge weights are symmetric: `weight(u, v) == weight(v, u)` for every
/// pair of indices.
pub proof fn lemma_edge_weights_symmetric(b: GraphBuilder, u: int, v: int)
    requires
        b.wf(),
    ensures
        b.edge_weight(u, v) == b.edge_weight(v, u),
{
}

/// A node never carries an edge to itself.
pub proof fn lemma_no_self_loops(b: GraphBuilder, u: int)
    ensures
        b.edge_weight(u, u) == 0,
{
}

/// The node count equals the number of distinct surviving node keys: the
/// key sequence of a well-formed builder never repeats a key.
pub proof fn lemma_node_count_is_distinct_keys(b: GraphBuilder)
    requires
        b.wf(),
    ensures
        forall|i: int, j: int|
            0 <= i < j < b.keys_view().len() ==> b.keys_view()[i] != b.keys_view()[j],
{
}

/// Clone a string, preserving its characters.
fn clone_string(s: &String) -> (r: String)
    ensures
        r@ == s@,
{
    s.clone()
}

/// Whether the token survives the filters.
fn token_included(t: &Token, pos_filter: &Vec<PosTag>) -> (r: bool)
    ensures
        r == spec_included(*t, pos_filter@),
{
    if t.is_stopword {
        return false;
    }
    if pos_filter.len() == 0 {
        return true;
    }
    let mut h: usize = 0;
    while h < pos_filter.len()
        invariant
            !t.is_stopword,
            h <= pos_filter@.len(),
            forall|g: int| 0 <= g < h ==> pos_filter@[g] != t.pos,
        decreases pos_filter@.len() - h,
    {
        if pos_filter[h] == t.pos {
            proof {
                assert(pos_filter@[h as int] == t.pos);
            }
            return true;
        }
        h = h + 1;
    }
    false
}

/// Whether the key of `t` equals `k`.
fn key_matches(k: &NodeKey, t: &Token, pos_sensitive: bool) -> (r: bool)
    ensures
        r == (k@ == spec_token_key(*t, pos_sensitive)),
{
    let lemma_eq = k.lemma == t.lemma;
    let pos_eq = if pos_sensitive {
        match k.pos {
            Some(p) => p == t.pos,
            None => false,
        }
    } else {
        match k.pos {
            Some(_) => false,
            None => true,
        }
    };
    lemma_eq && pos_eq
}

/// Index of the key of `t` among `keys`, if present.
fn find_key(keys: &Vec<NodeKey>, t: &Token, pos_sensitive: bool) -> (r: Option<usize>)
    ensures
        match r {
            Some(i) => (i as int) < keys@.len() && keys_seq(keys@)[i as int] == spec_token_key(
                *t,
                pos_sensitive,
            ),
            None => !keys_seq(keys@).contains(spec_token_key(*t, pos_sensitive)),
        },
{
    let mut h: usize = 0;
    while h < keys.len()
        invariant
            h <= keys@.len(),
            forall|g: int| 0 <= g < h ==> keys_seq(keys@)[g] != spec_token_key(*t, pos_sensitive),
        decreases keys@.len() - h,
    {
        if key_matches(&keys[h], t, pos_sensitive) {
            return Some(h);
        }
        h = h + 1;
    }
    None
}

/// Position of neighbor `target` in an adjacency row, if present.
fn row_find(row: &Vec<AdjEntry>, target: usize) -> (r: Option<usize>)
    ensures
        match r {
            Some(k) => (k as int) < row@.len() && row@[k as int].node == target,
            None => forall|k: int| 0 <= k < row@.len() ==> (#[trigger] row@[k]).node != target,
        },
{
    let mut h: usize = 0;
    while h < row.len()
        invariant
            h <= row@.len(),
            forall|g: int| 0 <= g < h ==> (#[trigger] row@[g]).node != target,
        decreases row@.len() - h,
    {
        if row[h].node == target {
            return Some(h);
        }
        h = h + 1;
    }
    None
}

impl GraphBuilder {
    /// Position of neighbor `v` in the row of `u`, which must be present.
    fn row_position(&self, u: usize, v: usize) -> (k: usize)
        requires
            (u as int) < self.adj@.len(),
            spec_row_distinct(self.row(u as int)),
            spec_row_weight(self.row(u as int), v as int) > 0,
        ensures
            (k as int) < self.row(u as int).len(),
            self.row(u as int)[k as int].node == v,
    {
        match row_find(&self.adj[u], v) {
            Some(k) => k,
            None => {
                proof {
                    lemma_row_weight_absent(self.row(u as int), v as int);
                }
                0
            },
        }
    }

    /// Overwrite the weight of entry `k` (for neighbor `v`) in the row of
    /// `u`.
    fn set_weight(&mut self, u: usize, v: usize, k: usize, w: u64)
        requires
            (u as int) < old(self).adj@.len(),
            (k as int) < old(self).row(u as int).len(),
            old(self).row(u as int)[k as int].node == v,
            spec_row_distinct(old(self).row(u as int)),
            w >= 1,
        ensures
            final(self).keys@ == old(self).keys@,
            final(self).pairs == old(self).pairs,
            final(self).adj@.len() == old(self).adj@.len(),
            forall|x: int|
                0 <= x < final(self).adj@.len() && x != u ==> final(self).row(x) == old(
                    self,
                ).row(x),
            final(self).row(u as int) == old(self).row(u as int).update(
                k as int,
                AdjEntry { node: v, weight: w },
            ),
            spec_row_distinct(final(self).row(u as int)),
            forall|x: int| #[trigger]
                spec_row_weight(final(self).row(u as int), x) == if x == v as int {
                    w as int
                } else {
                    spec_row_weight(old(self).row(u as int), x)
                },
            spec_row_sum(final(self).row(u as int)) == spec_row_sum(old(self).row(u as int)) - old(
                self,
            ).row(u as int)[k as int].weight + w,
    {
        let e = AdjEntry { node: v, weight: w };
        self.adj[u][k] = e;
        proof {
            let oldrow = old(self).row(u as int);
            let newrow = self.row(u as int);
            assert(newrow =~= oldrow.update(k as int, e));
            assert forall|x: int| #[trigger]
                spec_row_weight(newrow, x) == if x == v as int {
                    w as int
                } else {
                    spec_row_weight(oldrow, x)
                } by {
                lemma_row_weight_update(oldrow, k as int, e, x);
            }
            lemma_row_sum_update(oldrow, k as int, e);
            assert forall|k1: int, k2: int|
                0 <= k1 < k2 < newrow.len() implies (#[trigger] newrow[k1]).node != (
            #[trigger] newrow[k2]).node by {
                assert(oldrow[k1].node == newrow[k1].node);
                assert(oldrow[k2].node == newrow[k2].node);
            }
        }
    }

    /// Append a fresh entry for neighbor `v` (not yet present) to the row
    /// of `u`.
    fn push_entry(&mut self, u: usize, v: usize, w: u64)
        requires
            (u as int) < old(self).adj@.len(),
            spec_row_distinct(old(self).row(u as int)),
            forall|k: int|
                0 <= k < old(self).row(u as int).len() ==> (#[trigger] old(self).row(
                    u as int,
                )[k]).node != v,
            w >= 1,
        ensures
            final(self).keys@ == old(self).keys@,
            final(self).pairs == old(self).pairs,
            final(self).adj@.len() == old(self).adj@.len(),
            forall|x: int|
                0 <= x < final(self).adj@.len() && x != u ==> final(self).row(x) == old(
                    self,
                ).row(x),
            final(self).row(u as int) == old(self).row(u as int).push(
                AdjEntry { node: v, weight: w },
            ),
            spec_row_distinct(final(self).row(u as int)),
            forall|x: int| #[trigger]
                spec_row_weight(final(self).row(u as int), x) == if x == v as int {
                    w as int
                } else {
                    spec_row_weight(old(self).row(u as int), x)
                },
            spec_row_sum(final(self).row(u as int)) == spec_row_sum(old(self).row(u as int)) + w,
    {
        let e = AdjEntry { node: v, weight: w };
        let row = &mut self.adj[u];
        row.push(e);
        proof {
            let oldrow = old(self).row(u as int);
            let newrow = self.row(u as int);
            assert(newrow =~= oldrow.push(e));
            assert forall|x: int| #[trigger]
                spec_row_weight(newrow, x) == if x == v as int {
                    w as int
                } else {
                    spec_row_weight(oldrow, x)
                } by {
                lemma_row_weight_push(oldrow, e, x);
            }
            lemma_row_weight_push(oldrow, e, v as int);
            assert forall|k1: int, k2: int|
                0 <= k1 < k2 < newrow.len() implies (#[trigger] newrow[k1]).node != (
            #[trigger] newrow[k2]).node by {
                if k2 == newrow.len() - 1 {
                    assert(newrow[k1] == oldrow[k1]);
                } else {
                    assert(newrow[k1] == oldrow[k1]);
                    assert(newrow[k2] == oldrow[k2]);
                }
            }
        }
    }
}

} // verus!
