//! Per-word edge table: outgoing transition counts, a cached total, and the
//! sentence-terminator flag.

use vstd::prelude::*;

verus! {

/// Mathematical model of a [`Node`]: the edge list as a sequence of
/// `(target index, weight)` pairs, the cached total, and the terminator flag.
pub struct NodeModel {
    pub edges: Seq<(usize, usize)>,
    pub total: usize,
    pub is_end: bool,
}

/// Sum of the weights of an edge list.
pub open spec fn sum_weights(edges: Seq<(usize, usize)>) -> int
    decreases edges.len(),
{
    if edges.len() == 0 {
        0
    } else {
        edges[0].1 + sum_weights(edges.drop_first())
    }
}

/// Weight of the first edge whose target is `t`, if any.
pub open spec fn edge_weight(edges: Seq<(usize, usize)>, t: usize) -> Option<usize>
    decreases edges.len(),
{
    if edges.len() == 0 {
        None
    } else if edges[0].0 == t {
        Some(edges[0].1)
    } else {
        edge_weight(edges.drop_first(), t)
    }
}

/// Position of the first edge whose target is `t` (meaningful only when
/// `edge_weight` is `Some`).
pub open spec fn edge_index(edges: Seq<(usize, usize)>, t: usize) -> int
    decreases edges.len(),
{
    if edges.len() == 0 {
        0
    } else if edges[0].0 == t {
        0
    } else {
        1 + edge_index(edges.drop_first(), t)
    }
}

/// The edge owning the sub-interval of `[0, sum_weights(edges))` that contains
/// `target`: intervals are laid out contiguously in edge-list order, each of
/// length equal to its edge's weight.
pub open spec fn pick_edge(edges: Seq<(usize, usize)>, target: int) -> Option<usize>
    decreases edges.len(),
{
    if edges.len() == 0 {
        None
    } else if target < edges[0].1 {
        Some(edges[0].0)
    } else {
        pick_edge(edges.drop_first(), target - edges[0].1)
    }
}

impl NodeModel {
    /// The model of a freshly created node: no edges, zero total, not a
    /// terminator.
    pub open spec fn empty() -> NodeModel {
        NodeModel { edges: Seq::empty(), total: 0, is_end: false }
    }

    /// Well-formedness: targets are distinct, every weight is at least 1, and
    /// the cached total is the sum of the weights.
    pub open spec fn wf(self) -> bool {
        &&& forall|i: int, j: int|
            0 <= i < j < self.edges.len() ==> (#[trigger] self.edges[i]).0 != (
            #[trigger] self.edges[j]).0
        &&& forall|i: int| 0 <= i < self.edges.len() ==> (#[trigger] self.edges[i]).1 >= 1
        &&& self.total == sum_weights(self.edges)
    }

    /// Every edge target lies below `n`.
    pub open spec fn targets_below(self, n: int) -> bool {
        forall|i: int| 0 <= i < self.edges.len() ==> (#[trigger] self.edges[i]).0 < n
    }

    /// The model after adding `weight` to the edge toward `t` (inserting the
    /// edge if it is absent); the total grows by `weight` either way.
    pub open spec fn bumped(self, t: usize, weight: usize) -> NodeModel
        recommends
            self.total + weight <= usize::MAX,
    {
        let edges = if edge_weight(self.edges, t) is Some {
            let k = edge_index(self.edges, t);
            self.edges.update(k, (t, (self.edges[k].1 + weight) as usize))
        } else {
            self.edges.push((t, weight))
        };
        NodeModel { edges, total: (self.total + weight) as usize, is_end: self.is_end }
    }

    /// The same model with the terminator flag raised.
    pub open spec fn with_end(self) -> NodeModel {
        NodeModel { edges: self.edges, total: self.total, is_end: true }
    }
}

/// A first match found by a scan is the first match of the recursive
/// definitions of `edge_weight` and `edge_index`.
proof fn lemma_edge_found(edges: Seq<(usize, usize)>, t: usize, k: int)
    requires
        0 <= k < edges.len(),
        edges[k].0 == t,
        forall|j: int| 0 <= j < k ==> (#[trigger] edges[j]).0 != t,
    ensures
        edge_weight(edges, t) == Some(edges[k].1),
        edge_index(edges, t) == k,
    decreases k,
{
    if k > 0 {
        lemma_edge_found(edges.drop_first(), t, k - 1);
    }
}

/// A scan that found no match means `edge_weight` is `None`.
pub proof fn lemma_edge_absent(edges: Seq<(usize, usize)>, t: usize)
    requires
        forall|j: int| 0 <= j < edges.len() ==> (#[trigger] edges[j]).0 != t,
    ensures
        edge_weight(edges, t) is None,
    decreases edges.len(),
{
    if edges.len() > 0 {
        lemma_edge_absent(edges.drop_first(), t);
    }
}

/// `sum_weights` over a prefix grows by the next weight.
pub proof fn lemma_sum_take_step_pub(edges: Seq<(usize, usize)>, i: int)
    requires
        0 <= i < edges.len(),
    ensures
        sum_weights(edges.take(i + 1)) == sum_weights(edges.take(i)) + edges[i].1,
{
    lemma_sum_take_step(edges, i);
}

/// `sum_weights` over a prefix grows by the next weight.
proof fn lemma_sum_take_step(edges: Seq<(usize, usize)>, i: int)
    requires
        0 <= i < edges.len(),
    ensures
        sum_weights(edges.take(i + 1)) == sum_weights(edges.take(i)) + edges[i].1,
    decreases i,
{
    if i == 0 {
        assert(edges.take(1) =~= seq![edges[0]]);
        assert(edges.take(1).drop_first() =~= Seq::empty());
        assert(edges.take(0) =~= Seq::empty());
    } else {
        lemma_sum_take_step(edges.drop_first(), i - 1);
        assert(edges.take(i + 1).drop_first() =~= edges.drop_first().take(i));
        assert(edges.take(i).drop_first() =~= edges.drop_first().take(i - 1));
    }
}

/// The whole sequence is its own `take`.
proof fn lemma_sum_take_all(edges: Seq<(usize, usize)>)
    ensures
        sum_weights(edges.take(edges.len() as int)) == sum_weights(edges),
{
    assert(edges.take(edges.len() as int) =~= edges);
}

/// `pick_edge` on a suffix, shifted by the weight sum of the prefix, agrees
/// with `pick_edge` on the whole list.
proof fn lemma_pick_skip(edges: Seq<(usize, usize)>, i: int, target: int)
    requires
        0 <= i <= edges.len(),
        sum_weights(edges.take(i)) <= target,
    ensures
        pick_edge(edges, target) == pick_edge(edges.skip(i), target - sum_weights(edges.take(i))),
    decreases i,
{
    if i > 0 {
        lemma_sum_take_step(edges, 0);
        assert(edges.take(0) =~= Seq::empty());
        assert(edges.take(1).drop_first() =~= Seq::empty());
        assert(edges.take(i).drop_first() =~= edges.drop_first().take(i - 1));
        lemma_sum_nonneg(edges.drop_first().take(i - 1));
        lemma_pick_skip(edges.drop_first(), i - 1, target - edges[0].1);
        assert(edges.skip(i) =~= edges.drop_first().skip(i - 1));
    } else {
        assert(edges.skip(0) =~= edges);
        assert(edges.take(0) =~= Seq::empty());
    }
}

/// Weight sums are never negative.
pub proof fn lemma_sum_nonneg(edges: Seq<(usize, usize)>)
    ensures
        sum_weights(edges) >= 0,
    decreases edges.len(),
{
    if edges.len() > 0 {
        lemma_sum_nonneg(edges.drop_first());
    }
}

/// When an edge toward `t` exists, `edge_index` points at it.
pub proof fn lemma_edge_index_of(edges: Seq<(usize, usize)>, t: usize)
    requires
        edge_weight(edges, t) is Some,
    ensures
        0 <= edge_index(edges, t) < edges.len(),
        edges[edge_index(edges, t)].0 == t,
        edges[edge_index(edges, t)].1 == edge_weight(edges, t)->Some_0,
    decreases edges.len(),
{
    if edges.len() > 0 && edges[0].0 != t {
        lemma_edge_index_of(edges.drop_first(), t);
    }
}

/// Entries before the first match do not match.
pub proof fn lemma_edge_index_first(edges: Seq<(usize, usize)>, t: usize)
    requires
        edge_weight(edges, t) is Some,
    ensures
        forall|j: int| 0 <= j < edge_index(edges, t) ==> (#[trigger] edges[j]).0 != t,
    decreases edges.len(),
{
    if edges.len() > 0 && edges[0].0 != t {
        lemma_edge_index_of(edges, t);
        lemma_edge_index_first(edges.drop_first(), t);
        assert(edge_index(edges, t) == 1 + edge_index(edges.drop_first(), t));
        assert forall|j: int| 0 <= j < edge_index(edges, t) implies (#[trigger] edges[j]).0
            != t by {
            if j > 0 {
                assert(0 <= j - 1 < edge_index(edges.drop_first(), t));
                assert(edges.drop_first()[j - 1].0 != t);
                assert(edges.drop_first()[j - 1] == edges[j]);
            } else {
                assert(edges[0].0 != t);
            }
        }
    }
}

/// Appending an edge leaves earlier targets' weights alone and gives the new
/// target its weight.
pub proof fn lemma_edge_weight_push(edges: Seq<(usize, usize)>, x: (usize, usize), s: usize)
    ensures
        edge_weight(edges, s) is Some ==> edge_weight(edges.push(x), s) == edge_weight(edges, s),
        edge_weight(edges, s) is None && x.0 == s ==> edge_weight(edges.push(x), s) == Some(x.1),
        edge_weight(edges, s) is None && x.0 != s ==> edge_weight(edges.push(x), s) is None,
    decreases edges.len(),
{
    if edges.len() == 0 {
        assert(edges.push(x)[0] == x);
        assert(edges.push(x).drop_first() =~= Seq::<(usize, usize)>::empty());
        assert(edge_weight(Seq::<(usize, usize)>::empty(), s) is None);
    } else {
        lemma_edge_weight_push(edges.drop_first(), x, s);
        assert(edges.push(x)[0] == edges[0]);
        assert(edges.push(x).drop_first() =~= edges.drop_first().push(x));
        if edges[0].0 != s && edge_weight(edges, s) is None {
            assert(edge_weight(edges.drop_first(), s) is None);
            assert(edge_weight(edges.push(x), s) == edge_weight(edges.drop_first().push(x), s));
        }
    }
}

/// Updating the weight of `t`'s edge changes `t`'s weight and nothing else.
pub proof fn lemma_edge_weight_update(edges: Seq<(usize, usize)>, t: usize, w2: usize, s: usize)
    requires
        edge_weight(edges, t) is Some,
    ensures
        s == t ==> edge_weight(edges.update(edge_index(edges, t), (t, w2)), t) == Some(w2),
        s != t ==> edge_weight(edges.update(edge_index(edges, t), (t, w2)), s) == edge_weight(
            edges,
            s,
        ),
    decreases edges.len(),
{
    lemma_edge_index_of(edges, t);
    let k = edge_index(edges, t);
    let e2 = edges.update(k, (t, w2));
    if s == t {
        lemma_edge_index_first(edges, t);
        lemma_edge_found(e2, t, k);
    } else {
        if k == 0 {
            assert(e2.drop_first() =~= edges.drop_first());
        } else {
            lemma_edge_weight_update(edges.drop_first(), t, w2, s);
            assert(e2.drop_first() =~= edges.drop_first().update(k - 1, (t, w2)));
            assert(e2[0] == edges[0]);
        }
    }
}

/// How one observed transition changes the edge weights: the bumped target
/// gains exactly one, every other target keeps its weight.
pub proof fn lemma_bumped_weight(n: NodeModel, t: usize, s: usize)
    requires
        n.wf(),
        n.total < usize::MAX,
    ensures
        s == t ==> edge_weight(n.bumped(t, 1).edges, t) == Some(
            ((match edge_weight(n.edges, t) {
                Some(w) => w as int,
                None => 0,
            }) + 1) as usize,
        ),
        s != t ==> edge_weight(n.bumped(t, 1).edges, s) == edge_weight(n.edges, s),
{
    if edge_weight(n.edges, t) is Some {
        lemma_edge_index_of(n.edges, t);
        lemma_weight_le_total_pub(n, edge_index(n.edges, t));
        lemma_edge_weight_update(n.edges, t, (n.edges[edge_index(n.edges, t)].1 + 1) as usize, s);
    } else {
        lemma_edge_weight_push(n.edges, (t, 1), s);
    }
}

/// A matching entry anywhere means `edge_weight` finds one.
pub proof fn lemma_edge_exists(edges: Seq<(usize, usize)>, t: usize, j: int)
    requires
        0 <= j < edges.len(),
        edges[j].0 == t,
    ensures
        edge_weight(edges, t) is Some,
    decreases j,
{
    if edges[0].0 != t {
        lemma_edge_exists(edges.drop_first(), t, j - 1);
    }
}

/// Bumping preserves node well-formedness.
pub proof fn lemma_bumped_wf(n: NodeModel, t: usize, weight: usize)
    requires
        n.wf(),
        weight >= 1,
        n.total + weight <= usize::MAX,
    ensures
        n.bumped(t, weight).wf(),
{
    if edge_weight(n.edges, t) is Some {
        lemma_edge_index_of(n.edges, t);
        lemma_edge_index_first(n.edges, t);
        lemma_bump_update_wf(n, t, weight, edge_index(n.edges, t));
    } else {
        assert forall|j: int| 0 <= j < n.edges.len() implies (#[trigger] n.edges[j]).0 != t by {
            if n.edges[j].0 == t {
                lemma_edge_exists(n.edges, t, j);
            }
        }
        lemma_bump_push_wf(n, t, weight);
    }
}

/// A found weight means a matching entry exists.
pub proof fn lemma_edge_weight_implies_member(edges: Seq<(usize, usize)>, t: usize)
    requires
        edge_weight(edges, t) is Some,
    ensures
        exists|j: int| 0 <= j < edges.len() && (#[trigger] edges[j]).0 == t,
{
    lemma_edge_index_of(edges, t);
    let k = edge_index(edges, t);
    assert(0 <= k < edges.len() && edges[k].0 == t);
}

/// A prefix sum is bounded by the sum of the whole list when all weights are
/// non-negative.
pub proof fn lemma_sum_grows(edges: Seq<(usize, usize)>, i: int)
    requires
        0 <= i <= edges.len(),
    ensures
        sum_weights(edges.take(i)) <= sum_weights(edges),
{
    lemma_sum_concat(edges.take(i), edges.skip(i));
    assert(edges.take(i) + edges.skip(i) =~= edges);
    lemma_sum_nonneg(edges.skip(i));
}

/// In a well-formed model every single weight is bounded by the total.
pub proof fn lemma_weight_le_total_pub(m: NodeModel, k: int)
    requires
        m.wf(),
        0 <= k < m.edges.len(),
    ensures
        m.edges[k].1 <= m.total,
{
    lemma_sum_split(m.edges, k);
}

/// A target inside the partition is always picked, and whatever `pick_edge`
/// returns is the target of an existing edge.
pub proof fn lemma_pick_in_range(edges: Seq<(usize, usize)>, target: int)
    requires
        0 <= target < sum_weights(edges),
    ensures
        pick_edge(edges, target) is Some,
        edge_weight(edges, pick_edge(edges, target)->Some_0) is Some,
    decreases edges.len(),
{
    if edges.len() > 0 && target >= edges[0].1 {
        lemma_pick_in_range(edges.drop_first(), target - edges[0].1);
        let t = pick_edge(edges.drop_first(), target - edges[0].1)->Some_0;
        if edges[0].0 != t {
        }
    }
}

/// One record of the transition graph: outgoing weighted edges, their cached
/// total, and whether the word this node stands for ends a sentence.
#[derive(Debug)]
pub struct Node {
    edges: Vec<(usize, usize)>,
    total_weight: usize,
    pub(crate) is_sentence_end: bool,
}

impl View for Node {
    type V = NodeModel;

    closed spec fn view(&self) -> NodeModel {
        NodeModel { edges: self.edges@, total: self.total_weight, is_end: self.is_sentence_end }
    }
}

impl Node {
    /// Well-formedness of the underlying model.
    pub open spec fn wf(self) -> bool {
        self@.wf()
    }

    /// The cached total transition count out of this node.
    pub fn total_weight(&self) -> (r: usize)
        ensures
            r == self@.total,
    {
        self.total_weight
    }

    /// Whether this node has been observed to end a sentence.
    pub fn terminator_flag(&self) -> (r: bool)
        ensures
            r == self@.is_end,
    {
        self.is_sentence_end
    }

    /// The number of distinct outgoing edges.
    pub fn edge_count(&self) -> (r: usize)
        ensures
            r == self@.edges.len(),
    {
        self.edges.len()
    }

    /// The edge list as plain `(target, weight)` pairs.
    pub fn edge_pairs(&self) -> (r: Vec<(usize, usize)>)
        ensures
            r@ == self@.edges,
    {
        let mut out: Vec<(usize, usize)> = Vec::new();
        let mut i: usize = 0;
        while i < self.edges.len()
            invariant
                i <= self.edges.len(),
                out@ == self@.edges.take(i as int),
            decreases self.edges.len() - i,
        {
            out.push(self.edges[i]);
            proof {
                let k = i as int;
                assert(self@.edges.take(k + 1) =~= self@.edges.take(k).push(self@.edges[k]));
            }
            i = i + 1;
        }
        assert(self@.edges.take(self@.edges.len() as int) =~= self@.edges);
        out
    }

    /// Add `weight` to the edge toward `idx`, inserting it if absent; the
    /// cached total grows by `weight`.
    pub fn add_weight(&mut self, idx: usize, weight: usize)
        requires
            old(self).wf(),
            weight >= 1,
            old(self)@.total + weight <= usize::MAX,
        ensures
            final(self).wf(),
            final(self)@ == old(self)@.bumped(idx, weight),
    {
        let mut i: usize = 0;
        let n = self.edges.len();
        while i < n
            invariant
                old(self).wf(),
                old(self)@.total + weight <= usize::MAX,
                weight >= 1,
                self == old(self),
                n == self.edges.len(),
                i <= n,
                forall|j: int| 0 <= j < i ==> (#[trigger] old(self)@.edges[j]).0 != idx,
            decreases n - i,
        {
            if self.edges[i].0 == idx {
                proof {
                    lemma_edge_found(old(self)@.edges, idx, i as int);
                    lemma_weight_le_total(old(self)@, i as int);
                }
                let w = self.edges[i].1;
                self.edges[i] = (idx, w + weight);
                self.total_weight = self.total_weight + weight;
                proof {
                    lemma_bump_update_wf(old(self)@, idx, weight, i as int);
                }
                return ;
            }
            i = i + 1;
        }
        proof {
            lemma_edge_absent(old(self)@.edges, idx);
        }
        self.edges.push((idx, weight));
        self.total_weight = self.total_weight + weight;
        proof {
            lemma_bump_push_wf(old(self)@, idx, weight);
        }
    }

    /// Record one more observed transition toward `idx`.
    pub fn add(&mut self, idx: usize)
        requires
            old(self).wf(),
            old(self)@.total < usize::MAX,
        ensures
            final(self).wf(),
            final(self)@ == old(self)@.bumped(idx, 1),
    {
        self.add_weight(idx, 1);
    }

    /// A uniformly drawn position inside the weight partition, 0 when there
    /// is no weight.
    fn roll(&self) -> (r: usize)
        ensures
            self@.total > 0 ==> r < self@.total,
            self@.total == 0 ==> r == 0,
    {
        if self.total_weight > 0 {
            crate::outside::random_below(self.total_weight)
        } else {
            0
        }
    }

    /// Draw a random successor, each target with probability proportional to
    /// its weight; `None` exactly when this node has no outgoing edge.
    pub fn get_random(&self) -> (r: Option<usize>)
        requires
            self.wf(),
        ensures
            self@.total == 0 ==> r is None,
            self@.total > 0 ==> r is Some && edge_weight(self@.edges, r->Some_0) is Some,
    {
        let t = self.roll();
        let r = self.get_weighted(t);
        proof {
            if self@.total > 0 {
                lemma_pick_in_range(self@.edges, t as int);
            } else {
                if self@.edges.len() > 0 {
                    lemma_sum_nonneg(self@.edges.drop_first());
                }
            }
        }
        r
    }

    /// Rebuild a node from plain parts: `Some` exactly when the weights are
    /// all at least 1, the targets are distinct, and the weight sum fits; the
    /// edge list is kept in the given order.
    pub(crate) fn from_parts(edges: &Vec<(usize, usize)>, is_end: bool) -> (r: Option<Node>)
        ensures
            r is Some <==> {
                &&& forall|i: int, j: int|
                    0 <= i < j < edges@.len() ==> (#[trigger] edges@[i]).0 != (
                    #[trigger] edges@[j]).0
                &&& forall|i: int| 0 <= i < edges@.len() ==> (#[trigger] edges@[i]).1 >= 1
                &&& sum_weights(edges@) <= usize::MAX
            },
            r matches Some(n) ==> n.wf() && n@ == (NodeModel {
                edges: edges@,
                total: sum_weights(edges@) as usize,
                is_end,
            }),
    {
        let mut node = Node { edges: Vec::new(), total_weight: 0, is_sentence_end: is_end };
        let mut i: usize = 0;
        let n = edges.len();
        proof {
            assert(edges@.take(0) =~= Seq::<(usize, usize)>::empty());
        }
        while i < n
            invariant
                n == edges@.len(),
                i <= n,
                node.wf(),
                node@.edges == edges@.take(i as int),
                node@.total == sum_weights(edges@.take(i as int)),
                node@.is_end == is_end,
            decreases n - i,
        {
            let (t, w) = edges[i];
            proof {
                lemma_sum_take_step(edges@, i as int);
            }
            if w < 1 {
                return None;
            }
            match node.weight_of(t) {
                Some(_) => {
                    proof {
                        lemma_edge_weight_implies_member(edges@.take(i as int), t);
                    }
                    return None;
                },
                None => {},
            }
            if w > usize::MAX - node.total_weight {
                proof {
                    lemma_sum_grows(edges@, i + 1);
                }
                return None;
            }
            node.add_weight(t, w);
            proof {
                assert(node@.edges =~= edges@.take(i + 1)) by {
                    assert(edges@.take(i + 1) =~= edges@.take(i as int).push(edges@[i as int]));
                }
            }
            i = i + 1;
        }
        proof {
            assert(edges@.take(n as int) =~= edges@);
            assert forall|i: int, j: int| 0 <= i < j < edges@.len() implies (
            #[trigger] edges@[i]).0 != (#[trigger] edges@[j]).0 by {
                if edges@[i].0 == edges@[j].0 {
                    lemma_edge_exists(edges@.take(j), edges@[j].0, i);
                }
            }
        }
        Some(node)
    }

    /// Record that the word this node stands for ends a sentence.
    pub(crate) fn mark_sentence_end(&mut self)
        ensures
            final(self)@ == old(self)@.with_end(),
            old(self).wf() ==> final(self).wf(),
    {
        self.is_sentence_end = true;
    }

    /// Pure lookup of the weight of the edge toward `idx`.
    pub fn weight_of(&self, idx: usize) -> (r: Option<usize>)
        ensures
            r == edge_weight(self@.edges, idx),
    {
        let mut i: usize = 0;
        let n = self.edges.len();
        while i < n
            invariant
                n == self.edges.len(),
                i <= n,
                forall|j: int| 0 <= j < i ==> (#[trigger] self@.edges[j]).0 != idx,
            decreases n - i,
        {
            if self.edges[i].0 == idx {
                proof {
                    lemma_edge_found(self@.edges, idx, i as int);
                }
                return Some(self.edges[i].1);
            }
            i = i + 1;
        }
        proof {
            lemma_edge_absent(self@.edges, idx);
        }
        None
    }

    /// The target whose sub-interval of `[0, total)` contains `target`, or
    /// `None` when `target` lies beyond every interval.
    pub fn get_weighted(&self, target: usize) -> (r: Option<usize>)
        requires
            self.wf(),
        ensures
            r == pick_edge(self@.edges, target as int),
    {
        let mut acc: usize = 0;
        let mut i: usize = 0;
        let n = self.edges.len();
        proof {
            lemma_pick_skip(self@.edges, 0, target as int);
        }
        while i < n
            invariant
                self.wf(),
                n == self.edges.len(),
                i <= n,
                acc == sum_weights(self@.edges.take(i as int)),
                acc <= target,
                pick_edge(self@.edges, target as int) == pick_edge(
                    self@.edges.skip(i as int),
                    target - acc,
                ),
            decreases n - i,
        {
            let w = self.edges[i].1;
            proof {
                lemma_sum_take_step(self@.edges, i as int);
                lemma_sum_le_total(self@, i + 1 as int);
                assert(self@.edges.skip(i as int)[0] == self@.edges[i as int]);
            }
            if target - acc < w {
                assert(pick_edge(self@.edges.skip(i as int), target - acc) == Some(
                    self@.edges[i as int].0,
                ));
                return Some(self.edges[i].0);
            }
            proof {
                assert(self@.edges.skip(i as int).drop_first() =~= self@.edges.skip(i + 1));
            }
            acc = acc + w;
            i = i + 1;
        }
        proof {
            assert(self@.edges.skip(n as int) =~= Seq::<(usize, usize)>::empty());
        }
        None
    }
}

/// In a well-formed model every single weight is bounded by the total.
proof fn lemma_weight_le_total(m: NodeModel, k: int)
    requires
        m.wf(),
        0 <= k < m.edges.len(),
    ensures
        m.edges[k].1 <= m.total,
{
    lemma_weight_le_total_pub(m, k);
}

/// A prefix sum never exceeds the whole sum (all weights are non-negative).
proof fn lemma_sum_le_total(m: NodeModel, i: int)
    requires
        m.wf(),
        0 <= i <= m.edges.len(),
    ensures
        sum_weights(m.edges.take(i)) <= m.total,
{
    lemma_sum_concat(m.edges.take(i), m.edges.skip(i));
    assert(m.edges.take(i) + m.edges.skip(i) =~= m.edges);
    lemma_sum_nonneg(m.edges.skip(i));
}

/// Sums add over concatenation.
pub proof fn lemma_sum_concat(a: Seq<(usize, usize)>, b: Seq<(usize, usize)>)
    ensures
        sum_weights(a + b) == sum_weights(a) + sum_weights(b),
    decreases a.len(),
{
    if a.len() == 0 {
        assert(a + b =~= b);
    } else {
        lemma_sum_concat(a.drop_first(), b);
        assert((a + b).drop_first() =~= a.drop_first() + b);
    }
}

/// One element's weight is bounded by the sum of the whole list.
proof fn lemma_sum_split(edges: Seq<(usize, usize)>, k: int)
    requires
        0 <= k < edges.len(),
        forall|i: int| 0 <= i < edges.len() ==> (#[trigger] edges[i]).1 >= 1,
    ensures
        edges[k].1 <= sum_weights(edges),
    decreases k,
{
    lemma_sum_nonneg(edges.drop_first());
    if k > 0 {
        lemma_sum_split(edges.drop_first(), k - 1);
    }
}

/// Updating the matched edge realises `bumped` and preserves well-formedness.
proof fn lemma_bump_update_wf(m: NodeModel, t: usize, weight: usize, k: int)
    requires
        m.wf(),
        m.total + weight <= usize::MAX,
        0 <= k < m.edges.len(),
        m.edges[k].0 == t,
        forall|j: int| 0 <= j < k ==> (#[trigger] m.edges[j]).0 != t,
    ensures
        m.bumped(t, weight).wf(),
        m.bumped(t, weight).edges == m.edges.update(k, (t, (m.edges[k].1 + weight) as usize)),
    decreases k,
{
    lemma_edge_found(m.edges, t, k);
    lemma_weight_le_total(m, k);
    lemma_sum_update(m.edges, k, (t, (m.edges[k].1 + weight) as usize));
}

/// Updating one entry changes the sum by the weight difference.
proof fn lemma_sum_update(edges: Seq<(usize, usize)>, k: int, v: (usize, usize))
    requires
        0 <= k < edges.len(),
    ensures
        sum_weights(edges.update(k, v)) == sum_weights(edges) - edges[k].1 + v.1,
    decreases k,
{
    if k == 0 {
        assert(edges.update(0, v).drop_first() =~= edges.drop_first());
    } else {
        lemma_sum_update(edges.drop_first(), k - 1, v);
        assert(edges.update(k, v).drop_first() =~= edges.drop_first().update(k - 1, v));
    }
}

/// Pushing a fresh edge realises `bumped` and preserves well-formedness.
proof fn lemma_bump_push_wf(m: NodeModel, t: usize, weight: usize)
    requires
        m.wf(),
        weight >= 1,
        m.total + weight <= usize::MAX,
        forall|j: int| 0 <= j < m.edges.len() ==> (#[trigger] m.edges[j]).0 != t,
    ensures
        m.bumped(t, weight).wf(),
        m.bumped(t, weight).edges == m.edges.push((t, weight)),
{
    lemma_edge_absent(m.edges, t);
    lemma_sum_concat(m.edges, seq![(t, weight)]);
    assert(m.edges.push((t, weight)) =~= m.edges + seq![(t, weight)]);
    let single: Seq<(usize, usize)> = seq![(t, weight)];
    assert(single.drop_first() =~= Seq::<(usize, usize)>::empty());
    assert(sum_weights(single) == weight + sum_weights(single.drop_first()));
}

impl Default for Node {
    /// A fresh node: no edges, zero total, not a terminator.
    fn default() -> (r: Node)
        ensures
            r@ == NodeModel::empty(),
            r.wf(),
    {
        Node { edges: Vec::new(), total_weight: 0, is_sentence_end: false }
    }
}

} // verus!
