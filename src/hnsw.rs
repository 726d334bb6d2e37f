use vstd::prelude::*;
use core::marker::PhantomData;
use std::collections::HashMap;
use crate::distance::Distance;
use vstd::set_lib::{lemma_int_range, lemma_len_subset, set_int_range};

verus! {

broadcast use vstd::std_specs::hash::group_hash_axioms;

/// One indexed vector with its adjacency, one list of node ids per layer
/// from 0 up to the node's top layer.
pub struct VectorNode<V> {
    pub id: usize,
    pub vector: V,
    pub neighbors: Vec<Vec<usize>>,
}

impl<V> VectorNode<V> {
    /// The highest layer on which the node takes part.
    pub open spec fn top_layer(&self) -> int {
        self.neighbors@.len() - 1
    }

    /// A node with empty adjacency on each layer `0..=max_layer`.
    pub fn new(id: usize, vector: V, max_layer: usize) -> (r: Self)
        requires
            max_layer < usize::MAX,
        ensures
            r.id == id,
            r.vector == vector,
            r.neighbors@.len() == max_layer + 1,
            forall|l: int| 0 <= l <= max_layer ==> #[trigger] r.neighbors@[l]@.len() == 0,
    {
        let mut neighbors: Vec<Vec<usize>> = Vec::new();
        let mut l: usize = 0;
        while l <= max_layer
            invariant
                l <= max_layer + 1,
                max_layer < usize::MAX,
                neighbors@.len() == l,
                forall|k: int| 0 <= k < l ==> #[trigger] neighbors@[k]@.len() == 0,
            decreases max_layer + 1 - l,
        {
            neighbors.push(Vec::new());
            l = l + 1;
        }
        VectorNode { id, vector, neighbors }
    }
}

/// The multi-layer proximity graph. Node ids are positions in `nodes`;
/// `D` is the similarity kernel the graph is navigated by.
pub struct HnswIndex<V, D> {
    pub nodes: Vec<VectorNode<V>>,
    pub entry_point: Option<usize>,
    pub max_layer: usize,
    /// The neighbour cap per node and layer, and the expander's result bound.
    pub m: usize,
    pub kernel: PhantomData<D>,
}

impl<V, D: Distance<V>> HnswIndex<V, D> {
    /// The adjacency of node `i` on layer `l`.
    pub open spec fn adj(&self, i: int, l: int) -> Seq<usize> {
        self.nodes@[i].neighbors@[l]@
    }

    /// Node `x` exists and takes part in layer `l`.
    pub open spec fn on_layer(&self, x: int, l: int) -> bool {
        &&& 0 <= x < self.nodes@.len()
        &&& 0 <= l < self.nodes@[x].neighbors@.len()
    }

    /// The kernel's score of `query` against the vector of node `i`.
    pub open spec fn score(&self, query: V, i: int) -> i64 {
        D::similarity(query, self.nodes@[i].vector)
    }

    /// Each node's id is its position.
    pub open spec fn ids_are_positions(&self) -> bool {
        forall|i: int| 0 <= i < self.nodes@.len() ==> (#[trigger] self.nodes@[i]).id == i
    }

    /// Each node has at least layer 0, and none rises above `max_layer`.
    pub open spec fn layers_bounded(&self) -> bool {
        forall|i: int|
            0 <= i < self.nodes@.len() ==> 1 <= (#[trigger] self.nodes@[i]).neighbors@.len()
                <= self.max_layer + 1
    }

    /// Every edge on layer `l` joins two distinct nodes that both take part
    /// in layer `l`.
    pub open spec fn edges_valid(&self) -> bool {
        forall|i: int, l: int, k: int|
            self.on_layer(i, l) && 0 <= k < self.adj(i, l).len() ==> {
                let x = #[trigger] self.adj(i, l)[k] as int;
                &&& self.on_layer(x, l)
                &&& x != i
            }
    }

    /// No node has more than `m` neighbours on any layer.
    pub open spec fn degree_bounded(&self) -> bool {
        forall|i: int, l: int| #[trigger]
            self.on_layer(i, l) ==> self.adj(i, l).len() <= self.m
    }

    /// The entry point is absent exactly when the index is empty, and
    /// otherwise names a node whose top layer is `max_layer`.
    pub open spec fn entry_valid(&self) -> bool {
        match self.entry_point {
            None => self.nodes@.len() == 0 && self.max_layer == 0,
            Some(e) => e < self.nodes@.len() && self.nodes@[e as int].neighbors@.len()
                == self.max_layer + 1,
        }
    }

    pub open spec fn wf(&self) -> bool {
        &&& self.ids_are_positions()
        &&& self.layers_bounded()
        &&& self.edges_valid()
        &&& self.degree_bounded()
        &&& self.entry_valid()
    }

    /// No valid layer-`layer` neighbour of node `r` scores strictly higher
    /// against `query` than `r` itself.
    pub open spec fn is_local_best(&self, query: V, r: int, layer: int) -> bool {
        self.on_layer(r, layer) ==> forall|k: int|
            0 <= k < self.adj(r, layer).len() && self.on_layer(
                #[trigger] self.adj(r, layer)[k] as int,
                layer,
            ) ==> self.score(query, self.adj(r, layer)[k] as int) <= self.score(query, r)
    }

    /// The node one greedy round from `here` settles on after looking at the
    /// first `k` of its layer-`layer` neighbours: it moves to a neighbour only
    /// on a strictly higher score, so the first of equal scores wins.
    pub open spec fn scan(&self, query: V, here: int, layer: int, k: int) -> int
        decreases k,
    {
        if k <= 0 || !self.on_layer(here, layer) {
            here
        } else {
            let c = self.scan(query, here, layer, k - 1);
            let x = self.adj(here, layer)[k - 1] as int;
            if self.on_layer(x, layer) && self.score(query, x) > self.score(query, c) {
                x
            } else {
                c
            }
        }
    }

    /// One full greedy round from `here`.
    pub open spec fn round(&self, query: V, here: int, layer: int) -> int {
        self.scan(query, here, layer, self.adj(here, layer).len() as int)
    }

    /// Where the greedy walk on `layer` from `cur` ends: rounds repeat while
    /// they reach a strictly higher score.
    pub open spec fn walk(&self, query: V, cur: int, layer: int) -> int
        decreases i64::MAX - self.score(query, cur),
    {
        let nx = self.round(query, cur, layer);
        if self.score(query, nx) > self.score(query, cur) {
            self.walk(query, nx, layer)
        } else {
            cur
        }
    }

    /// The top-down query: a greedy walk on each layer from `layer` down to
    /// 0, each starting where the one above ended.
    pub open spec fn descend(&self, query: V, cur: int, layer: int) -> int
        decreases layer,
    {
        if layer <= 0 {
            self.walk(query, cur, 0)
        } else {
            self.descend(query, self.walk(query, cur, layer), layer - 1)
        }
    }

    /// Some node on `layer` has `x` among its neighbours there.
    pub open spec fn is_edge_target(&self, x: int, layer: int) -> bool {
        exists|i: int, k: int|
            self.on_layer(i, layer) && 0 <= k < self.adj(i, layer).len() && #[trigger] self.adj(i, layer)[k]
                == x
    }

    /// A round from a node that no neighbour outscores stays there.
    proof fn lemma_scan_stays(&self, query: V, here: int, layer: int, k: int)
        requires
            self.is_local_best(query, here, layer),
            self.on_layer(here, layer) ==> k <= self.adj(here, layer).len(),
        ensures
            self.scan(query, here, layer, k) == here,
        decreases k,
    {
        if k > 0 && self.on_layer(here, layer) {
            self.lemma_scan_stays(query, here, layer, k - 1);
        }
    }

    /// What a greedy search on `layer` from `seed` returns.
    pub open spec fn greedy_result(&self, query: V, seed: usize, layer: usize, r: usize) -> bool {
        &&& r as int == self.walk(query, seed as int, layer as int)
        &&& self.is_local_best(query, seed as int, layer as int) ==> r == seed
        &&& r != seed ==> self.is_edge_target(r as int, layer as int)
        &&& if seed >= self.nodes@.len() {
            r == seed
        } else {
            &&& r < self.nodes@.len()
            &&& self.score(query, r as int) >= self.score(query, seed as int)
            &&& r != seed ==> self.on_layer(r as int, layer as int) && self.score(query, r as int)
                > self.score(query, seed as int)
            &&& self.is_local_best(query, r as int, layer as int)
        }
    }

    /// The expander's result bound: `m`, and one when `m` is zero (the seed
    /// is always taken).
    pub open spec fn expand_cap(&self) -> int {
        if self.m == 0 {
            1
        } else {
            self.m as int
        }
    }

    /// Some node among the first `upto` of `r` takes part in `layer` and has
    /// `x` among its neighbours there.
    pub open spec fn linked_before(&self, r: Seq<usize>, upto: int, x: usize, layer: usize) -> bool {
        exists|j: int|
            0 <= j < upto && self.on_layer(r[j] as int, layer as int) && #[trigger] self.adj(
                r[j] as int,
                layer as int,
            ).contains(x)
    }

    /// A link found among the first `n` of `r` stays found in any sequence
    /// that agrees with `r` there.
    proof fn lemma_linked_kept(&self, r: Seq<usize>, n: int, x: usize, layer: usize, r2: Seq<usize>, upto: int)
        requires
            self.linked_before(r, n, x, layer),
            n <= r.len(),
            n <= upto <= r2.len(),
            forall|j: int| 0 <= j < n ==> r2[j] == r[j],
        ensures
            self.linked_before(r2, upto, x, layer),
    {
        let j = choose|j: int|
            0 <= j < n && self.on_layer(r[j] as int, layer as int) && #[trigger] self.adj(
                r[j] as int,
                layer as int,
            ).contains(x);
        assert(r2[j] == r[j]);
    }

    /// The `k`th id of `r` scores against `query` at least as high as every
    /// node on `layer` that neighbours one of the first `k` ids there and is
    /// not among them: it was the best candidate waiting when it was taken.
    pub open spec fn taken_best_first(&self, query: V, layer: usize, r: Seq<usize>, k: int) -> bool {
        forall|j: int, i: int|
            0 <= j < k && self.on_layer(r[j] as int, layer as int) && 0 <= i < self.adj(r[j] as int, layer as int).len()
                && self.on_layer(#[trigger] self.adj(r[j] as int, layer as int)[i] as int, layer as int) && (forall|t: int|
                0 <= t < k ==> r[t] != self.adj(r[j] as int, layer as int)[i]) ==> self.score(query, r[k] as int)
                >= self.score(query, self.adj(r[j] as int, layer as int)[i] as int)
    }

    /// The best-first fact about the `k`th id depends on the first `k + 1`
    /// ids alone.
    proof fn lemma_best_first_prefix(&self, query: V, layer: usize, r: Seq<usize>, r2: Seq<usize>, k: int)
        requires
            0 <= k < r.len(),
            k < r2.len(),
            forall|m: int| 0 <= m <= k ==> r2[m] == r[m],
            self.taken_best_first(query, layer, r, k),
        ensures
            self.taken_best_first(query, layer, r2, k),
    {
        assert forall|j: int, i: int|
            0 <= j < k && self.on_layer(r2[j] as int, layer as int) && 0 <= i < self.adj(r2[j] as int, layer as int).len()
                && self.on_layer(#[trigger] self.adj(r2[j] as int, layer as int)[i] as int, layer as int) && (forall|t: int|
                0 <= t < k ==> r2[t] != self.adj(r2[j] as int, layer as int)[i]) implies self.score(query, r2[k] as int)
                >= self.score(query, self.adj(r2[j] as int, layer as int)[i] as int) by {
            assert(r2[j] == r[j]);
            assert(r2[k] == r[k]);
            assert forall|t: int| 0 <= t < k implies r[t] != self.adj(r[j] as int, layer as int)[i] by {
                assert(r2[t] == r[t]);
            }
        }
    }

    /// What a best-first expansion on `layer` from `entry` may return: the
    /// seed first, distinct existing ids, the others on the layer and each a
    /// neighbour there of one taken before it, at most
    /// `expand_cap()` of them, and when fewer, every valid neighbour of a
    /// taken node taken too.
    pub open spec fn expansion_result(&self, entry: usize, layer: usize, r: Seq<usize>) -> bool {
        &&& 1 <= r.len() <= self.expand_cap()
        &&& r[0] == entry
        &&& r.no_duplicates()
        &&& forall|k: int| 0 <= k < r.len() ==> (#[trigger] r[k]) < self.nodes@.len()
        &&& forall|k: int| 0 < k < r.len() ==> self.on_layer(#[trigger] r[k] as int, layer as int)
        &&& forall|k: int| 0 < k < r.len() ==> self.linked_before(r, k, #[trigger] r[k], layer)
        &&& r.len() < self.expand_cap() ==> forall|j: int, k: int|
            0 <= j < r.len() && self.on_layer(r[j] as int, layer as int) && 0 <= k < self.adj(
                r[j] as int,
                layer as int,
            ).len() && self.on_layer(
                #[trigger] self.adj(r[j] as int, layer as int)[k] as int,
                layer as int,
            ) ==> r.contains(self.adj(r[j] as int, layer as int)[k])
    }

    /// The kernel's score of node `i`'s vector against node `x`'s vector.
    pub open spec fn affinity(&self, i: int, x: int) -> i64 {
        D::similarity(self.nodes@[i].vector, self.nodes@[x].vector)
    }

    /// Position `a` of a list comes before position `b` when sorting by
    /// `scores` from highest to lowest, equal scores keeping list order.
    pub open spec fn ranks_before(scores: Seq<i64>, a: int, b: int) -> bool {
        scores[a] > scores[b] || (scores[a] == scores[b] && a < b)
    }

    /// The scores of `list`'s entries against node `i`.
    pub open spec fn list_scores(&self, i: int, list: Seq<usize>) -> Seq<i64> {
        Seq::new(list.len(), |j: int| self.affinity(i, list[j] as int))
    }

    /// `p` picks the positions of `kept` in `list`: distinct positions, in
    /// closest-first order with ties in list order, and every position left
    /// out ranks after every position picked.
    pub open spec fn closest_positions(&self, i: int, list: Seq<usize>, kept: Seq<usize>, p: Seq<int>) -> bool {
        let sc = self.list_scores(i, list);
        &&& p.len() == kept.len()
        &&& p.no_duplicates()
        &&& forall|t: int| 0 <= t < p.len() ==> 0 <= #[trigger] p[t] < list.len() && kept[t] == list[p[t]]
        &&& forall|t: int, u: int|
            0 <= t < u < p.len() ==> Self::ranks_before(sc, #[trigger] p[t], #[trigger] p[u])
        &&& forall|j: int, t: int|
            0 <= j < list.len() && !#[trigger] p.contains(j) && 0 <= t < p.len() ==> Self::ranks_before(
                sc,
                #[trigger] p[t],
                j,
            )
    }

    /// `kept` is the first `m` entries of `list` sorted closest first to node
    /// `i`'s vector, ties keeping list order: a stable sort, then truncation.
    pub open spec fn keeps_closest(&self, i: int, list: Seq<usize>, kept: Seq<usize>) -> bool {
        &&& kept.len() == self.m
        &&& exists|p: Seq<int>| self.closest_positions(i, list, kept, p)
    }

    /// `after` is what node `k`'s list `list` becomes when `id` is appended
    /// and the list is cut back to the closest `m`.
    pub open spec fn pushed_pruned(&self, k: int, list: Seq<usize>, id: usize, after: Seq<usize>) -> bool {
        let grown = list.push(id);
        if grown.len() <= self.m {
            after == grown
        } else {
            self.keeps_closest(k, grown, after)
        }
    }

    /// Two wiring states hold the same vectors, so they rank lists alike.
    proof fn lemma_keeps_transfer(
        a: Self,
        b: Self,
        pre: Seq<VectorNode<V>>,
        vector: V,
        target_layer: usize,
        i: int,
        list: Seq<usize>,
        id: usize,
        after: Seq<usize>,
    )
        requires
            a.growing(pre, vector, target_layer),
            b.growing(pre, vector, target_layer),
            a.m == b.m,
            0 <= i < a.nodes@.len(),
            forall|j: int| 0 <= j < list.len() ==> #[trigger] list[j] < a.nodes@.len(),
            id < a.nodes@.len(),
        ensures
            a.pushed_pruned(i, list, id, after) == b.pushed_pruned(i, list, id, after),
    {
        assert forall|x: int| 0 <= x < a.nodes@.len() implies #[trigger] a.nodes@[x].vector == b.nodes@[x].vector by {
            if x < pre.len() {
                assert(a.nodes@[x].vector == pre[x].vector);
                assert(b.nodes@[x].vector == pre[x].vector);
            }
        }
        let grown = list.push(id);
        assert(a.list_scores(i, grown) =~= b.list_scores(i, grown));
        assert forall|p: Seq<int>| a.closest_positions(i, grown, after, p) == b.closest_positions(
            i,
            grown,
            after,
            p,
        ) by {}
    }

    /// The highest layer an insert with `target_layer` wires into `self`:
    /// -1 when `self` is empty.
    pub open spec fn wired_top(&self, target_layer: usize) -> int {
        match self.entry_point {
            None => -1,
            Some(_) => if target_layer < self.max_layer {
                target_layer as int
            } else {
                self.max_layer as int
            },
        }
    }

    /// The old nodes' lists, against `o`: untouched outside layers
    /// `lo..=hi`, and everywhere either untouched or grown by `id` and cut
    /// back to the closest (as `base` ranks them).
    pub open spec fn old_lists_wired(&self, base: Self, o: Self, id: usize, lo: int, hi: int) -> bool {
        forall|k: int, l: int|
            0 <= k < id && #[trigger] o.on_layer(k, l) ==> {
                &&& (l < lo || l > hi) ==> self.adj(k, l) == o.adj(k, l)
                &&& self.adj(k, l) == o.adj(k, l) || base.pushed_pruned(k, o.adj(k, l), id, self.adj(k, l))
            }
    }

    /// The new node `id`'s lists: empty outside layers `lo..=hi`, and each
    /// neighbour in them an old node whose list there is its list in `o`
    /// grown by `id` and cut back (so the back edge stays when it had room).
    pub open spec fn new_list_wired(&self, base: Self, o: Self, id: usize, target_layer: usize, lo: int, hi: int) -> bool {
        &&& forall|l: int|
            0 <= l <= target_layer && (l < lo || l > hi) ==> #[trigger] self.adj(id as int, l).len() == 0
        &&& forall|l: int, j: int|
            0 <= l <= target_layer && 0 <= j < self.adj(id as int, l).len() ==> {
                let b = #[trigger] self.adj(id as int, l)[j];
                &&& b < id
                &&& base.pushed_pruned(b as int, o.adj(b as int, l), id, self.adj(b as int, l))
            }
    }

    /// The wiring facts, ranked in one wiring state, hold ranked in another.
    proof fn lemma_wired_transfer(
        a: Self,
        c: Self,
        o: Self,
        pre: Seq<VectorNode<V>>,
        vector: V,
        target_layer: usize,
        id: usize,
        lo: int,
        hi: int,
    )
        requires
            a.growing(pre, vector, target_layer),
            c.growing(pre, vector, target_layer),
            a.m == c.m,
            o.wf(),
            o.nodes@ == pre,
            id == pre.len(),
            c.old_lists_wired(a, o, id, lo, hi),
            c.new_list_wired(a, o, id, target_layer, lo, hi),
        ensures
            c.old_lists_wired(c, o, id, lo, hi),
            c.new_list_wired(c, o, id, target_layer, lo, hi),
    {
        assert forall|k: int, l: int| 0 <= k < id && #[trigger] o.on_layer(k, l) implies {
            &&& (l < lo || l > hi) ==> c.adj(k, l) == o.adj(k, l)
            &&& c.adj(k, l) == o.adj(k, l) || c.pushed_pruned(k, o.adj(k, l), id, c.adj(k, l))
        } by {
            assert forall|j: int| 0 <= j < o.adj(k, l).len() implies #[trigger] o.adj(k, l)[j] < a.nodes@.len() by {
                assert(o.on_layer(o.adj(k, l)[j] as int, l));
            }
            Self::lemma_keeps_transfer(a, c, pre, vector, target_layer, k, o.adj(k, l), id, c.adj(k, l));
        }
        assert forall|l: int, j: int|
            0 <= l <= target_layer && 0 <= j < c.adj(id as int, l).len() implies {
            let x = #[trigger] c.adj(id as int, l)[j];
            &&& x < id
            &&& c.pushed_pruned(x as int, o.adj(x as int, l), id, c.adj(x as int, l))
        } by {
            let x = c.adj(id as int, l)[j];
            assert(c.on_layer(id as int, l));
            assert(c.on_layer(x as int, l));
            assert(c.nodes@[x as int].neighbors@.len() == pre[x as int].neighbors@.len());
            assert(o.on_layer(x as int, l));
            assert forall|i: int| 0 <= i < o.adj(x as int, l).len() implies #[trigger] o.adj(x as int, l)[i] < a.nodes@.len() by {
                assert(o.on_layer(o.adj(x as int, l)[i] as int, l));
            }
            Self::lemma_keeps_transfer(a, c, pre, vector, target_layer, x as int, o.adj(x as int, l), id, c.adj(x as int, l));
        }
    }

    /// No adjacency list holds an id twice.
    pub open spec fn lists_distinct(&self) -> bool {
        forall|i: int, l: int| #[trigger] self.on_layer(i, l) ==> self.adj(i, l).no_duplicates()
    }

    /// The degree cap holds for every node but `skip`.
    pub open spec fn degree_bounded_except(&self, skip: int) -> bool {
        forall|i: int, l: int| #[trigger]
            self.on_layer(i, l) && i != skip ==> self.adj(i, l).len() <= self.m
    }

    /// The first `pre.len()` nodes keep their id, vector and layer count.
    pub open spec fn keeps_nodes(&self, pre: Seq<VectorNode<V>>) -> bool {
        &&& pre.len() <= self.nodes@.len()
        &&& forall|i: int|
            0 <= i < pre.len() ==> {
                &&& (#[trigger] self.nodes@[i]).id == pre[i].id
                &&& self.nodes@[i].vector == pre[i].vector
                &&& self.nodes@[i].neighbors@.len() == pre[i].neighbors@.len()
            }
    }

    /// The state while node `pre.len()` is being wired in: the nodes before
    /// it keep their id, vector and layers, the new node holds `vector` on
    /// layers `0..=target_layer`, edges stay valid, and only the new node may
    /// exceed the degree cap.
    pub open spec fn growing(&self, pre: Seq<VectorNode<V>>, vector: V, target_layer: usize) -> bool {
        &&& self.nodes@.len() == pre.len() + 1
        &&& self.keeps_nodes(pre)
        &&& self.ids_are_positions()
        &&& self.nodes@[pre.len() as int].vector == vector
        &&& self.nodes@[pre.len() as int].neighbors@.len() == target_layer + 1
        &&& self.edges_valid()
        &&& self.degree_bounded_except(pre.len() as int)
    }

    /// `self` is `other` but for the adjacency of node `i0` on layer `l0`.
    pub open spec fn changes_only(&self, other: Self, i0: int, l0: int) -> bool {
        &&& self.m == other.m
        &&& self.entry_point == other.entry_point
        &&& self.max_layer == other.max_layer
        &&& self.nodes@.len() == other.nodes@.len()
        &&& forall|i: int|
            0 <= i < self.nodes@.len() ==> {
                &&& (#[trigger] self.nodes@[i]).id == other.nodes@[i].id
                &&& self.nodes@[i].vector == other.nodes@[i].vector
                &&& self.nodes@[i].neighbors@.len() == other.nodes@[i].neighbors@.len()
            }
        &&& forall|i: int, l: int|
            self.on_layer(i, l) && !(i == i0 && l == l0) ==> #[trigger] self.adj(i, l) == other.adj(i, l)
    }

    /// Edges stay valid when the layer counts stay and each edge either was
    /// there on the same node and layer or is itself valid.
    proof fn lemma_edges_kept(a: Self, b: Self)
        requires
            a.edges_valid(),
            b.nodes@.len() == a.nodes@.len(),
            forall|i: int|
                0 <= i < a.nodes@.len() ==> (#[trigger] b.nodes@[i]).neighbors@.len()
                    == a.nodes@[i].neighbors@.len(),
            forall|i: int, l: int, k: int|
                b.on_layer(i, l) && 0 <= k < b.adj(i, l).len() ==> a.adj(i, l).contains(
                    #[trigger] b.adj(i, l)[k],
                ) || (b.on_layer(b.adj(i, l)[k] as int, l) && b.adj(i, l)[k] != i),
        ensures
            b.edges_valid(),
    {
        assert forall|i: int, l: int, k: int|
            b.on_layer(i, l) && 0 <= k < b.adj(i, l).len() implies {
            let x = #[trigger] b.adj(i, l)[k] as int;
            &&& b.on_layer(x, l)
            &&& x != i
        } by {
            let x = b.adj(i, l)[k];
            if a.adj(i, l).contains(x) {
                assert(a.nodes@[i].neighbors@.len() == b.nodes@[i].neighbors@.len());
                let j = choose|j: int| 0 <= j < a.adj(i, l).len() && a.adj(i, l)[j] == x;
                assert(a.on_layer(a.adj(i, l)[j] as int, l));
                assert(a.nodes@[x as int].neighbors@.len() == b.nodes@[x as int].neighbors@.len());
            }
        }
    }

    /// Two changes to the same adjacency list make one.
    proof fn lemma_changes_chain(a: Self, b: Self, c: Self, i0: int, l0: int)
        requires
            b.changes_only(a, i0, l0),
            c.changes_only(b, i0, l0),
        ensures
            c.changes_only(a, i0, l0),
    {
        assert forall|i: int, l: int| c.on_layer(i, l) && !(i == i0 && l == l0) implies #[trigger] c.adj(i, l)
            == a.adj(i, l) by {
            assert(c.nodes@[i].neighbors@.len() == b.nodes@[i].neighbors@.len());
            assert(b.on_layer(i, l));
            assert(c.adj(i, l) == b.adj(i, l));
        }
    }

    /// The wiring state survives a change to one adjacency list that keeps
    /// edges valid and, unless the list is the new node's, within the cap.
    proof fn lemma_growing_kept(
        a: Self,
        b: Self,
        i0: int,
        l0: int,
        pre: Seq<VectorNode<V>>,
        vector: V,
        target_layer: usize,
    )
        requires
            a.growing(pre, vector, target_layer),
            b.changes_only(a, i0, l0),
            b.edges_valid(),
            i0 != pre.len() && b.on_layer(i0, l0) ==> b.adj(i0, l0).len() <= b.m,
        ensures
            b.growing(pre, vector, target_layer),
    {
        assert forall|i: int, l: int| #[trigger]
            b.on_layer(i, l) && i != pre.len() implies b.adj(i, l).len() <= b.m by {
            if !(i == i0 && l == l0) {
                assert(b.adj(i, l) == a.adj(i, l));
                assert(a.nodes@[i].neighbors@.len() == b.nodes@[i].neighbors@.len());
                assert(a.on_layer(i, l));
            }
        }
        assert forall|i: int| 0 <= i < pre.len() implies {
            &&& (#[trigger] b.nodes@[i]).id == pre[i].id
            &&& b.nodes@[i].vector == pre[i].vector
            &&& b.nodes@[i].neighbors@.len() == pre[i].neighbors@.len()
        } by {
            assert(a.nodes@[i].id == pre[i].id);
        }
        assert forall|i: int| 0 <= i < b.nodes@.len() implies (#[trigger] b.nodes@[i]).id == i by {
            assert(a.nodes@[i].id == i);
        }
    }

    /// What a query may return: nothing exactly when the index is empty, and
    /// otherwise an existing node that scores at least as high as the entry
    /// point and that no valid base-layer neighbour outscores.
    pub open spec fn nearest_result(&self, query: V, r: Option<usize>) -> bool {
        match r {
            None => self.nodes@.len() == 0,
            Some(id) => {
                &&& id < self.nodes@.len()
                &&& self.entry_point is Some
                &&& self.score(query, id as int) >= self.score(query, self.entry_point->0 as int)
                &&& self.is_local_best(query, id as int, 0)
            },
        }
    }

    /// In a well-formed index the node ids are exactly `0..nodes.len()`.
    pub proof fn lemma_ids_dense(index: Self)
        requires
            index.wf(),
        ensures
            Set::new(|x: int| exists|i: int| 0 <= i < index.nodes@.len() && index.nodes@[i].id == x)
                == set_int_range(0, index.nodes@.len() as int),
    {
        let ids = Set::new(
            |x: int| exists|i: int| 0 <= i < index.nodes@.len() && index.nodes@[i].id == x,
        );
        assert forall|x: int| #[trigger] set_int_range(0, index.nodes@.len() as int).contains(x) implies ids.contains(
            x,
        ) by {
            assert(index.nodes@[x].id == x);
        }
        assert(ids =~= set_int_range(0, index.nodes@.len() as int));
    }

    /// On an index holding a single node, a query returns that node, whatever
    /// the query vector.
    pub proof fn lemma_single_node_nearest(index: Self, query: V, r: Option<usize>)
        requires
            index.wf(),
            index.nodes@.len() == 1,
            index.nearest_result(query, r),
        ensures
            r == Some(0usize),
    {
    }

    /// Node `i` keeps its id, its layer count, its degree cap and valid edges.
    pub open spec fn node_ok(&self, i: int) -> bool {
        &&& self.nodes@[i].id == i
        &&& 1 <= self.nodes@[i].neighbors@.len() <= self.max_layer + 1
        &&& forall|l: int| 0 <= l < self.nodes@[i].neighbors@.len() ==> self.layer_ok(i, l)
    }

    /// Node `i`'s adjacency on layer `l` respects the cap and holds only
    /// valid edges.
    pub open spec fn layer_ok(&self, i: int, l: int) -> bool {
        &&& self.adj(i, l).len() <= self.m
        &&& forall|k: int|
            0 <= k < self.adj(i, l).len() ==> self.on_layer(#[trigger] self.adj(i, l)[k] as int, l)
                && self.adj(i, l)[k] != i
    }

    /// An empty index with neighbour cap `m`.
    pub fn new(m: usize) -> (r: Self)
        ensures
            r.wf(),
            r.lists_distinct(),
            r.nodes@.len() == 0,
            r.entry_point is None,
            r.max_layer == 0,
            r.m == m,
    {
        HnswIndex { nodes: Vec::new(), entry_point: None, max_layer: 0, m, kernel: PhantomData }
    }

    /// Hill-climbs on one layer from `entry_point` toward `query`: moves to a
    /// neighbour only when it scores strictly higher, and stops when no
    /// neighbour does. Ids out of range, and neighbours absent from the
    /// layer, are skipped; an out-of-range seed is returned unchanged.
    pub fn search_layer(&self, query: &V, entry_point: usize, layer: usize) -> (r: usize)
        ensures
            self.greedy_result(*query, entry_point, layer, r),
    {
        let n = self.nodes.len();
        if entry_point >= n {
            proof {
                assert(self.round(*query, entry_point as int, layer as int) == entry_point as int);
            }
            return entry_point;
        }
        proof {
            if self.is_local_best(*query, entry_point as int, layer as int) {
                if self.on_layer(entry_point as int, layer as int) {
                    self.lemma_scan_stays(*query, entry_point as int, layer as int, self.adj(entry_point as int, layer as int).len() as int);
                }
                assert(self.walk(*query, entry_point as int, layer as int) == entry_point as int);
            }
        }
        let mut current_node = entry_point;
        let mut best_dist = D::calculate(query, &self.nodes[current_node].vector);
        let mut changed = true;
        while changed
            invariant
                n == self.nodes@.len(),
                entry_point < n,
                current_node < n,
                best_dist == self.score(*query, current_node as int),
                best_dist >= self.score(*query, entry_point as int),
                current_node != entry_point ==> self.on_layer(current_node as int, layer as int)
                    && best_dist > self.score(*query, entry_point as int),
                !changed ==> self.is_local_best(*query, current_node as int, layer as int),
                self.walk(*query, current_node as int, layer as int) == self.walk(*query, entry_point as int, layer as int),
                !changed ==> self.walk(*query, current_node as int, layer as int) == current_node as int,
                current_node != entry_point ==> self.is_edge_target(current_node as int, layer as int),
                changed ==> current_node == entry_point || self.score(*query, current_node as int) > self.score(*query, entry_point as int),
            decreases i64::MAX - best_dist + (if changed { 1int } else { 0int }),
        {
            changed = false;
            let here = current_node;
            if layer < self.nodes[here].neighbors.len() {
                let adj = &self.nodes[here].neighbors[layer];
                let mut k: usize = 0;
                while k < adj.len()
                    invariant
                        n == self.nodes@.len(),
                        entry_point < n,
                        here < n,
                        layer < self.nodes@[here as int].neighbors@.len(),
                        *adj == self.nodes@[here as int].neighbors@[layer as int],
                        k <= adj@.len(),
                        current_node < n,
                        best_dist == self.score(*query, current_node as int),
                        best_dist >= self.score(*query, here as int),
                        best_dist >= self.score(*query, entry_point as int),
                        current_node != entry_point ==> self.on_layer(
                            current_node as int,
                            layer as int,
                        ) && best_dist > self.score(*query, entry_point as int),
                        changed ==> best_dist > self.score(*query, here as int),
                        !changed ==> current_node == here,
                        current_node as int == self.scan(*query, here as int, layer as int, k as int),
                        current_node != entry_point ==> self.is_edge_target(current_node as int, layer as int),
                        !changed ==> forall|j: int|
                            0 <= j < k && self.on_layer(
                                #[trigger] self.adj(here as int, layer as int)[j] as int,
                                layer as int,
                            ) ==> self.score(*query, self.adj(here as int, layer as int)[j] as int)
                                <= best_dist,
                    decreases adj@.len() - k,
                {
                    let neighbor_id = adj[k];
                    assert(self.adj(here as int, layer as int)[k as int] == neighbor_id);
                    if neighbor_id < n && layer < self.nodes[neighbor_id].neighbors.len() {
                        let dist = D::calculate(query, &self.nodes[neighbor_id].vector);
                        if dist > best_dist {
                            best_dist = dist;
                            current_node = neighbor_id;
                            changed = true;
                        }
                    }
                    k = k + 1;
                }
            }
            proof {
                let q = *query;
                assert(current_node as int == self.round(q, here as int, layer as int));
                if changed {
                    assert(self.walk(q, here as int, layer as int) == self.walk(q, current_node as int, layer as int));
                } else {
                    assert(self.walk(q, here as int, layer as int) == here as int);
                }
            }
        }
        current_node
    }
    /// Best-first expansion on `layer` from `entry` toward `query`: takes the
    /// best-scoring queued candidate, and until `m` ids are taken queues its
    /// unseen layer-`layer` neighbours. Stops when the queue empties.
    pub fn find_neighbors_for_layer(&self, query: &V, entry: usize, layer: usize) -> (r: Vec<usize>)
        requires
            entry < self.nodes@.len(),
        ensures
            self.expansion_result(entry, layer, r@),
            forall|k: int| 0 < k < r@.len() ==> #[trigger] self.taken_best_first(*query, layer, r@, k),
    {
        let n = self.nodes.len();
        let cap: usize = if self.m == 0 {
            1
        } else {
            self.m
        };
        // per node: absent or 0 unseen, 1 queued, 2 taken; `st` mirrors it
        let mut state: HashMap<usize, u8> = HashMap::new();
        let ghost mut st: Seq<u8> = Seq::new(n as nat, |i: int| 0u8);
        let mut cand_ids: Vec<usize> = Vec::new();
        let mut cand_scores: Vec<i64> = Vec::new();
        let dist = D::calculate(query, &self.nodes[entry].vector);
        cand_ids.push(entry);
        cand_scores.push(dist);
        state.insert(entry, 1);
        proof {
            st = st.update(entry as int, 1);
        }
        let mut top_neighbors: Vec<usize> = Vec::new();
        assert(cand_ids@[0] == entry);
        loop
            invariant_except_break
                n == self.nodes@.len(),
                entry < n,
                cap == self.expand_cap(),
                st.len() == n,
                forall|y: usize| (y as int) < n ==> #[trigger] marker(state@, y) == st[y as int],
                cand_ids@.len() == cand_scores@.len(),
                forall|i: int|
                    0 <= i < cand_ids@.len() ==> (#[trigger] cand_ids@[i]) < n && st[cand_ids@[i] as int] >= 1,
                forall|i: int|
                    0 <= i < cand_ids@.len() ==> (#[trigger] cand_ids@[i]) == entry || self.on_layer(
                        cand_ids@[i] as int,
                        layer as int,
                    ),
                forall|y: int|
                    0 <= y < n && #[trigger] st[y] == 1 ==> exists|i: int|
                        0 <= i < cand_ids@.len() && #[trigger] cand_ids@[i] == y,
                forall|y: int| 0 <= y < n && #[trigger] st[y] == 2 ==> top_neighbors@.contains(y as usize),
                forall|y: int| 0 <= y < n ==> #[trigger] st[y] <= 2,
                forall|k: int|
                    0 <= k < top_neighbors@.len() ==> (#[trigger] top_neighbors@[k]) < n && st[top_neighbors@[k] as int] == 2,
                forall|k: int|
                    0 <= k < top_neighbors@.len() ==> (#[trigger] top_neighbors@[k]) == entry || self.on_layer(
                        top_neighbors@[k] as int,
                        layer as int,
                    ),
                top_neighbors@.no_duplicates(),
                top_neighbors@.len() > 0 ==> top_neighbors@[0] == entry,
                top_neighbors@.len() == 0 ==> cand_ids@ == seq![entry] && st[entry as int] == 1,
                forall|i: int| 0 <= i < cand_ids@.len() ==> #[trigger] cand_scores@[i] == self.score(*query, cand_ids@[i] as int),
                forall|k: int| 0 < k < top_neighbors@.len() ==> #[trigger] self.taken_best_first(*query, layer, top_neighbors@, k),
                forall|k: int|
                    0 < k < top_neighbors@.len() ==> self.linked_before(
                        top_neighbors@,
                        k,
                        #[trigger] top_neighbors@[k],
                        layer,
                    ),
                forall|i: int|
                    0 <= i < cand_ids@.len() && st[cand_ids@[i] as int] == 1 && top_neighbors@.len() > 0
                        ==> self.linked_before(
                        top_neighbors@,
                        top_neighbors@.len() as int,
                        #[trigger] cand_ids@[i],
                        layer,
                    ),
                top_neighbors@.len() < cap,
                forall|j: int, k: int|
                    0 <= j < top_neighbors@.len() && self.on_layer(top_neighbors@[j] as int, layer as int)
                        && 0 <= k < self.adj(top_neighbors@[j] as int, layer as int).len() && self.on_layer(
                        #[trigger] self.adj(top_neighbors@[j] as int, layer as int)[k] as int,
                        layer as int,
                    ) ==> st[self.adj(top_neighbors@[j] as int, layer as int)[k] as int] >= 1,
            ensures
                self.expansion_result(entry, layer, top_neighbors@),
                forall|k: int| 0 < k < top_neighbors@.len() ==> #[trigger] self.taken_best_first(*query, layer, top_neighbors@, k),
            decreases cap - top_neighbors@.len(),
        {
            // pop: the first queued candidate of highest score
            let mut best: usize = cand_ids.len();
            let mut j: usize = 0;
            while j < cand_ids.len()
                invariant
                    cand_ids@.len() == cand_scores@.len(),
                    st.len() == n,
                    forall|y: usize| (y as int) < n ==> #[trigger] marker(state@, y) == st[y as int],
                    forall|i: int| 0 <= i < cand_ids@.len() ==> (#[trigger] cand_ids@[i]) < n,
                    j <= cand_ids@.len(),
                    best == cand_ids@.len() || (best < j && st[cand_ids@[best as int] as int] == 1),
                    best == cand_ids@.len() ==> forall|i: int|
                        0 <= i < j ==> st[(#[trigger] cand_ids@[i]) as int] != 1,
                    best < cand_ids@.len() ==> forall|i: int|
                        0 <= i < j && st[(#[trigger] cand_ids@[i]) as int] == 1 ==> cand_scores@[i] <= cand_scores@[best as int],
                decreases cand_ids@.len() - j,
            {
                let c = cand_ids[j];
                if state_of(&state, c) == 1 && (best == cand_ids.len() || cand_scores[j] > cand_scores[best]) {
                    best = j;
                }
                j = j + 1;
            }
            if best == cand_ids.len() {
                proof {
                    assert forall|y: int| 0 <= y < n implies #[trigger] st[y] != 1 by {
                        if st[y] == 1 {
                            let i = choose|i: int| 0 <= i < cand_ids@.len() && #[trigger] cand_ids@[i] == y;
                            assert(st[cand_ids@[i] as int] != 1);
                        }
                    }
                }
                break;
            }
            let current = cand_ids[best];
            assert(!top_neighbors@.contains(current)) by {
                if top_neighbors@.contains(current) {
                    let k = choose|k: int| 0 <= k < top_neighbors@.len() && top_neighbors@[k] == current;
                    assert(st[top_neighbors@[k] as int] == 2);
                }
            }
            let ghost old_top = top_neighbors@;
            let ghost old_state = st;
            let ghost old_map = state@;
            state.insert(current, 2);
            proof {
                st = st.update(current as int, 2);
                assert forall|y: usize| (y as int) < n implies #[trigger] marker(state@, y) == st[y as int] by {
                    if y != current {
                        assert(marker(state@, y) == marker(old_map, y));
                    }
                }
            }
            top_neighbors.push(current);
            assert(top_neighbors@[top_neighbors@.len() - 1] == current);
            proof {
                let q = *query;
                let t = old_top.len() as int;
                assert forall|k: int| 0 < k < top_neighbors@.len() implies #[trigger] self.taken_best_first(
                    q,
                    layer,
                    top_neighbors@,
                    k,
                ) by {
                    if k < t {
                        assert(self.taken_best_first(q, layer, old_top, k));
                        self.lemma_best_first_prefix(q, layer, old_top, top_neighbors@, k);
                    } else {
                        assert forall|j: int, i: int|
                            0 <= j < k && self.on_layer(top_neighbors@[j] as int, layer as int) && 0 <= i < self.adj(
                                top_neighbors@[j] as int,
                                layer as int,
                            ).len() && self.on_layer(
                                #[trigger] self.adj(top_neighbors@[j] as int, layer as int)[i] as int,
                                layer as int,
                            ) && (forall|m: int| 0 <= m < k ==> top_neighbors@[m] != self.adj(top_neighbors@[j] as int, layer as int)[i])
                            implies self.score(q, top_neighbors@[k] as int) >= self.score(
                            q,
                            self.adj(top_neighbors@[j] as int, layer as int)[i] as int,
                        ) by {
                            let x = self.adj(top_neighbors@[j] as int, layer as int)[i];
                            assert(top_neighbors@[j] == old_top[j]);
                            assert(old_state[x as int] >= 1);
                            if old_state[x as int] == 2 {
                                assert(old_top.contains(x));
                                let m = choose|m: int| 0 <= m < old_top.len() && old_top[m] == x;
                                assert(top_neighbors@[m] == x);
                            }
                            let i2 = choose|i2: int| 0 <= i2 < cand_ids@.len() && #[trigger] cand_ids@[i2] == x as int;
                            assert(cand_scores@[i2] <= cand_scores@[best as int]);
                        }
                    }
                }
                if old_top.len() > 0 {
                    assert(st[cand_ids@[best as int] as int] == 2);
                    self.lemma_linked_kept(old_top, old_top.len() as int, current, layer, top_neighbors@, old_top.len() as int);
                }
                assert forall|k: int| 0 < k < top_neighbors@.len() implies self.linked_before(
                    top_neighbors@,
                    k,
                    #[trigger] top_neighbors@[k],
                    layer,
                ) by {
                    if k < old_top.len() {
                        assert(top_neighbors@[k] == old_top[k]);
                        self.lemma_linked_kept(old_top, k, old_top[k], layer, top_neighbors@, k);
                    }
                }
                assert forall|i: int|
                    0 <= i < cand_ids@.len() && st[cand_ids@[i] as int] == 1 implies self.linked_before(
                    top_neighbors@,
                    top_neighbors@.len() as int,
                    #[trigger] cand_ids@[i],
                    layer,
                ) by {
                    assert(old_state[cand_ids@[i] as int] == 1);
                    if old_top.len() == 0 {
                        assert(cand_ids@[i] == entry);
                    } else {
                        self.lemma_linked_kept(old_top, old_top.len() as int, cand_ids@[i], layer, top_neighbors@, top_neighbors@.len() as int);
                    }
                }
            }
            assert forall|y: int| 0 <= y < n && #[trigger] st[y] == 2 implies top_neighbors@.contains(
                y as usize,
            ) by {
                if y != current as int {
                    assert(old_state[y] == 2);
                    let k = choose|k: int| 0 <= k < old_top.len() && old_top[k] == y as usize;
                    assert(top_neighbors@[k] == y as usize);
                }
            }
            if top_neighbors.len() >= cap {
                break;
            }
            if layer < self.nodes[current].neighbors.len() {
                let adj = &self.nodes[current].neighbors[layer];
                let mut k: usize = 0;
                while k < adj.len()
                    invariant
                        n == self.nodes@.len(),
                        entry < n,
                        cap == self.expand_cap(),
                        current < n,
                        layer < self.nodes@[current as int].neighbors@.len(),
                        *adj == self.nodes@[current as int].neighbors@[layer as int],
                        k <= adj@.len(),
                        st.len() == n,
                        forall|y: usize| (y as int) < n ==> #[trigger] marker(state@, y) == st[y as int],
                        cand_ids@.len() == cand_scores@.len(),
                        forall|i: int|
                            0 <= i < cand_ids@.len() ==> (#[trigger] cand_ids@[i]) < n && st[cand_ids@[i] as int] >= 1,
                        forall|i: int|
                            0 <= i < cand_ids@.len() ==> (#[trigger] cand_ids@[i]) == entry || self.on_layer(
                                cand_ids@[i] as int,
                                layer as int,
                            ),
                        forall|y: int|
                            0 <= y < n && #[trigger] st[y] == 1 ==> exists|i: int|
                                0 <= i < cand_ids@.len() && #[trigger] cand_ids@[i] == y,
                        forall|y: int| 0 <= y < n && #[trigger] st[y] == 2 ==> top_neighbors@.contains(y as usize),
                        forall|y: int| 0 <= y < n ==> #[trigger] st[y] <= 2,
                        forall|i: int|
                            0 <= i < top_neighbors@.len() ==> (#[trigger] top_neighbors@[i]) < n && st[top_neighbors@[i] as int] == 2,
                        forall|i: int|
                            0 <= i < top_neighbors@.len() ==> (#[trigger] top_neighbors@[i]) == entry || self.on_layer(
                                top_neighbors@[i] as int,
                                layer as int,
                            ),
                        top_neighbors@.no_duplicates(),
                        forall|i: int|
                            0 < i < top_neighbors@.len() ==> self.linked_before(
                                top_neighbors@,
                                i,
                                #[trigger] top_neighbors@[i],
                                layer,
                            ),
                        forall|i: int|
                            0 <= i < cand_ids@.len() && st[cand_ids@[i] as int] == 1 ==> self.linked_before(
                                top_neighbors@,
                                top_neighbors@.len() as int,
                                #[trigger] cand_ids@[i],
                                layer,
                            ),
                        top_neighbors@.len() > 0,
                        top_neighbors@[0] == entry,
                        top_neighbors@[top_neighbors@.len() - 1] == current,
                        forall|i: int| 0 <= i < cand_ids@.len() ==> #[trigger] cand_scores@[i] == self.score(*query, cand_ids@[i] as int),
                        forall|i: int| 0 < i < top_neighbors@.len() ==> #[trigger] self.taken_best_first(*query, layer, top_neighbors@, i),
                        top_neighbors@.len() < cap,
                        forall|j: int, i: int|
                            0 <= j < top_neighbors@.len() - 1 && self.on_layer(top_neighbors@[j] as int, layer as int)
                                && 0 <= i < self.adj(top_neighbors@[j] as int, layer as int).len() && self.on_layer(
                                #[trigger] self.adj(top_neighbors@[j] as int, layer as int)[i] as int,
                                layer as int,
                            ) ==> st[self.adj(top_neighbors@[j] as int, layer as int)[i] as int] >= 1,
                        forall|i: int|
                            0 <= i < k && self.on_layer(#[trigger] adj@[i] as int, layer as int) ==> st[adj@[i] as int] >= 1,
                    decreases adj@.len() - k,
                {
                    let neighbor_id = adj[k];
                    if neighbor_id < n && layer < self.nodes[neighbor_id].neighbors.len() && state_of(&state, neighbor_id) == 0 {
                        let d = D::calculate(query, &self.nodes[neighbor_id].vector);
                        let ghost old_ids = cand_ids@;
                        let ghost old_state = st;
                        let ghost old_map = state@;
                        state.insert(neighbor_id, 1);
                        proof {
                            st = st.update(neighbor_id as int, 1);
                            assert forall|y: usize| (y as int) < n implies #[trigger] marker(state@, y) == st[y as int] by {
                                if y != neighbor_id {
                                    assert(marker(state@, y) == marker(old_map, y));
                                }
                            }
                        }
                        cand_ids.push(neighbor_id);
                        cand_scores.push(d);
                        assert(cand_ids@[cand_ids@.len() - 1] == neighbor_id);
                        proof {
                            let last = top_neighbors@.len() - 1;
                            assert(self.adj(top_neighbors@[last] as int, layer as int)[k as int] == neighbor_id);
                            assert(self.adj(top_neighbors@[last] as int, layer as int).contains(neighbor_id));
                            assert(self.linked_before(top_neighbors@, top_neighbors@.len() as int, neighbor_id, layer));
                            assert forall|i: int|
                                0 <= i < cand_ids@.len() && st[cand_ids@[i] as int] == 1 implies self.linked_before(
                                top_neighbors@,
                                top_neighbors@.len() as int,
                                #[trigger] cand_ids@[i],
                                layer,
                            ) by {
                                if i < old_ids.len() {
                                    assert(cand_ids@[i] == old_ids[i]);
                                    if cand_ids@[i] != neighbor_id {
                                        assert(old_state[old_ids[i] as int] == 1);
                                    }
                                }
                            }
                        }
                        assert forall|y: int| 0 <= y < n && #[trigger] st[y] == 1 implies exists|i: int|
                            0 <= i < cand_ids@.len() && #[trigger] cand_ids@[i] == y by {
                            if y != neighbor_id as int {
                                assert(old_state[y] == 1);
                                let i = choose|i: int| 0 <= i < old_ids.len() && #[trigger] old_ids[i] == y;
                                assert(cand_ids@[i] == y);
                            } else {
                                assert(cand_ids@[cand_ids@.len() - 1] == y);
                            }
                        }
                    }
                    k = k + 1;
                }
            }
        }
        top_neighbors
    }
    /// Cuts node `node_id`'s adjacency on `layer` back to the `m` neighbours
    /// closest to its own vector, closest first (ties keep their order). A
    /// list of at most `m` ids, or a node absent from the layer, is left alone.
    fn prune_neighbors(&mut self, node_id: usize, layer: usize)
        requires
            forall|k: int|
                old(self).on_layer(node_id as int, layer as int) && 0 <= k < old(self).adj(
                    node_id as int,
                    layer as int,
                ).len() ==> #[trigger] old(self).adj(node_id as int, layer as int)[k] < old(self).nodes@.len(),
        ensures
            final(self).m == old(self).m,
            final(self).entry_point == old(self).entry_point,
            final(self).max_layer == old(self).max_layer,
            final(self).nodes@.len() == old(self).nodes@.len(),
            forall|i: int|
                0 <= i < old(self).nodes@.len() && i != node_id ==> final(self).nodes@[i] == old(self).nodes@[i],
            old(self).on_layer(node_id as int, layer as int) ==> {
                let before = old(self).nodes@[node_id as int];
                let after = final(self).nodes@[node_id as int];
                &&& after.id == before.id
                &&& after.vector == before.vector
                &&& after.neighbors@.len() == before.neighbors@.len()
                &&& forall|l: int|
                    0 <= l < before.neighbors@.len() && l != layer ==> #[trigger] after.neighbors@[l]
                        == before.neighbors@[l]
                &&& before.neighbors@[layer as int]@.len() <= old(self).m ==> after.neighbors@[layer as int]
                    == before.neighbors@[layer as int]
                &&& before.neighbors@[layer as int]@.len() > old(self).m ==> final(self).keeps_closest(
                    node_id as int,
                    before.neighbors@[layer as int]@,
                    after.neighbors@[layer as int]@,
                )
            },
            !old(self).on_layer(node_id as int, layer as int) ==> *final(self) == *old(self),
            final(self).changes_only(*old(self), node_id as int, layer as int),
            old(self).on_layer(node_id as int, layer as int) ==> final(self).adj(node_id as int, layer as int).len() <= final(self).m,
            forall|k: int| 0 <= k < final(self).adj(node_id as int, layer as int).len() && old(self).on_layer(node_id as int, layer as int)
                ==> old(self).adj(node_id as int, layer as int).contains(#[trigger] final(self).adj(node_id as int, layer as int)[k]),
            old(self).edges_valid() ==> final(self).edges_valid(),
            old(self).on_layer(node_id as int, layer as int) && old(self).adj(node_id as int, layer as int).no_duplicates()
                ==> final(self).adj(node_id as int, layer as int).no_duplicates(),
    {
        if node_id >= self.nodes.len() || layer >= self.nodes[node_id].neighbors.len() {
            return;
        }
        let n = self.nodes.len();
        let len = self.nodes[node_id].neighbors[layer].len();
        if len <= self.m {
            return;
        }
        let ghost list = self.adj(node_id as int, layer as int);
        let mut scores: Vec<i64> = Vec::new();
        let mut taken: Vec<bool> = Vec::new();
        let mut k: usize = 0;
        while k < len
            invariant
                n == self.nodes@.len(),
                node_id < n,
                layer < self.nodes@[node_id as int].neighbors@.len(),
                list == self.adj(node_id as int, layer as int),
                len == list.len(),
                forall|j: int| 0 <= j < len ==> #[trigger] list[j] < n,
                k <= len,
                scores@.len() == k,
                taken@.len() == k,
                forall|j: int|
                    0 <= j < k ==> #[trigger] scores@[j] == self.affinity(node_id as int, list[j] as int),
                forall|j: int| 0 <= j < k ==> !(#[trigger] taken@[j]),
            decreases len - k,
        {
            let x = self.nodes[node_id].neighbors[layer][k];
            let sc = D::calculate(&self.nodes[node_id].vector, &self.nodes[x].vector);
            scores.push(sc);
            taken.push(false);
            k = k + 1;
        }
        let m = self.m;
        let mut kept: Vec<usize> = Vec::new();
        let ghost mut picks: Seq<int> = Seq::empty();
        assert(!taken@[0]);
        while kept.len() < m
            invariant
                n == self.nodes@.len(),
                node_id < n,
                layer < self.nodes@[node_id as int].neighbors@.len(),
                list == self.adj(node_id as int, layer as int),
                len == list.len(),
                m == self.m,
                m < len,
                scores@.len() == len,
                taken@.len() == len,
                forall|j: int|
                    0 <= j < len ==> #[trigger] scores@[j] == self.affinity(node_id as int, list[j] as int),
                kept@.len() <= m,
                picks.len() == kept@.len(),
                forall|t: int|
                    0 <= t < picks.len() ==> 0 <= #[trigger] picks[t] < len && taken@[picks[t]]
                        && kept@[t] == list[picks[t]],
                picks.no_duplicates(),
                forall|t: int, u: int|
                    0 <= t < u < picks.len() ==> Self::ranks_before(scores@, #[trigger] picks[t], #[trigger] picks[u]),
                forall|j: int, t: int|
                    0 <= j < len && !#[trigger] taken@[j] && 0 <= t < picks.len() ==> Self::ranks_before(
                        scores@,
                        #[trigger] picks[t],
                        j,
                    ),
                forall|j: int|
                    0 <= j < len && #[trigger] taken@[j] ==> kept@.contains(list[j]),
                forall|j: int| 0 <= j < len && #[trigger] taken@[j] ==> picks.contains(j),
                kept@.len() < m ==> exists|j: int| 0 <= j < len && !(#[trigger] taken@[j]),
            decreases m - kept@.len(),
        {
            let mut best: usize = len;
            let mut j: usize = 0;
            while j < len
                invariant
                    len == scores@.len(),
                    len == taken@.len(),
                    j <= len,
                    best == len || (best < j && !taken@[best as int]),
                    best < len ==> forall|i: int|
                        0 <= i < j && !(#[trigger] taken@[i]) && i != best ==> Self::ranks_before(
                            scores@,
                            best as int,
                            i,
                        ),
                    best == len ==> forall|i: int| 0 <= i < j ==> #[trigger] taken@[i],
                decreases len - j,
            {
                if !taken[j] && (best == len || scores[j] > scores[best]) {
                    best = j;
                }
                j = j + 1;
            }
            assert(best < len);
            let x = self.nodes[node_id].neighbors[layer][best];
            let ghost old_taken = taken@;
            let ghost old_kept = kept@;
            let ghost old_picks = picks;
            taken.set(best, true);
            kept.push(x);
            proof {
                assert(!picks.contains(best as int)) by {
                    if picks.contains(best as int) {
                        let t = choose|t: int| 0 <= t < picks.len() && picks[t] == best as int;
                        assert(old_taken[picks[t]]);
                    }
                }
                picks = picks.push(best as int);
                assert(picks[picks.len() - 1] == best as int);
                assert forall|t: int, u: int|
                    0 <= t < u < picks.len() implies Self::ranks_before(scores@, #[trigger] picks[t], #[trigger] picks[u]) by {
                    if u == picks.len() - 1 {
                        assert(picks[t] == old_picks[t]);
                    } else {
                        assert(picks[t] == old_picks[t] && picks[u] == old_picks[u]);
                    }
                }
                assert forall|j: int, t: int|
                    0 <= j < len && !#[trigger] taken@[j] && 0 <= t < picks.len() implies Self::ranks_before(
                    scores@,
                    #[trigger] picks[t],
                    j,
                ) by {
                    assert(!old_taken[j]);
                    if t < old_picks.len() {
                        assert(picks[t] == old_picks[t]);
                    }
                }
                assert(kept@[kept@.len() - 1] == x);
                assert forall|i: int| 0 <= i < len && #[trigger] taken@[i] implies kept@.contains(
                    list[i],
                ) by {
                    if i != best as int {
                        assert(old_taken[i]);
                        assert(old_kept.contains(list[i]));
                        let t = choose|t: int| 0 <= t < old_kept.len() && old_kept[t] == list[i];
                        assert(kept@[t] == list[i]);
                    }
                }
                assert forall|i: int| 0 <= i < len && #[trigger] taken@[i] implies picks.contains(i) by {
                    if i != best as int {
                        assert(old_taken[i]);
                        let t = choose|t: int| 0 <= t < old_picks.len() && old_picks[t] == i;
                        assert(picks[t] == i);
                    } else {
                        assert(picks[picks.len() - 1] == i);
                    }
                }
                if kept@.len() < m {
                    if forall|i: int| 0 <= i < len ==> #[trigger] taken@[i] {
                        assert forall|i: int| 0 <= i < len implies picks.contains(i) by {
                            assert(taken@[i]);
                        }
                        lemma_cover_needs_length(picks, len as int);
                        assert(false);
                    }
                }
            }
        }
        let ghost pre = self.nodes@;
        let ghost kept_view = kept@;
        proof {
            assert(scores@ =~= self.list_scores(node_id as int, list));
            assert forall|j: int| 0 <= j < len && !picks.contains(j) implies !taken@[j] by {}
            assert(self.closest_positions(node_id as int, list, kept_view, picks));
            assert forall|t: int| 0 <= t < kept_view.len() implies #[trigger] kept_view[t] < n by {
                assert(list[picks[t]] == kept_view[t]);
            }
        }
        self.nodes[node_id].neighbors[layer] = kept;
        assert(self.nodes@.len() == pre.len());
        assert forall|i: int| 0 <= i < pre.len() implies #[trigger] self.nodes@[i].vector == pre[i].vector by {}
        assert(self.adj(node_id as int, layer as int) == kept_view);
        assert forall|x: int| 0 <= x < n implies #[trigger] self.affinity(node_id as int, x) == D::similarity(
            pre[node_id as int].vector,
            pre[x].vector,
        ) by {}
        assert(self.list_scores(node_id as int, list) =~= scores@);
        assert(list.no_duplicates() ==> kept_view.no_duplicates()) by {
            if list.no_duplicates() {
                assert forall|t: int, u: int| 0 <= t < u < kept_view.len() implies kept_view[t] != kept_view[u] by {
                    assert(picks[t] != picks[u]);
                }
            }
        }
        assert(self.closest_positions(node_id as int, list, kept_view, picks));
        assert forall|t: int| 0 <= t < kept_view.len() implies list.contains(#[trigger] kept_view[t]) by {
            assert(list[picks[t]] == kept_view[t]);
        }
        proof {
            let post = *self;
            assert(self.nodes@[node_id as int].neighbors@.len() == pre[node_id as int].neighbors@.len());
            assert forall|i: int, l: int|
                self.on_layer(i, l) && !(i == node_id && l == layer) implies #[trigger] self.adj(i, l) == old(self).adj(i, l) by {
            }
            if old(self).edges_valid() {
                assert forall|i: int, l: int, k: int|
                    post.on_layer(i, l) && 0 <= k < post.adj(i, l).len() implies old(self).adj(i, l).contains(
                        #[trigger] post.adj(i, l)[k],
                    ) || (post.on_layer(post.adj(i, l)[k] as int, l) && post.adj(i, l)[k] != i) by {
                    if !(i == node_id && l == layer) {
                        assert(post.adj(i, l) == old(self).adj(i, l));
                        assert(old(self).adj(i, l)[k] == post.adj(i, l)[k]);
                    }
                }
                Self::lemma_edges_kept(*old(self), post);
            }
        }
    }
    /// Appends `to` to node `from`'s adjacency on `layer`.
    fn add_edge(&mut self, from: usize, to: usize, layer: usize)
        requires
            old(self).on_layer(from as int, layer as int),
        ensures
            final(self).m == old(self).m,
            final(self).entry_point == old(self).entry_point,
            final(self).max_layer == old(self).max_layer,
            final(self).nodes@.len() == old(self).nodes@.len(),
            forall|i: int|
                0 <= i < old(self).nodes@.len() && i != from ==> final(self).nodes@[i] == old(self).nodes@[i],
            final(self).nodes@[from as int].id == old(self).nodes@[from as int].id,
            final(self).nodes@[from as int].vector == old(self).nodes@[from as int].vector,
            final(self).nodes@[from as int].neighbors@.len() == old(self).nodes@[from as int].neighbors@.len(),
            forall|l: int|
                0 <= l < old(self).nodes@[from as int].neighbors@.len() && l != layer ==> final(self).adj(from as int, l) == old(self).adj(from as int, l),
            final(self).adj(from as int, layer as int) == old(self).adj(from as int, layer as int).push(
                to,
            ),
            final(self).changes_only(*old(self), from as int, layer as int),
            old(self).edges_valid() && old(self).on_layer(to as int, layer as int) && to != from
                ==> final(self).edges_valid(),
    {
        self.nodes[from].neighbors[layer].push(to);
        proof {
            let post = *self;
            assert forall|i: int, l: int|
                post.on_layer(i, l) && !(i == from && l == layer) implies #[trigger] post.adj(i, l) == old(self).adj(i, l) by {
            }
            if old(self).edges_valid() && old(self).on_layer(to as int, layer as int) && to != from {
                assert forall|i: int, l: int, k: int|
                    post.on_layer(i, l) && 0 <= k < post.adj(i, l).len() implies old(self).adj(i, l).contains(
                        #[trigger] post.adj(i, l)[k],
                    ) || (post.on_layer(post.adj(i, l)[k] as int, l) && post.adj(i, l)[k] != i) by {
                    if !(i == from && l == layer) {
                        assert(post.adj(i, l) == old(self).adj(i, l));
                        assert(old(self).adj(i, l)[k] == post.adj(i, l)[k]);
                    } else if k < old(self).adj(i, l).len() {
                        assert(old(self).adj(i, l)[k] == post.adj(i, l)[k]);
                    }
                }
                Self::lemma_edges_kept(*old(self), post);
            }
        }
    }

    /// Links the new node `id` and node `nid` both ways on `layer`, then
    /// prunes `nid` there.
    fn link(
        &mut self,
        id: usize,
        nid: usize,
        layer: usize,
        pre: Ghost<Seq<VectorNode<V>>>,
        vector: Ghost<V>,
        target_layer: usize,
        base: Ghost<Self>,
    )
        requires
            old(self).growing(pre@, vector@, target_layer),
            base@.growing(pre@, vector@, target_layer),
            base@.m == old(self).m,
            id == pre@.len(),
            layer <= target_layer,
            nid != id,
            old(self).on_layer(nid as int, layer as int),
        ensures
            final(self).growing(pre@, vector@, target_layer),
            final(self).m == old(self).m,
            final(self).entry_point == old(self).entry_point,
            final(self).max_layer == old(self).max_layer,
            final(self).adj(id as int, layer as int) == old(self).adj(id as int, layer as int).push(nid),
            base@.pushed_pruned(
                nid as int,
                old(self).adj(nid as int, layer as int),
                id,
                final(self).adj(nid as int, layer as int),
            ),
            forall|i: int, l: int|
                final(self).on_layer(i, l) && !(i == nid && l == layer) && !(i == id && l == layer)
                    ==> #[trigger] final(self).adj(i, l) == old(self).adj(i, l),
            old(self).lists_distinct() && !old(self).adj(id as int, layer as int).contains(nid) && !old(
                self,
            ).adj(nid as int, layer as int).contains(id) ==> final(self).lists_distinct(),
    {
        let ghost s0 = *self;
        self.add_edge(id, nid, layer);
        let ghost s1 = *self;
        proof {
            Self::lemma_growing_kept(s0, s1, id as int, layer as int, pre@, vector@, target_layer);
        }
        self.add_edge(nid, id, layer);
        let ghost s2 = *self;
        self.prune_neighbors(nid, layer);
        proof {
            Self::lemma_changes_chain(s1, s2, *self, nid as int, layer as int);
            Self::lemma_growing_kept(s1, *self, nid as int, layer as int, pre@, vector@, target_layer);
            assert(self.on_layer(id as int, layer as int));
            assert(s1.on_layer(id as int, layer as int));
            assert(self.adj(id as int, layer as int) == s1.adj(id as int, layer as int));
            assert(s1.on_layer(nid as int, layer as int));
            assert(s1.adj(nid as int, layer as int) == s0.adj(nid as int, layer as int));
            assert forall|j: int| 0 <= j < s2.adj(nid as int, layer as int).len() implies #[trigger] s2.adj(
                nid as int,
                layer as int,
            )[j] < self.nodes@.len() by {
                assert(s2.on_layer(s2.adj(nid as int, layer as int)[j] as int, layer as int));
            }
            assert forall|j: int| 0 <= j < s0.adj(nid as int, layer as int).len() implies #[trigger] s0.adj(
                nid as int,
                layer as int,
            )[j] < self.nodes@.len() by {
                assert(s0.on_layer(s0.adj(nid as int, layer as int)[j] as int, layer as int));
            }
            Self::lemma_keeps_transfer(
                *self,
                base@,
                pre@,
                vector@,
                target_layer,
                nid as int,
                s0.adj(nid as int, layer as int),
                id,
                self.adj(nid as int, layer as int),
            );
            assert forall|i: int, l: int|
                self.on_layer(i, l) && !(i == nid && l == layer) && !(i == id && l == layer)
                    implies #[trigger] self.adj(i, l) == s0.adj(i, l) by {
                assert(s2.on_layer(i, l));
                assert(s1.on_layer(i, l));
            }
            if s0.lists_distinct() && !s0.adj(id as int, layer as int).contains(nid) && !s0.adj(
                nid as int,
                layer as int,
            ).contains(id) {
                assert(s0.on_layer(nid as int, layer as int));
                assert(s0.on_layer(id as int, layer as int));
                assert(s2.adj(nid as int, layer as int).no_duplicates()) by {
                    let a = s2.adj(nid as int, layer as int);
                    assert forall|t: int, u: int| 0 <= t < u < a.len() implies a[t] != a[u] by {
                        if u == a.len() - 1 {
                            assert(a[t] == s0.adj(nid as int, layer as int)[t]);
                        }
                    }
                }
                assert forall|i: int, l: int| #[trigger] self.on_layer(i, l) implies self.adj(i, l).no_duplicates() by {
                    if i == id && l == layer {
                        let a = self.adj(i, l);
                        assert forall|t: int, u: int| 0 <= t < u < a.len() implies a[t] != a[u] by {
                            if u == a.len() - 1 {
                                assert(a[t] == s0.adj(id as int, layer as int)[t]);
                            }
                        }
                    } else if !(i == nid && l == layer) {
                        assert(s0.on_layer(i, l));
                    }
                }
            }
        }
    }

    /// Answers a query: descends greedily from the entry point through
    /// layers `max_layer` down to 1, then returns the greedy result on
    /// layer 0; nothing when the index is empty.
    pub fn discover_nearest(&self, query: &V) -> (r: Option<usize>)
        requires
            self.wf(),
        ensures
            self.nearest_result(*query, r),
            r == match self.entry_point {
                None => None,
                Some(e) => Some(self.descend(*query, e as int, self.max_layer as int) as usize),
            },
    {
        let entry = match self.entry_point {
            None => {
                return None;
            },
            Some(e) => e,
        };
        let mut current_entry = entry;
        let mut layer = self.max_layer;
        while layer > 0
            invariant
                self.wf(),
                self.entry_point == Some(entry),
                current_entry < self.nodes@.len(),
                self.score(*query, current_entry as int) >= self.score(*query, entry as int),
                layer <= self.max_layer,
                self.descend(*query, current_entry as int, layer as int) == self.descend(
                    *query,
                    entry as int,
                    self.max_layer as int,
                ),
            decreases layer,
        {
            current_entry = self.search_layer(query, current_entry, layer);
            layer = layer - 1;
        }
        Some(self.search_layer(query, current_entry, 0))
    }

    /// Whether the index is well formed, as a decoded snapshot must be
    /// before it is queried or grown.
    pub fn is_well_formed(&self) -> (r: bool)
        ensures
            r == self.wf(),
    {
        let n = self.nodes.len();
        let entry_ok = match self.entry_point {
            None => n == 0 && self.max_layer == 0,
            Some(e) => e < n && self.nodes[e].neighbors.len() > 0 && self.nodes[e].neighbors.len()
                - 1 == self.max_layer,
        };
        if !entry_ok {
            return false;
        }
        let mut i: usize = 0;
        while i < n
            invariant
                n == self.nodes@.len(),
                i <= n,
                forall|j: int| 0 <= j < i ==> #[trigger] self.node_ok(j),
            decreases n - i,
        {
            if !self.check_node(i) {
                proof {
                    self.lemma_wf_nodes();
                }
                return false;
            }
            i = i + 1;
        }
        proof {
            self.lemma_wf_nodes();
        }
        true
    }

    /// `wf` holds exactly when the entry point is valid and every node is.
    proof fn lemma_wf_nodes(&self)
        ensures
            self.wf() == (self.entry_valid() && forall|i: int|
                0 <= i < self.nodes@.len() ==> #[trigger] self.node_ok(i)),
    {
        if self.wf() {
            assert forall|i: int| 0 <= i < self.nodes@.len() implies #[trigger] self.node_ok(i) by {
                assert(self.nodes@[i].id == i);
                assert(1 <= self.nodes@[i].neighbors@.len() <= self.max_layer + 1);
                assert forall|l: int| 0 <= l < self.nodes@[i].neighbors@.len() implies self.layer_ok(i, l) by {
                    assert(self.on_layer(i, l));
                    assert forall|k: int| 0 <= k < self.adj(i, l).len() implies self.on_layer(
                        #[trigger] self.adj(i, l)[k] as int,
                        l,
                    ) && self.adj(i, l)[k] != i by {}
                }
            }
        }
        if self.entry_valid() && forall|i: int| 0 <= i < self.nodes@.len() ==> #[trigger] self.node_ok(i) {
            assert forall|i: int| 0 <= i < self.nodes@.len() implies (#[trigger] self.nodes@[i]).id == i by {
                assert(self.node_ok(i));
            }
            assert forall|i: int| 0 <= i < self.nodes@.len() implies 1 <= (
            #[trigger] self.nodes@[i]).neighbors@.len() <= self.max_layer + 1 by {
                assert(self.node_ok(i));
            }
            assert forall|i: int, l: int, k: int|
                self.on_layer(i, l) && 0 <= k < self.adj(i, l).len() implies {
                let x = #[trigger] self.adj(i, l)[k] as int;
                &&& self.on_layer(x, l)
                &&& x != i
            } by {
                assert(self.node_ok(i));
                assert(self.layer_ok(i, l));
            }
            assert forall|i: int, l: int| #[trigger]
                self.on_layer(i, l) implies self.adj(i, l).len() <= self.m by {
                assert(self.node_ok(i));
                assert(self.layer_ok(i, l));
            }
        }
    }

    fn check_node(&self, i: usize) -> (r: bool)
        requires
            i < self.nodes@.len(),
        ensures
            r == self.node_ok(i as int),
    {
        let n = self.nodes.len();
        let node = &self.nodes[i];
        let layers = node.neighbors.len();
        if node.id != i || layers == 0 || layers - 1 > self.max_layer {
            return false;
        }
        let mut l: usize = 0;
        while l < layers
            invariant
                n == self.nodes@.len(),
                i < n,
                *node == self.nodes@[i as int],
                layers == node.neighbors@.len(),
                l <= layers,
                forall|j: int| 0 <= j < l ==> self.layer_ok(i as int, j),
            decreases layers - l,
        {
            let adj = &node.neighbors[l];
            if adj.len() > self.m {
                assert(!self.layer_ok(i as int, l as int));
                return false;
            }
            let mut k: usize = 0;
            while k < adj.len()
                invariant
                    n == self.nodes@.len(),
                    i < n,
                    *node == self.nodes@[i as int],
                    l < layers,
                    layers == node.neighbors@.len(),
                    *adj == node.neighbors@[l as int],
                    k <= adj@.len(),
                    forall|j: int|
                        0 <= j < k ==> self.on_layer(#[trigger] self.adj(i as int, l as int)[j] as int, l as int)
                            && self.adj(i as int, l as int)[j] != i,
                decreases adj@.len() - k,
            {
                let x = adj[k];
                if x >= n || l >= self.nodes[x].neighbors.len() || x == i {
                    assert(self.adj(i as int, l as int)[k as int] == x);
                    assert(!self.layer_ok(i as int, l as int));
                    return false;
                }
                k = k + 1;
            }
            l = l + 1;
        }
        true
    }

    /// Adds `vector` as node `nodes.len()` with top layer `target_layer`:
    /// descends greedily from the entry point to `target_layer + 1`, then on
    /// each layer from `min(target_layer, max_layer)` down to 0 links the new
    /// node both ways to the expander's candidates, pruning any neighbour
    /// that overflows, and moves the cursor greedily. The new node becomes
    /// the entry point when the index was empty or it rises above
    /// `max_layer`; its own lists are pruned last.
    pub fn insert(&mut self, vector: V, target_layer: usize)
        requires
            old(self).wf(),
            target_layer < usize::MAX,
        ensures
            final(self).wf(),
            final(self).m == old(self).m,
            final(self).nodes@.len() == old(self).nodes@.len() + 1,
            final(self).keeps_nodes(old(self).nodes@),
            final(self).nodes@[old(self).nodes@.len() as int].id == old(self).nodes@.len(),
            final(self).nodes@[old(self).nodes@.len() as int].vector == vector,
            final(self).nodes@[old(self).nodes@.len() as int].neighbors@.len() == target_layer + 1,
            old(self).entry_point is None || target_layer > old(self).max_layer ==> final(self).entry_point == Some(old(self).nodes@.len() as usize) && final(self).max_layer == target_layer,
            !(old(self).entry_point is None || target_layer > old(self).max_layer) ==> final(self).entry_point == old(self).entry_point && final(self).max_layer == old(self).max_layer,
            final(self).old_lists_wired(
                *final(self),
                *old(self),
                old(self).nodes@.len() as usize,
                0,
                old(self).wired_top(target_layer),
            ),
            final(self).new_list_wired(
                *final(self),
                *old(self),
                old(self).nodes@.len() as usize,
                target_layer,
                0,
                old(self).wired_top(target_layer),
            ),
            old(self).nodes@.len() > 0 && old(self).m > 0 ==> final(self).adj(
                old(self).nodes@.len() as int,
                old(self).wired_top(target_layer),
            ).len() > 0,
            old(self).lists_distinct() ==> final(self).lists_distinct(),
    {
        let ghost pre = self.nodes@;
        let ghost top = old(self).wired_top(target_layer);
        let ghost v = vector;
        let id = self.nodes.len();
        let new_node = VectorNode::new(id, vector, target_layer);
        self.nodes.push(new_node);
        assert(self.nodes@[id as int].neighbors@.len() == target_layer + 1);
        assert forall|i: int, l: int, k: int|
            self.on_layer(i, l) && 0 <= k < self.adj(i, l).len() implies {
            let x = #[trigger] self.adj(i, l)[k] as int;
            &&& self.on_layer(x, l)
            &&& x != i
        } by {
            if i < id {
                assert(self.nodes@[i] == old(self).nodes@[i]);
                assert(self.adj(i, l) == old(self).adj(i, l));
                assert(old(self).on_layer(i, l));
                let x = old(self).adj(i, l)[k];
                assert(old(self).on_layer(x as int, l));
                assert(self.nodes@[x as int] == old(self).nodes@[x as int]);
            }
        }
        assert(self.degree_bounded_except(id as int)) by {
            assert forall|i: int, l: int| #[trigger]
                self.on_layer(i, l) && i != id implies self.adj(i, l).len() <= self.m by {
                assert(self.nodes@[i] == old(self).nodes@[i]);
                assert(old(self).on_layer(i, l));
            }
        }
        assert forall|i: int| 0 <= i < self.nodes@.len() implies (#[trigger] self.nodes@[i]).id == i by {
            if i < id {
                assert(self.nodes@[i] == old(self).nodes@[i]);
            }
        }
        assert forall|i: int| 0 <= i < pre.len() implies {
            &&& (#[trigger] self.nodes@[i]).id == pre[i].id
            &&& self.nodes@[i].vector == pre[i].vector
            &&& self.nodes@[i].neighbors@.len() == pre[i].neighbors@.len()
        } by {
            assert(self.nodes@[i] == pre[i]);
        }
        assert(self.growing(pre, v, target_layer));
        let ghost base = *self;
        proof {
            if old(self).lists_distinct() {
                assert forall|i: int, l: int| #[trigger] self.on_layer(i, l) implies self.adj(i, l).no_duplicates() by {
                    if i < id {
                        assert(self.nodes@[i] == old(self).nodes@[i]);
                        assert(old(self).on_layer(i, l));
                    }
                }
            }
            assert forall|k: int, l: int| 0 <= k < id && #[trigger] old(self).on_layer(k, l) implies self.adj(k, l)
                == old(self).adj(k, l) by {
                assert(self.nodes@[k] == old(self).nodes@[k]);
            }
            assert(self.old_lists_wired(base, *old(self), id, top + 1, top));
            assert(self.new_list_wired(base, *old(self), id, target_layer, top + 1, top));
            assert forall|i: int, l: int, k: int|
                self.on_layer(i, l) && 0 <= k < self.adj(i, l).len() implies #[trigger] self.adj(i, l)[k] < id by {
                if i < id {
                    assert(self.nodes@[i] == old(self).nodes@[i]);
                    assert(old(self).on_layer(i, l));
                    assert(old(self).on_layer(old(self).adj(i, l)[k] as int, l));
                }
            }
        }
        if let Some(entry) = self.entry_point {
            let mut cursor = entry;
            let mut layer = self.max_layer;
            while layer > target_layer
                invariant
                    self.nodes@.len() == id + 1,
                    cursor < id + 1,
                    self.on_layer(cursor as int, layer as int),
                    layer <= self.max_layer,
                    layer == self.max_layer || layer >= target_layer,
                    self.growing(pre, v, target_layer),
                    *self == base,
                    cursor < id,
                    old(self).lists_distinct() ==> self.lists_distinct(),
                    forall|i: int, l: int, k: int|
                        self.on_layer(i, l) && 0 <= k < self.adj(i, l).len() ==> #[trigger] self.adj(i, l)[k] < id,
                decreases layer,
            {
                cursor = self.search_layer(&self.nodes[id].vector, cursor, layer);
                layer = layer - 1;
            }
            let start_layer = if target_layer < self.max_layer {
                target_layer
            } else {
                self.max_layer
            };
            let mut next = start_layer + 1;
            while next > 0
                invariant
                    next <= start_layer + 1,
                    start_layer <= target_layer,
                    start_layer <= self.max_layer,
                    id == pre.len(),
                    cursor < id + 1,
                    next > 0 ==> self.on_layer(cursor as int, next - 1),
                    self.growing(pre, v, target_layer),
                    base.growing(pre, v, target_layer),
                    base.m == self.m,
                    self.old_lists_wired(base, *old(self), id, next as int, start_layer as int),
                    self.new_list_wired(base, *old(self), id, target_layer, next as int, start_layer as int),
                    start_layer as int == top,
                    pre == old(self).nodes@,
                    next == start_layer + 1 ==> cursor < id,
                    old(self).wf(),
                    old(self).lists_distinct() ==> self.lists_distinct(),
                    next <= start_layer ==> self.adj(id as int, start_layer as int).len() > 0,
                    self.entry_point == Some(entry),
                    self.max_layer == old(self).max_layer,
                    self.m == old(self).m,
                    entry < id,
                    pre[entry as int].neighbors@.len() == self.max_layer + 1,
                    forall|i: int|
                        0 <= i < id ==> 1 <= (#[trigger] pre[i]).neighbors@.len() <= self.max_layer + 1,
                decreases next,
            {
                let layer = next - 1;
                let neighbor_candidates = self.find_neighbors_for_layer(
                    &self.nodes[id].vector,
                    cursor,
                    layer,
                );
                let mut k: usize = 0;
                while k < neighbor_candidates.len()
                    invariant
                        layer <= start_layer,
                        start_layer <= target_layer,
                        id == pre.len(),
                        cursor < id + 1,
                        self.on_layer(cursor as int, layer as int),
                        self.growing(pre, v, target_layer),
                        base.growing(pre, v, target_layer),
                        base.m == self.m,
                        self.old_lists_wired(base, *old(self), id, layer as int, start_layer as int),
                        self.new_list_wired(base, *old(self), id, target_layer, layer as int, start_layer as int),
                        start_layer as int == top,
                        pre == old(self).nodes@,
                        layer + 1 == next,
                        old(self).wf(),
                        old(self).lists_distinct() ==> self.lists_distinct(),
                        forall|j: int|
                            0 <= j < self.adj(id as int, layer as int).len() ==> exists|m: int|
                                0 <= m < k && neighbor_candidates@[m] == #[trigger] self.adj(id as int, layer as int)[j],
                        neighbor_candidates@.no_duplicates(),
                        neighbor_candidates@.len() >= 1,
                        neighbor_candidates@[0] == cursor,
                        next == start_layer + 1 ==> cursor < id,
                        layer < start_layer ==> self.adj(id as int, start_layer as int).len() > 0,
                        layer == start_layer && k > 0 ==> self.adj(id as int, start_layer as int).len() > 0,
                        forall|x: int|
                            0 <= x < id && old(self).on_layer(x, layer as int) && (forall|j: int|
                                0 <= j < k ==> neighbor_candidates@[j] != x) ==> #[trigger] self.adj(x, layer as int)
                                == old(self).adj(x, layer as int),
                        self.entry_point == Some(entry),
                        self.max_layer == old(self).max_layer,
                        self.m == old(self).m,
                        entry < id,
                        pre[entry as int].neighbors@.len() == self.max_layer + 1,
                        forall|i: int|
                            0 <= i < id ==> 1 <= (#[trigger] pre[i]).neighbors@.len() <= self.max_layer + 1,
                    decreases neighbor_candidates@.len() - k,
                {
                    let nid = neighbor_candidates[k];
                    if nid != id && nid < self.nodes.len() && layer < self.nodes[nid].neighbors.len() {
                        let ghost s0 = *self;
                        proof {
                            assert forall|j: int| 0 <= j < k implies neighbor_candidates@[j] != nid as int by {
                                assert(neighbor_candidates@[j] != neighbor_candidates@[k as int]);
                            }
                            assert(nid < id);
                            assert(pre[nid as int] == old(self).nodes@[nid as int]);
                            assert(old(self).nodes@[nid as int].neighbors@.len() == self.nodes@[nid as int].neighbors@.len());
                            assert(old(self).on_layer(nid as int, layer as int));
                            assert(s0.adj(nid as int, layer as int) == old(self).adj(nid as int, layer as int));
                            assert(!s0.adj(id as int, layer as int).contains(nid)) by {
                                if s0.adj(id as int, layer as int).contains(nid) {
                                    let j = choose|j: int| 0 <= j < s0.adj(id as int, layer as int).len() && s0.adj(id as int, layer as int)[j] == nid;
                                    let m = choose|m: int| 0 <= m < k && neighbor_candidates@[m] == #[trigger] s0.adj(id as int, layer as int)[j];
                                    assert(neighbor_candidates@[m] != neighbor_candidates@[k as int]);
                                }
                            }
                            assert(!s0.adj(nid as int, layer as int).contains(id)) by {
                                if s0.adj(nid as int, layer as int).contains(id) {
                                    let j = choose|j: int| 0 <= j < old(self).adj(nid as int, layer as int).len() && old(self).adj(nid as int, layer as int)[j] == id;
                                    assert(old(self).wf());
                                    assert(old(self).on_layer(nid as int, layer as int));
                                    assert(old(self).on_layer(old(self).adj(nid as int, layer as int)[j] as int, layer as int));
                                }
                            }
                        }
                        self.link(id, nid, layer, Ghost(pre), Ghost(v), target_layer, Ghost(base));
                        proof {
                            let o = *old(self);
                            assert forall|x: int, l: int| 0 <= x < id && #[trigger] o.on_layer(x, l) implies {
                                &&& (l < layer || l > start_layer) ==> self.adj(x, l) == o.adj(x, l)
                                &&& self.adj(x, l) == o.adj(x, l) || base.pushed_pruned(x, o.adj(x, l), id, self.adj(x, l))
                            } by {
                                assert(o.nodes@[x].neighbors@.len() == self.nodes@[x].neighbors@.len());
                                if !(x == nid && l == layer) {
                                    assert(self.adj(x, l) == s0.adj(x, l));
                                }
                            }
                            assert forall|l: int|
                                0 <= l <= target_layer && (l < layer || l > start_layer) implies #[trigger] self.adj(id as int, l).len() == 0 by {
                                assert(self.on_layer(id as int, l));
                                assert(self.adj(id as int, l) == s0.adj(id as int, l));
                            }
                            assert forall|l: int, j: int|
                                0 <= l <= target_layer && 0 <= j < self.adj(id as int, l).len() implies {
                                let b = #[trigger] self.adj(id as int, l)[j];
                                &&& b < id
                                &&& base.pushed_pruned(b as int, o.adj(b as int, l), id, self.adj(b as int, l))
                            } by {
                                let b = self.adj(id as int, l)[j];
                                assert(self.on_layer(id as int, l));
                                if l != layer {
                                    assert(self.adj(id as int, l) == s0.adj(id as int, l));
                                    assert(s0.adj(id as int, l)[j] == b);
                                } else if j < s0.adj(id as int, l).len() {
                                    assert(s0.adj(id as int, l)[j] == b);
                                }
                                if !(b == nid && l == layer) {
                                    assert(self.on_layer(b as int, l));
                                    assert(self.adj(b as int, l) == s0.adj(b as int, l));
                                }
                            }
                            assert forall|x: int|
                                0 <= x < id && o.on_layer(x, layer as int) && (forall|j: int|
                                    0 <= j < k + 1 ==> neighbor_candidates@[j] != x) implies #[trigger] self.adj(x, layer as int)
                                    == o.adj(x, layer as int) by {
                                assert(neighbor_candidates@[k as int] != x);
                                assert(self.on_layer(x, layer as int));
                                assert(forall|j: int| 0 <= j < k ==> neighbor_candidates@[j] != x);
                                assert(self.adj(x, layer as int) == s0.adj(x, layer as int));
                            }
                            assert forall|j: int|
                                0 <= j < self.adj(id as int, layer as int).len() implies exists|m: int|
                                    0 <= m < k + 1 && neighbor_candidates@[m] == #[trigger] self.adj(id as int, layer as int)[j] by {
                                if j < s0.adj(id as int, layer as int).len() {
                                    assert(self.adj(id as int, layer as int)[j] == s0.adj(id as int, layer as int)[j]);
                                    let m = choose|m: int| 0 <= m < k && neighbor_candidates@[m] == #[trigger] s0.adj(id as int, layer as int)[j];
                                } else {
                                    assert(neighbor_candidates@[k as int] == self.adj(id as int, layer as int)[j]);
                                }
                            }
                            if layer == start_layer {
                                assert(self.adj(id as int, layer as int).len() > 0);
                            } else {
                                assert(self.adj(id as int, start_layer as int) == s0.adj(id as int, start_layer as int));
                            }
                        }
                    }
                    k = k + 1;
                }
                cursor = self.search_layer(&self.nodes[id].vector, cursor, layer);
                next = layer;
            }
        }
        let ghost s0 = *self;
        assert(s0.growing(pre, v, target_layer));
        assert(s0.old_lists_wired(base, *old(self), id, 0, top));
        assert(s0.new_list_wired(base, *old(self), id, target_layer, 0, top));
        assert(old(self).nodes@.len() > 0 ==> s0.adj(id as int, top).len() > 0);
        if self.entry_point.is_none() || target_layer > self.max_layer {
            self.entry_point = Some(id);
            self.max_layer = target_layer;
        }
        proof {
            assert(self.nodes == s0.nodes);
            assert(self.m == s0.m);
            assert forall|i: int, l: int| #[trigger] self.adj(i, l) == s0.adj(i, l) by {}
            assert(self.old_lists_wired(base, *old(self), id, 0, top));
            assert(self.new_list_wired(base, *old(self), id, target_layer, 0, top));
            assert forall|i: int, l: int| self.on_layer(i, l) == s0.on_layer(i, l) && self.adj(i, l) == s0.adj(i, l) by {}
            assert forall|i: int, l: int, k: int|
                self.on_layer(i, l) && 0 <= k < self.adj(i, l).len() implies {
                let x = #[trigger] self.adj(i, l)[k] as int;
                &&& self.on_layer(x, l)
                &&& x != i
            } by {
                assert(s0.on_layer(i, l));
                assert(s0.adj(i, l)[k] == self.adj(i, l)[k]);
                assert(s0.on_layer(s0.adj(i, l)[k] as int, l));
            }
            assert forall|i: int, l: int| #[trigger]
                self.on_layer(i, l) && i != id implies self.adj(i, l).len() <= self.m by {
                assert(s0.on_layer(i, l));
            }
        }
        let mut l: usize = 0;
        while l <= target_layer
            invariant
                l <= target_layer + 1,
                target_layer < usize::MAX,
                id == pre.len(),
                self.growing(pre, v, target_layer),
                self.layers_bounded(),
                self.entry_valid(),
                self.m == old(self).m,
                forall|j: int| 0 <= j < l ==> self.adj(id as int, j).len() <= self.m,
                base.growing(pre, v, target_layer),
                base.m == self.m,
                pre == old(self).nodes@,
                top == old(self).wired_top(target_layer),
                old(self).lists_distinct() ==> self.lists_distinct(),
                self.old_lists_wired(base, *old(self), id, 0, top),
                self.new_list_wired(base, *old(self), id, target_layer, 0, top),
                old(self).nodes@.len() > 0 && self.m > 0 ==> 0 <= top <= target_layer && self.adj(id as int, top).len() > 0,
                old(self).entry_point is None || target_layer > old(self).max_layer ==> self.entry_point
                    == Some(id) && self.max_layer == target_layer,
                !(old(self).entry_point is None || target_layer > old(self).max_layer)
                    ==> self.entry_point == old(self).entry_point && self.max_layer == old(self).max_layer,
            decreases target_layer + 1 - l,
        {
            let ghost s0 = *self;
            self.prune_neighbors(id, l);
            proof {
                let o = *old(self);
                if o.lists_distinct() {
                    assert(s0.on_layer(id as int, l as int));
                    assert forall|i: int, j: int| #[trigger] self.on_layer(i, j) implies self.adj(i, j).no_duplicates() by {
                        assert(s0.on_layer(i, j));
                        if !(i == id && j == l) {
                            assert(self.adj(i, j) == s0.adj(i, j));
                        }
                    }
                }
                if o.nodes@.len() > 0 && self.m > 0 && top != l {
                    assert(self.on_layer(id as int, top));
                    assert(self.adj(id as int, top) == s0.adj(id as int, top));
                }
                assert forall|k: int, j: int| 0 <= k < id && #[trigger] o.on_layer(k, j) implies self.adj(k, j) == s0.adj(k, j) by {
                    assert(o.nodes@[k].neighbors@.len() == self.nodes@[k].neighbors@.len());
                    assert(self.on_layer(k, j));
                }
                assert forall|j: int|
                    0 <= j <= target_layer && (j < 0 || j > top) implies #[trigger] self.adj(id as int, j).len() == 0 by {
                    assert(self.on_layer(id as int, j));
                    if j != l {
                        assert(self.adj(id as int, j) == s0.adj(id as int, j));
                    }
                }
                assert forall|j: int, i: int|
                    0 <= j <= target_layer && 0 <= i < self.adj(id as int, j).len() implies {
                    let x = #[trigger] self.adj(id as int, j)[i];
                    &&& x < id
                    &&& base.pushed_pruned(x as int, o.adj(x as int, j), id, self.adj(x as int, j))
                } by {
                    let x = self.adj(id as int, j)[i];
                    assert(self.on_layer(id as int, j));
                    if j != l {
                        assert(self.adj(id as int, j) == s0.adj(id as int, j));
                        assert(s0.adj(id as int, j)[i] == x);
                    } else {
                        assert(s0.adj(id as int, j).contains(x));
                        let i2 = choose|i2: int| 0 <= i2 < s0.adj(id as int, j).len() && s0.adj(id as int, j)[i2] == x;
                        assert(s0.adj(id as int, j)[i2] == x);
                    }
                    assert(self.on_layer(x as int, j));
                    assert(self.adj(x as int, j) == s0.adj(x as int, j));
                }
                Self::lemma_growing_kept(s0, *self, id as int, l as int, pre, v, target_layer);
                assert forall|i: int| 0 <= i < self.nodes@.len() implies 1 <= (
                #[trigger] self.nodes@[i]).neighbors@.len() <= self.max_layer + 1 by {
                    assert(s0.nodes@[i].neighbors@.len() == self.nodes@[i].neighbors@.len());
                }
                assert forall|j: int| 0 <= j < l + 1 implies self.adj(id as int, j).len() <= self.m by {
                    if j < l {
                        assert(self.adj(id as int, j) == s0.adj(id as int, j));
                    }
                }
            }
            l = l + 1;
        }
        proof {
            Self::lemma_wired_transfer(
                base,
                *self,
                *old(self),
                pre,
                v,
                target_layer,
                id,
                0,
                top,
            );
        }
    }
}

/// The mark that `state` holds for node `x`: 0 when it holds none.
pub open spec fn marker(state: Map<usize, u8>, x: usize) -> u8 {
    if state.contains_key(x) {
        state[x]
    } else {
        0
    }
}

fn state_of(state: &HashMap<usize, u8>, x: usize) -> (r: u8)
    ensures
        r == marker(state@, x),
{
    match state.get(&x) {
        Some(v) => *v,
        None => 0,
    }
}

/// A sequence that holds each of `0..len` is at least `len` long.
proof fn lemma_cover_needs_length(picks: Seq<int>, len: int)
    requires
        0 <= len,
        forall|i: int| 0 <= i < len ==> picks.contains(i),
    ensures
        picks.len() >= len,
{
    broadcast use vstd::seq_lib::seq_to_set_is_finite;

    lemma_int_range(0, len);
    assert(set_int_range(0, len).subset_of(picks.to_set()));
    lemma_len_subset(set_int_range(0, len), picks.to_set());
    picks.lemma_cardinality_of_set();
}

} // verus!
