//! Breadth-first path finding over a graph of cells in which some steps pass through doors.

use vstd::prelude::*;
use std::collections::VecDeque;

verus! {

/// Identifies a door between two cells.
#[derive(Clone, Copy, Debug, PartialEq, Eq, Structural)]
pub struct DoorIndex;

/// A path between two cells, stored destination-first: the start cell is the last one.
#[derive(Clone, Debug, PartialEq, Eq)]
pub struct Path(pub Vec<usize>);

impl View for Path {
    type V = Seq<usize>;

    open spec fn view(&self) -> Seq<usize> {
        self.0@
    }
}

/// For each cell, the cells one step away and the door (if any) on the way. Only the first
/// entry for a cell counts.
pub struct PathGraph {
    pub cells: Vec<(usize, Vec<(usize, Option<DoorIndex>)>)>,
}

impl PathGraph {
    /// Whether no two entries are for the same cell and no cell repeats among the neighbors of
    /// an entry.
    #[verifier::opaque]
    pub open spec fn wf(self) -> bool {
        &&& forall|i: int, j: int|
            0 <= i < j < self.cells@.len() ==> (#[trigger] self.cells@[i]).0 != (#[trigger] self.cells@[j]).0
        &&& forall|i: int|
            0 <= i < self.cells@.len() ==> (#[trigger] self.cells@[i]).1@.map_values(
                |e: (usize, Option<DoorIndex>)| e.0,
            ).no_duplicates()
    }

    /// Whether `c` has an entry in the graph.
    pub open spec fn has_node(self, c: usize) -> bool {
        exists|i: int| 0 <= i < self.cells@.len() && self.cells@[i].0 == c
    }

    /// The index of the first entry for `c`.
    pub open spec fn node_index(self, c: usize) -> int {
        choose|i: int|
            0 <= i < self.cells@.len() && self.cells@[i].0 == c && forall|j: int|
                0 <= j < i ==> self.cells@[j].0 != c
    }

    /// The cells one step away from `c`, in entry order.
    pub open spec fn neighbors(self, c: usize) -> Seq<usize> {
        self.cells@[self.node_index(c)].1@.map_values(|e: (usize, Option<DoorIndex>)| e.0)
    }

    /// Whether one can step from `u` to `v`.
    #[verifier::opaque]
    pub open spec fn edge(self, u: usize, v: usize) -> bool {
        self.has_node(u) && self.neighbors(u).contains(v)
    }

    /// Whether `w` is a walk: a nonempty sequence of cells, each a step away from the one before.
    pub open spec fn is_walk(self, w: Seq<usize>) -> bool {
        &&& w.len() >= 1
        &&& forall|i: int| #![trigger w[i]] 0 <= i < w.len() - 1 ==> self.edge(w[i], w[i + 1])
    }

    /// Whether some walk leads from `a` to `b`.
    pub open spec fn reachable(self, a: usize, b: usize) -> bool {
        exists|w: Seq<usize>| #[trigger] self.is_walk(w) && w[0] == a && w.last() == b
    }

    /// Whether some walk leads from `a` to `b` without passing through `t` before its end.
    pub open spec fn reachable_avoiding(self, a: usize, b: usize, t: usize) -> bool {
        exists|w: Seq<usize>|
            #[trigger] self.is_walk(w) && w[0] == a && w.last() == b && forall|i: int|
                0 <= i < w.len() - 1 ==> w[i] != t
    }

    /// The cells that have an entry in the graph.
    pub open spec fn node_set(self) -> Set<usize> {
        self.cells@.map_values(|e: (usize, Vec<(usize, Option<DoorIndex>)>)| e.0).to_set()
    }

    /// The cells one step away from `cell`, in entry order.
    pub fn neighbors_of(&self, cell: usize) -> (r: Vec<usize>)
        requires
            self.has_node(cell),
        ensures
            r@ == self.neighbors(cell),
            self.wf() ==> r@.no_duplicates(),
    {
        let mut i: usize = 0;
        while i < self.cells.len()
            invariant
                i <= self.cells@.len(),
                forall|j: int| 0 <= j < i ==> self.cells@[j].0 != cell,
            decreases self.cells.len() - i,
        {
            if self.cells[i].0 == cell {
                let ghost k = self.node_index(cell);
                assert(k == i) by {
                    if k < i {
                        assert(self.cells@[k].0 != cell);
                    }
                    if k > i {
                        assert(self.cells@[i as int].0 == cell);
                    }
                }
                let entries = &self.cells[i].1;
                let mut r: Vec<usize> = Vec::new();
                let mut j: usize = 0;
                while j < entries.len()
                    invariant
                        j <= entries@.len(),
                        r@ =~= entries@.subrange(0, j as int).map_values(
                            |e: (usize, Option<DoorIndex>)| e.0,
                        ),
                    decreases entries.len() - j,
                {
                    r.push(entries[j].0);
                    j = j + 1;
                    assert(r@ =~= entries@.subrange(0, j as int).map_values(
                        |e: (usize, Option<DoorIndex>)| e.0,
                    ));
                }
                assert(entries@.subrange(0, entries@.len() as int) =~= entries@);
                proof {
                    reveal(PathGraph::wf);
                    if self.wf() {
                        assert(self.cells@[i as int].1@.map_values(
                            |e: (usize, Option<DoorIndex>)| e.0,
                        ).no_duplicates());
                    }
                }
                return r;
            }
            i = i + 1;
        }
        proof {
            let k = choose|k: int| 0 <= k < self.cells@.len() && self.cells@[k].0 == cell;
            assert(self.cells@[k].0 != cell);
        }
        Vec::new()
    }

    /// Every cell with an entry belongs to [`PathGraph::node_set`], which is finite.
    proof fn lemma_node_set(self)
        ensures
            self.node_set().finite(),
            forall|c: usize| #[trigger] self.has_node(c) ==> self.node_set().contains(c),
    {
        let keys = self.cells@.map_values(|e: (usize, Vec<(usize, Option<DoorIndex>)>)| e.0);
        vstd::seq_lib::seq_to_set_is_finite(keys);
        assert forall|c: usize| #[trigger] self.has_node(c) implies self.node_set().contains(c) by {
            let i = choose|i: int| 0 <= i < self.cells@.len() && self.cells@[i].0 == c;
            assert(keys[i] == c);
        }
    }
}

/// Whether `s` holds an entry with key `c`.
#[verifier::opaque]
pub open spec fn assoc_has(s: Seq<(usize, usize)>, c: usize) -> bool {
    exists|i: int| 0 <= i < s.len() && s[i].0 == c
}

/// Whether no two entries of `s` share a key.
pub open spec fn keys_unique(s: Seq<(usize, usize)>) -> bool {
    forall|i: int, j: int| 0 <= i < s.len() && 0 <= j < s.len() && i != j ==> s[i].0 != s[j].0
}

/// Whether `p` is a route from `from` to `to`, stored destination-first: it starts at `to`, ends
/// at `from`, and each cell is a step away from the one after it.
pub open spec fn is_route(g: PathGraph, p: Seq<usize>, from: usize, to: usize) -> bool {
    &&& p.len() >= 1
    &&& p[0] == to
    &&& p.last() == from
    &&& forall|i: int| #![trigger p[i]] 0 <= i < p.len() - 1 ==> g.edge(p[i + 1], p[i])
}

/// The search state: every found cell (the start and each key) is reachable from the start
/// without passing through the destination, and each recorded step is an edge that leads to a
/// cell found earlier.
spec fn search_inv(
    g: PathGraph,
    from: usize,
    to: usize,
    s: Seq<(usize, usize)>,
    rank: Map<usize, nat>,
) -> bool {
    &&& keys_unique(s)
    &&& rank.contains_key(from)
    &&& forall|c: usize| #[trigger] assoc_has(s, c) ==> rank.contains_key(c)
    &&& forall|i: int|
        #![trigger s[i]]
        0 <= i < s.len() ==> (s[i].1 == from || assoc_has(s, s[i].1)) && g.edge(s[i].1, s[i].0) && (
        s[i].0 != from ==> rank[s[i].1] < rank[s[i].0])
    &&& g.reachable_avoiding(from, from, to)
    &&& forall|c: usize| #[trigger] assoc_has(s, c) ==> g.reachable_avoiding(from, c, to)
}

/// Whether the search recorded in `s` has found `c`: it is the start or has a recorded step.
spec fn is_found(s: Seq<(usize, usize)>, from: usize, c: usize) -> bool {
    c == from || assoc_has(s, c)
}

/// Appending `x` to a sequence keeps what it held and adds `x`.
proof fn lemma_push_contains(q: Seq<usize>, x: usize, c: usize)
    requires
        q.contains(c) || c == x,
    ensures
        q.push(x).contains(c),
{
    if c == x {
        assert(q.push(x)[q.len() as int] == x);
    } else {
        let i = choose|i: int| 0 <= i < q.len() && q[i] == c;
        assert(q.push(x)[i] == c);
    }
}

/// Dropping the first element of a sequence keeps every other element it held.
proof fn lemma_pop_contains(q: Seq<usize>, c: usize)
    requires
        q.len() > 0,
        q.contains(c),
        c != q[0],
    ensures
        q.subrange(1, q.len() as int).contains(c),
{
    let i = choose|i: int| 0 <= i < q.len() && q[i] == c;
    assert(i != 0);
    assert(q.subrange(1, q.len() as int)[i - 1] == c);
}

/// Once every step out of a found cell leads to a found cell, every cell of a walk from the
/// start has been found.
proof fn lemma_walk_found(g: PathGraph, from: usize, s: Seq<(usize, usize)>, w: Seq<usize>)
    requires
        g.is_walk(w),
        w[0] == from,
        forall|u: usize, v: usize|
            #[trigger] is_found(s, from, u) && #[trigger] g.edge(u, v) ==> is_found(s, from, v),
    ensures
        forall|i: int| 0 <= i < w.len() ==> is_found(s, from, #[trigger] w[i]),
    decreases w.len(),
{
    if w.len() > 1 {
        let w0 = w.drop_last();
        assert(g.is_walk(w0)) by {
            assert forall|j: int| 0 <= j < w0.len() - 1 implies g.edge(
                #[trigger] w0[j],
                w0[j + 1],
            ) by {
                assert(w0[j] == w[j] && w0[j + 1] == w[j + 1]);
            }
        }
        lemma_walk_found(g, from, s, w0);
        let n = w.len() - 1;
        assert(w0[n - 1] == w[n - 1]);
        assert(is_found(s, from, w0[n - 1]));
        assert(g.edge(w[n - 1], w[n]));
        assert forall|i: int| 0 <= i < w.len() implies is_found(s, from, #[trigger] w[i]) by {
            if i < n {
                assert(w0[i] == w[i]);
            }
        }
    }
}

/// Recording `next` as found from `current` keeps the search state consistent, and `next` is
/// reachable without passing through the destination.
proof fn lemma_found(
    g: PathGraph,
    from: usize,
    to: usize,
    s: Seq<(usize, usize)>,
    rank: Map<usize, nat>,
    next_rank: nat,
    current: usize,
    next: usize,
)
    requires
        search_inv(g, from, to, s, rank),
        forall|c: usize| #[trigger] rank.contains_key(c) ==> rank[c] < next_rank,
        is_found(s, from, current),
        current != to,
        g.edge(current, next),
        !assoc_has(s, next),
    ensures
        search_inv(
            g,
            from,
            to,
            s.push((next, current)),
            if next != from {
                rank.insert(next, next_rank)
            } else {
                rank
            },
        ),
        g.reachable_avoiding(from, next, to),
        forall|c: usize|
            #[trigger] assoc_has(s.push((next, current)), c) <==> (c == next || assoc_has(s, c)),
        forall|c: usize|
            #[trigger] is_found(s.push((next, current)), from, c) <==> (c == next || is_found(
                s,
                from,
                c,
            )),
{
    let t = s.push((next, current));
    let rank2 = if next != from {
        rank.insert(next, next_rank)
    } else {
        rank
    };
    assert forall|c: usize| #[trigger] assoc_has(t, c) <==> (c == next || assoc_has(s, c)) by {
        reveal(assoc_has);
        if assoc_has(t, c) {
            let i = choose|i: int| 0 <= i < t.len() && t[i].0 == c;
            if i < s.len() {
                assert(s[i].0 == c);
            }
        }
        if c == next {
            assert(t[s.len() as int].0 == c);
        }
        if assoc_has(s, c) {
            let i = choose|i: int| 0 <= i < s.len() && s[i].0 == c;
            assert(t[i].0 == c);
        }
    }
    assert forall|c: usize| #[trigger] is_found(t, from, c) <==> (c == next || is_found(s, from, c))
        by {
        assert(assoc_has(t, c) <==> (c == next || assoc_has(s, c)));
    }
    assert(keys_unique(t)) by {
        assert forall|i: int, j: int| 0 <= i < t.len() && 0 <= j < t.len() && i != j implies t[i].0
            != t[j].0 by {
            if i == s.len() && j < s.len() {
                assert(s[j].0 == t[j].0);
                assert(assoc_has(s, s[j].0)) by {
                    reveal(assoc_has);
                }
            }
            if j == s.len() && i < s.len() {
                assert(s[i].0 == t[i].0);
                assert(assoc_has(s, s[i].0)) by {
                    reveal(assoc_has);
                }
            }
        }
    }
    let w = if current == from {
        seq![from]
    } else {
        choose|w: Seq<usize>|
            #[trigger] g.is_walk(w) && w[0] == from && w.last() == current && forall|i: int|
                0 <= i < w.len() - 1 ==> w[i] != to
    };
    assert(g.is_walk(w) && w[0] == from && w.last() == current && forall|i: int|
        0 <= i < w.len() - 1 ==> w[i] != to);
    let w2 = w.push(next);
    assert forall|j: int| 0 <= j < w2.len() - 1 implies g.edge(#[trigger] w2[j], w2[j + 1]) by {
        if j < w.len() - 1 {
            assert(w2[j] == w[j] && w2[j + 1] == w[j + 1]);
        }
    }
    assert(forall|i: int| 0 <= i < w2.len() - 1 ==> w2[i] != to) by {
        assert(forall|i: int| 0 <= i < w.len() ==> w2[i] == w[i]);
    }
    assert(g.is_walk(w2) && w2[0] == from && w2.last() == next);
    assert(g.reachable_avoiding(from, next, to));
    assert forall|c: usize| #[trigger] assoc_has(t, c) implies rank2.contains_key(c) by {
        if c != next {
            assert(assoc_has(s, c));
        }
    }
    assert forall|i: int|
        #![trigger t[i]]
        0 <= i < t.len() implies (t[i].1 == from || assoc_has(t, t[i].1)) && g.edge(t[i].1, t[i].0) && (
        t[i].0 != from ==> rank2[t[i].1] < rank2[t[i].0]) by {
        if i < s.len() {
            assert(t[i] == s[i]);
            assert(assoc_has(s, s[i].0)) by {
                reveal(assoc_has);
            }
            if s[i].1 != from {
                assert(assoc_has(s, s[i].1));
            }
        } else {
            if current != from {
                assert(rank.contains_key(current));
            }
        }
    }
}

/// In a breadth-first search from `from` that has just taken `current`, with label `d`, off
/// its queue: a walk from `from` whose cells up to `w[j]` are processed, with `w[j]` labelled
/// at most `j`, and which ends in an unprocessed cell, has at least `d` steps.
proof fn lemma_bfs_scan(
    g: PathGraph,
    from: usize,
    cf: Seq<(usize, usize)>,
    dist: Map<usize, nat>,
    processed: Set<usize>,
    rest: Seq<usize>,
    labels: Seq<nat>,
    current: usize,
    d: nat,
    w: Seq<usize>,
    j: int,
)
    requires
        g.is_walk(w),
        w[0] == from,
        0 <= j < w.len(),
        !processed.contains(w.last()),
        forall|i: int| 0 <= i < j ==> processed.contains(#[trigger] w[i]),
        is_found(cf, from, w[j]),
        dist.contains_key(w[j]),
        dist[w[j]] <= j,
        forall|c: usize|
            #[trigger] is_found(cf, from, c) ==> processed.contains(c) || rest.contains(c) || c == current,
        forall|u: usize, v: usize|
            #[trigger] processed.contains(u) && #[trigger] g.edge(u, v) ==> is_found(cf, from, v)
                && dist.contains_key(v) && dist[v] <= dist[u] + 1,
        labels.len() == rest.len(),
        forall|i: int| 0 <= i < rest.len() && #[trigger] rest[i] != from ==> labels[i] == dist[rest[i]],
        forall|i: int| 0 <= i < labels.len() ==> d <= #[trigger] labels[i],
        processed.contains(from),
        dist.contains_key(current),
        dist[current] == d,
    ensures
        d <= w.len() - 1,
    decreases w.len() - j,
{
    if !processed.contains(w[j]) {
        if w[j] != current {
            let i = choose|i: int| 0 <= i < rest.len() && rest[i] == w[j];
            assert(rest[i] != from);
            assert(d <= labels[i]);
        }
    } else {
        assert(j < w.len() - 1);
        assert(g.edge(w[j], w[j + 1]));
        lemma_bfs_scan(g, from, cf, dist, processed, rest, labels, current, d, w, j + 1);
    }
}

/// The search's labels: the start is labelled 0, every found cell has a label, and each
/// recorded step (other than one back to the start) adds one to the label of the cell it leads
/// from.
#[verifier::opaque]
spec fn labelled(from: usize, cf: Seq<(usize, usize)>, dist: Map<usize, nat>) -> bool {
    &&& dist[from] == 0
    &&& forall|c: usize| #[trigger] dist.contains_key(c) <==> is_found(cf, from, c)
    &&& forall|i: int|
        #![trigger cf[i]]
        0 <= i < cf.len() ==> is_found(cf, from, cf[i].1) && (cf[i].0 != from ==> dist[cf[i].0]
            == dist[cf[i].1] + 1)
}

/// The queue's labels: one per entry, in increasing order, between `lo` and `lo + 1`, and each
/// the label of its cell (but for an entry of the start, met again).
#[verifier::opaque]
spec fn queue_labelled(from: usize, q: Seq<usize>, labels: Seq<nat>, dist: Map<usize, nat>, lo: nat) -> bool {
    &&& labels.len() == q.len()
    &&& forall|a: int, b: int| 0 <= a <= b < labels.len() ==> #[trigger] labels[a] <= #[trigger] labels[b]
    &&& forall|i: int| 0 <= i < labels.len() ==> lo <= #[trigger] labels[i] && labels[i] <= lo + 1
    &&& forall|i: int| 0 <= i < q.len() && #[trigger] q[i] != from ==> labels[i] == dist[q[i]]
}

/// The processed cells are labelled at most `lo`, and a step from one leads to a cell labelled
/// at most one more.
#[verifier::opaque]
spec fn closed_labels(g: PathGraph, processed: Set<usize>, dist: Map<usize, nat>, lo: nat) -> bool {
    &&& forall|u: usize, v: usize|
        #[trigger] processed.contains(u) && #[trigger] g.edge(u, v) ==> dist[v] <= dist[u] + 1
    &&& forall|u: usize| #[trigger] processed.contains(u) ==> dist[u] <= lo
}

/// Taking the first entry off a labelled queue.
proof fn lemma_queue_pop(from: usize, q: Seq<usize>, labels: Seq<nat>, dist: Map<usize, nat>, lo: nat)
    requires
        queue_labelled(from, q, labels, dist, lo),
        q.len() > 0,
    ensures
        lo <= labels[0],
        q[0] != from ==> labels[0] == dist[q[0]],
        queue_labelled(
            from,
            q.subrange(1, q.len() as int),
            labels.subrange(1, labels.len() as int),
            dist,
            labels[0],
        ),
{
    reveal(queue_labelled);
    let q1 = q.subrange(1, q.len() as int);
    let l1 = labels.subrange(1, labels.len() as int);
    assert forall|i: int| 0 <= i < l1.len() implies labels[0] <= #[trigger] l1[i] && l1[i] <= labels[0] + 1 by {
        assert(l1[i] == labels[i + 1]);
        assert(labels[0] <= labels[i + 1]);
    }
    assert forall|a: int, b: int| 0 <= a <= b < l1.len() implies #[trigger] l1[a] <= #[trigger] l1[b] by {
        assert(l1[a] == labels[a + 1] && l1[b] == labels[b + 1]);
    }
    assert forall|i: int| 0 <= i < q1.len() && #[trigger] q1[i] != from implies l1[i] == dist[q1[i]] by {
        assert(q1[i] == q[i + 1] && l1[i] == labels[i + 1]);
    }
}

/// Appending a cell newly labelled `lo + 1` (or the start, met again) to a labelled queue.
proof fn lemma_queue_push(
    from: usize,
    q: Seq<usize>,
    labels: Seq<nat>,
    dist0: Map<usize, nat>,
    dist1: Map<usize, nat>,
    lo: nat,
    next: usize,
)
    requires
        queue_labelled(from, q, labels, dist0, lo),
        forall|i: int| 0 <= i < q.len() ==> dist0.contains_key(#[trigger] q[i]),
        next != from ==> !dist0.contains_key(next) && dist1 == dist0.insert(next, lo + 1),
        next == from ==> dist1 == dist0,
    ensures
        queue_labelled(from, q.push(next), labels.push(lo + 1), dist1, lo),
{
    reveal(queue_labelled);
    let q1 = q.push(next);
    let l1 = labels.push(lo + 1);
    assert forall|a: int, b: int| 0 <= a <= b < l1.len() implies #[trigger] l1[a] <= #[trigger] l1[b] by {
        if b < labels.len() {
            assert(l1[a] == labels[a] && l1[b] == labels[b]);
        } else if a < labels.len() {
            assert(l1[a] == labels[a]);
        }
    }
    assert forall|i: int| 0 <= i < l1.len() implies lo <= #[trigger] l1[i] && l1[i] <= lo + 1 by {
        if i < labels.len() {
            assert(l1[i] == labels[i]);
        }
    }
    assert forall|i: int| 0 <= i < q1.len() && #[trigger] q1[i] != from implies l1[i] == dist1[q1[i]] by {
        if i < q.len() {
            assert(q1[i] == q[i] && l1[i] == labels[i]);
            assert(dist0.contains_key(q[i]));
        }
    }
}

/// Recording a step to a newly found cell keeps the labels.
proof fn lemma_labelled_push(
    from: usize,
    cf: Seq<(usize, usize)>,
    dist0: Map<usize, nat>,
    dist1: Map<usize, nat>,
    next: usize,
    current: usize,
)
    requires
        labelled(from, cf, dist0),
        is_found(cf, from, current),
        !assoc_has(cf, next),
        next != from ==> dist1 == dist0.insert(next, dist0[current] + 1),
        next == from ==> dist1 == dist0,
    ensures
        labelled(from, cf.push((next, current)), dist1),
        next != from ==> !dist0.contains_key(next),
{
    reveal(labelled);
    let t = cf.push((next, current));
    assert forall|c: usize| #[trigger] is_found(t, from, c) <==> (is_found(cf, from, c) || c == next) by {
        reveal(assoc_has);
        if is_found(t, from, c) && c != next && c != from {
            let i = choose|i: int| 0 <= i < t.len() && t[i].0 == c;
            assert(i < cf.len());
            assert(cf[i].0 == c);
        }
        if assoc_has(cf, c) {
            let i = choose|i: int| 0 <= i < cf.len() && cf[i].0 == c;
            assert(t[i].0 == c);
        }
        if c == next {
            assert(t[cf.len() as int].0 == c);
        }
    }
    assert(!is_found(cf, from, next) || next == from);
    assert forall|c: usize| #[trigger] dist1.contains_key(c) <==> is_found(t, from, c) by {}
    assert forall|i: int|
        #![trigger t[i]]
        0 <= i < t.len() implies is_found(t, from, t[i].1) && (t[i].0 != from ==> dist1[t[i].0] == dist1[t[i].1] + 1) by {
        if i < cf.len() {
            assert(t[i] == cf[i]);
            assert(assoc_has(cf, cf[i].0)) by {
                reveal(assoc_has);
            }
            assert(is_found(cf, from, cf[i].0));
            assert(is_found(cf, from, cf[i].1));
        } else {
            assert(t[i] == (next, current));
        }
    }
}

/// Once the cell just taken off the queue is processed, the processed cells still meet
/// [`closed_labels`].
proof fn lemma_close(g: PathGraph, p0: Set<usize>, dist: Map<usize, nat>, lo: nat, d: nat, current: usize)
    requires
        closed_labels(g, p0, dist, lo),
        lo <= d,
        dist[current] <= d,
        p0.contains(current) || forall|v: usize| #[trigger] g.edge(current, v) ==> dist[v] <= dist[current] + 1,
    ensures
        closed_labels(g, p0.insert(current), dist, d),
{
    reveal(closed_labels);
}

/// A higher bound for the processed cells' labels.
proof fn lemma_closed_mono(g: PathGraph, p: Set<usize>, dist: Map<usize, nat>, lo: nat, hi: nat)
    requires
        closed_labels(g, p, dist, lo),
        lo <= hi,
    ensures
        closed_labels(g, p, dist, hi),
{
    reveal(closed_labels);
}

/// Labelling a cell that no processed cell is, nor leads to, keeps [`closed_labels`].
proof fn lemma_closed_insert(
    g: PathGraph,
    p: Set<usize>,
    dist0: Map<usize, nat>,
    dist1: Map<usize, nat>,
    lo: nat,
    next: usize,
    x: nat,
)
    requires
        closed_labels(g, p, dist0, lo),
        dist1 == dist0.insert(next, x),
        !p.contains(next),
        forall|u: usize, v: usize| #[trigger] p.contains(u) && #[trigger] g.edge(u, v) ==> v != next,
    ensures
        closed_labels(g, p, dist1, lo),
{
    reveal(closed_labels);
}

/// What [`labelled`] states.
proof fn lemma_labelled_facts(from: usize, cf: Seq<(usize, usize)>, dist: Map<usize, nat>)
    requires
        labelled(from, cf, dist),
    ensures
        dist.contains_key(from),
        dist[from] == 0,
        forall|c: usize| #[trigger] dist.contains_key(c) <==> is_found(cf, from, c),
        forall|i: int|
            #![trigger cf[i]]
            0 <= i < cf.len() && cf[i].0 != from ==> dist[cf[i].0] == dist[cf[i].1] + 1,
{
    reveal(labelled);
}

/// When the search takes the destination off its queue, no walk from the start to it is
/// shorter than its label.
proof fn lemma_found_shortest(
    g: PathGraph,
    from: usize,
    to: usize,
    cf: Seq<(usize, usize)>,
    dist: Map<usize, nat>,
    p0: Set<usize>,
    rest: Seq<usize>,
    labels: Seq<nat>,
    lo: nat,
)
    requires
        labelled(from, cf, dist),
        queue_labelled(from, rest, labels, dist, lo),
        closed_labels(g, p0, dist, lo),
        !p0.contains(to),
        to != from ==> p0.contains(from) && dist[to] == lo,
        is_found(cf, from, to),
        forall|c: usize| #[trigger] is_found(cf, from, c) ==> p0.contains(c) || rest.contains(c) || c == to,
        forall|u: usize, v: usize| #[trigger] p0.contains(u) && #[trigger] g.edge(u, v) ==> is_found(cf, from, v),
    ensures
        forall|w: Seq<usize>| #[trigger] g.is_walk(w) && w[0] == from && w.last() == to ==> dist[to] + 1 <= w.len(),
{
    lemma_labels_facts(g, from, cf, dist, p0, rest, labels, lo);
    assert forall|w: Seq<usize>| #[trigger] g.is_walk(w) && w[0] == from && w.last() == to implies dist[to] + 1
        <= w.len() by {
        if to != from {
            assert(is_found(cf, from, w[0]));
            lemma_bfs_scan(g, from, cf, dist, p0, rest, labels, to, lo, w, 0);
        }
    }
}

/// The labels before the search starts: only the start is found, labelled 0, and queued.
proof fn lemma_labels_init(g: PathGraph, from: usize, cf: Seq<(usize, usize)>, q: Seq<usize>)
    requires
        cf.len() == 0,
        q == seq![from],
    ensures
        labelled(from, cf, Map::empty().insert(from, 0nat)),
        queue_labelled(from, q, seq![0nat], Map::empty().insert(from, 0nat), 0),
        closed_labels(g, Set::empty(), Map::empty().insert(from, 0nat), 0),
{
    reveal(labelled);
    reveal(queue_labelled);
    reveal(closed_labels);
    reveal(assoc_has);
}

/// Before the search expands `current`, just taken off its queue: every found cell is labelled
/// at most `lo + 1`, and `current` at most `lo` (exactly, unless it is the start, met again).
proof fn lemma_expand_start(
    g: PathGraph,
    from: usize,
    cf: Seq<(usize, usize)>,
    dist: Map<usize, nat>,
    p0: Set<usize>,
    rest: Seq<usize>,
    labels: Seq<nat>,
    lo: nat,
    current: usize,
)
    requires
        labelled(from, cf, dist),
        queue_labelled(from, rest, labels, dist, lo),
        closed_labels(g, p0, dist, lo),
        is_found(cf, from, current),
        forall|c: usize| #[trigger] is_found(cf, from, c) ==> p0.contains(c) || rest.contains(c) || c == current,
        current != from ==> dist[current] == lo,
        !p0.contains(from) ==> current == from && lo == 0,
    ensures
        forall|c: usize| #[trigger] is_found(cf, from, c) ==> dist[c] <= lo + 1,
        dist[current] <= lo,
        !(current == from && p0.contains(from)) ==> dist[current] == lo,
{
    lemma_labels_facts(g, from, cf, dist, p0, rest, labels, lo);
    assert forall|c: usize| #[trigger] is_found(cf, from, c) implies dist[c] <= lo + 1 by {
        if !p0.contains(c) && c != current && c != from {
            let j = choose|j: int| 0 <= j < rest.len() && rest[j] == c;
            assert(labels[j] == dist[rest[j]]);
        }
    }
}

/// The facts of the labels that [`lemma_bfs_scan`] needs.
proof fn lemma_labels_facts(
    g: PathGraph,
    from: usize,
    cf: Seq<(usize, usize)>,
    dist: Map<usize, nat>,
    processed: Set<usize>,
    q: Seq<usize>,
    labels: Seq<nat>,
    lo: nat,
)
    requires
        labelled(from, cf, dist),
        queue_labelled(from, q, labels, dist, lo),
        closed_labels(g, processed, dist, lo),
    ensures
        dist.contains_key(from),
        dist[from] == 0,
        forall|c: usize| #[trigger] dist.contains_key(c) <==> is_found(cf, from, c),
        forall|i: int|
            #![trigger cf[i]]
            0 <= i < cf.len() && cf[i].0 != from ==> dist[cf[i].0] == dist[cf[i].1] + 1,
        labels.len() == q.len(),
        forall|i: int| 0 <= i < labels.len() ==> lo <= #[trigger] labels[i] && labels[i] <= lo + 1,
        forall|i: int| 0 <= i < q.len() && #[trigger] q[i] != from ==> labels[i] == dist[q[i]],
        forall|u: usize, v: usize|
            #[trigger] processed.contains(u) && #[trigger] g.edge(u, v) ==> dist[v] <= dist[u] + 1,
        forall|u: usize| #[trigger] processed.contains(u) ==> dist[u] <= lo,
{
    reveal(labelled);
    reveal(queue_labelled);
    reveal(closed_labels);
}

impl PathGraph {
    /// Breadth-first search from `from` for `to`. Returns a route from `from` to `to`
    /// (destination-first, see [`is_route`]), or `None` if `to` cannot be reached from `from`.
    /// Every cell that the search expands (each one reachable from `from` without passing
    /// through `to`) must have an entry in the graph.
    #[verifier::spinoff_prover]
    #[verifier::rlimit(60)]
    pub fn find_path(&self, from: usize, to: usize) -> (r: Option<Path>)
        requires
            forall|c: usize|
                #[trigger] self.reachable_avoiding(from, c, to) && c != to ==> self.has_node(c),
        ensures
            r is None <==> !self.reachable(from, to),
            r matches Some(p) ==> is_route(*self, p@, from, to),
            r matches Some(p) ==> forall|w: Seq<usize>|
                #[trigger] self.is_walk(w) && w[0] == from && w.last() == to ==> p@.len() <= w.len(),
    {
        let mut frontier: VecDeque<usize> = VecDeque::new();
        frontier.push_back(from);
        let mut came_from: Vec<(usize, usize)> = Vec::new();
        let ghost mut rank: Map<usize, nat> = Map::empty().insert(from, 0nat);
        let ghost mut next_rank: nat = 1;
        let ghost mut keys: Set<usize> = Set::empty();
        let ghost mut processed: Set<usize> = Set::empty();
        let ghost mut dist: Map<usize, nat> = Map::empty().insert(from, 0nat);
        let ghost mut labels: Seq<nat> = seq![0nat];
        let ghost mut lo: nat = 0;
        let mut found = false;
        proof {
            lemma_labels_init(*self, from, came_from@, frontier@);
            reveal(assoc_has);
            assert(self.is_walk(seq![from]));
            assert(self.reachable_avoiding(from, from, to));
            assert(frontier@[0] == from);
            self.lemma_node_set();
            assert forall|c: usize| #[trigger] is_found(came_from@, from, c) implies processed.contains(
                c,
            ) || frontier@.contains(c) by {
                assert(frontier@[0] == c);
            }
        }
        while !found && frontier.len() > 0
            invariant
                forall|c: usize|
                    #[trigger] self.reachable_avoiding(from, c, to) && c != to ==> self.has_node(c),
                forall|c: usize| #[trigger] self.has_node(c) ==> self.node_set().contains(c),
                self.node_set().finite(),
                search_inv(*self, from, to, came_from@, rank),
                forall|c: usize| #[trigger] rank.contains_key(c) ==> rank[c] < next_rank,
                forall|c: usize| #[trigger] keys.contains(c) <==> assoc_has(came_from@, c),
                keys.finite(),
                keys.subset_of(self.node_set().insert(to)),
                forall|i: int|
                    0 <= i < frontier@.len() ==> is_found(came_from@, from, #[trigger] frontier@[i]),
                !found ==> forall|c: usize|
                    #[trigger] is_found(came_from@, from, c) ==> processed.contains(c)
                        || frontier@.contains(c),
                forall|u: usize|
                    #[trigger] processed.contains(u) ==> is_found(came_from@, from, u) && u != to,
                forall|u: usize, v: usize|
                    #[trigger] processed.contains(u) && #[trigger] self.edge(u, v) ==> is_found(
                        came_from@,
                        from,
                        v,
                    ),
                found ==> is_found(came_from@, from, to),
                labelled(from, came_from@, dist),
                queue_labelled(from, frontier@, labels, dist, lo),
                closed_labels(*self, processed, dist, lo),
                !processed.contains(from) ==> (frontier@ == seq![from] && labels == seq![0nat] && !found) || (found
                    && to == from),
                found ==> forall|w: Seq<usize>|
                    #[trigger] self.is_walk(w) && w[0] == from && w.last() == to ==> dist[to] + 1 <= w.len(),
            decreases self.node_set().insert(to).len() - keys.len(), frontier@.len(),
        {
            let ghost q0 = frontier@;
            let ghost k0 = keys.len();
            let ghost l0 = labels;
            let ghost lo0 = lo;
            let ghost p0 = processed;
            let current = frontier.pop_front().unwrap();
            proof {
                assert(forall|i: int| 0 <= i < frontier@.len() ==> frontier@[i] == q0[i + 1]);
                vstd::set_lib::lemma_len_subset(keys, self.node_set().insert(to));
                assert(q0[0] == current);
                assert(is_found(came_from@, from, q0[0]));
                lemma_queue_pop(from, q0, l0, dist, lo0);
                labels = l0.subrange(1, l0.len() as int);
                lo = l0[0];
                assert(frontier@ =~= q0.subrange(1, q0.len() as int));
                lemma_closed_mono(*self, p0, dist, lo0, lo);
                assert forall|c: usize| #[trigger] is_found(came_from@, from, c) implies p0.contains(c)
                    || frontier@.contains(c) || c == current by {
                    if !p0.contains(c) && c != current {
                        assert(q0.contains(c));
                        lemma_pop_contains(q0, c);
                    }
                }
                assert(!p0.contains(from) ==> current == from && lo == 0);
            }
            if current == to {
                found = true;
                proof {
                    lemma_found_shortest(*self, from, to, came_from@, dist, p0, frontier@, labels, lo);
                }
            } else {
                let ghost again: bool = current == from && p0.contains(from);
                proof {
                    lemma_expand_start(*self, from, came_from@, dist, p0, frontier@, labels, lo, current);
                    assert(p0.contains(current) ==> forall|v: usize| #[trigger] self.edge(current, v) ==> is_found(came_from@, from, v));
                    processed = processed.insert(current);
                    assert forall|c: usize| #[trigger]
                        is_found(came_from@, from, c) implies processed.contains(c)
                        || frontier@.contains(c) by {
                        if !processed.contains(c) {
                            assert(q0.contains(c));
                            lemma_pop_contains(q0, c);
                        }
                    }
                    if current != from {
                        assert(self.reachable_avoiding(from, current, to));
                    }
                }
                let neighbors = self.neighbors_of(current);
                let mut i: usize = 0;
                while i < neighbors.len()
                    invariant
                        forall|c: usize|
                            #[trigger] self.reachable_avoiding(from, c, to) && c != to
                                ==> self.has_node(c),
                        forall|c: usize| #[trigger] self.has_node(c) ==> self.node_set().contains(c),
                        self.node_set().finite(),
                        neighbors@ == self.neighbors(current),
                        self.has_node(current),
                        current != to,
                        i <= neighbors@.len(),
                        search_inv(*self, from, to, came_from@, rank),
                        forall|c: usize| #[trigger] rank.contains_key(c) ==> rank[c] < next_rank,
                        is_found(came_from@, from, current),
                        forall|c: usize| #[trigger] keys.contains(c) <==> assoc_has(came_from@, c),
                        keys.finite(),
                        keys.subset_of(self.node_set().insert(to)),
                        keys.len() >= k0,
                        frontier@.len() + k0 == q0.len() - 1 + keys.len(),
                        forall|j: int|
                            0 <= j < frontier@.len() ==> is_found(
                                came_from@,
                                from,
                                #[trigger] frontier@[j],
                            ),
                        forall|c: usize|
                            #[trigger] is_found(came_from@, from, c) ==> processed.contains(c)
                                || frontier@.contains(c),
                        processed.contains(current),
                        forall|u: usize|
                            #[trigger] processed.contains(u) ==> is_found(came_from@, from, u) && u
                                != to,
                        forall|u: usize, v: usize|
                            #[trigger] processed.contains(u) && #[trigger] self.edge(u, v) && u
                                != current ==> is_found(came_from@, from, v),
                        forall|j: int|
                            0 <= j < i ==> is_found(came_from@, from, #[trigger] neighbors@[j]),
                        !found,
                        labelled(from, came_from@, dist),
                        queue_labelled(from, frontier@, labels, dist, lo),
                        closed_labels(*self, p0, dist, lo),
                        forall|c: usize| #[trigger] is_found(came_from@, from, c) ==> dist[c] <= lo + 1,
                        dist[current] <= lo,
                        !again ==> dist[current] == lo,
                        again == (current == from && p0.contains(from)),
                        processed == p0.insert(current),
                        p0.contains(from) || current == from,
                        p0.contains(current) ==> forall|v: usize| #[trigger] self.edge(current, v) ==> is_found(came_from@, from, v),
                    decreases neighbors.len() - i,
                {
                    let next = neighbors[i];
                    if !assoc_contains(&came_from, next) {
                        proof {
                            assert(self.edge(current, next)) by {
                                reveal(PathGraph::edge);
                                assert(self.neighbors(current)[i as int] == next);
                            }
                            lemma_found(*self, from, to, came_from@, rank, next_rank, current, next);
                        }
                        let ghost q1 = frontier@;
                        let ghost keys0 = keys;
                        let ghost cf0 = came_from@;
                        frontier.push_back(next);
                        came_from.push((next, current));
                        proof {
                            assert(next != from ==> !again) by {
                                if next != from && again {
                                    assert(p0.contains(current));
                                    assert(self.edge(current, next));
                                    assert(is_found(cf0, from, next));
                                }
                            }
                            lemma_labelled_facts(from, cf0, dist);
                            let dist0 = dist;
                            let l1 = labels;
                            if next != from {
                                dist = dist.insert(next, lo + 1);
                            }
                            lemma_labelled_push(from, cf0, dist0, dist, next, current);
                            assert forall|j: int| 0 <= j < q1.len() implies dist0.contains_key(#[trigger] q1[j]) by {
                                assert(is_found(cf0, from, q1[j]));
                            }
                            lemma_queue_push(from, q1, l1, dist0, dist, lo, next);
                            labels = l1.push(lo + 1);
                            if next != from {
                                assert forall|u: usize, v: usize| #[trigger] p0.contains(u) && #[trigger] self.edge(u, v)
                                    implies v != next by {
                                    if u != current {
                                        assert(processed.contains(u));
                                        assert(is_found(cf0, from, v));
                                    } else {
                                        assert(is_found(cf0, from, v));
                                    }
                                }
                                assert(!p0.contains(next)) by {
                                    if p0.contains(next) {
                                        assert(processed.contains(next));
                                        assert(is_found(cf0, from, next));
                                    }
                                }
                                lemma_closed_insert(*self, p0, dist0, dist, lo, next, lo + 1);
                            }
                            assert forall|c: usize| #[trigger] is_found(came_from@, from, c) implies dist[c] <= lo + 1 by {
                                if c != next {
                                    assert(is_found(cf0, from, c));
                                }
                            }
                            keys = keys.insert(next);
                            if next != from {
                                rank = rank.insert(next, next_rank);
                                next_rank = next_rank + 1;
                            }
                            assert(keys.len() == keys0.len() + 1);
                            if next != to {
                                assert(self.has_node(next));
                            }
                            assert(frontier@[frontier@.len() - 1] == next);
                            assert forall|j: int| 0 <= j < frontier@.len() implies is_found(
                                came_from@,
                                from,
                                #[trigger] frontier@[j],
                            ) by {
                                if j < q1.len() {
                                    assert(frontier@[j] == q1[j]);
                                    assert(is_found(cf0, from, q1[j]));
                                }
                            }
                            assert forall|c: usize| #[trigger]
                                is_found(came_from@, from, c) implies processed.contains(c)
                                || frontier@.contains(c) by {
                                if c == next {
                                    lemma_push_contains(q1, next, c);
                                } else {
                                    assert(is_found(cf0, from, c));
                                    if !processed.contains(c) {
                                        lemma_push_contains(q1, next, c);
                                    }
                                }
                            }
                            assert forall|u: usize| #[trigger] processed.contains(u) implies is_found(
                                came_from@,
                                from,
                                u,
                            ) && u != to by {
                                assert(is_found(cf0, from, u));
                            }
                            assert forall|u: usize, v: usize|
                                #[trigger] processed.contains(u) && #[trigger] self.edge(u, v) && u
                                    != current implies is_found(came_from@, from, v) by {
                                assert(is_found(cf0, from, v));
                            }
                            assert forall|j: int| 0 <= j <= i implies is_found(
                                came_from@,
                                from,
                                #[trigger] neighbors@[j],
                            ) by {
                                if j < i {
                                    assert(is_found(cf0, from, neighbors@[j]));
                                }
                            }
                        }
                    } else {
                        proof {
                            assert(is_found(came_from@, from, neighbors@[i as int]));
                        }
                    }
                    i = i + 1;
                }
                proof {
                    assert forall|v: usize| #[trigger] self.edge(current, v) implies is_found(
                        came_from@,
                        from,
                        v,
                    ) by {
                        reveal(PathGraph::edge);
                        let j = choose|j: int| 0 <= j < neighbors@.len() && neighbors@[j] == v;
                        assert(is_found(came_from@, from, neighbors@[j]));
                    }
                    vstd::set_lib::lemma_len_subset(keys, self.node_set().insert(to));
                    lemma_close(*self, p0, dist, lo, lo, current);
                }
            }
        }
        let mut path: Vec<usize> = Vec::new();
        let mut current = to;
        while current != from
            invariant
                search_inv(*self, from, to, came_from@, rank),
                is_found(came_from@, from, current) || (current == to && !found && path@.len()
                    == 0),
                found ==> is_found(came_from@, from, to),
                !found ==> frontier@.len() == 0,
                !found ==> forall|c: usize|
                    #[trigger] is_found(came_from@, from, c) ==> processed.contains(c)
                        || frontier@.contains(c),
                forall|u: usize, v: usize|
                    #[trigger] processed.contains(u) && #[trigger] self.edge(u, v) ==> is_found(
                        came_from@,
                        from,
                        v,
                    ),
                path@.len() == 0 ==> current == to,
                path@.len() > 0 ==> path@[0] == to,
                labelled(from, came_from@, dist),
                forall|u: usize| #[trigger] processed.contains(u) ==> u != to,
                !found ==> path@.len() == 0 && current == to,
                found ==> path@.len() + dist[current] == dist[to],
                found ==> forall|w: Seq<usize>|
                    #[trigger] self.is_walk(w) && w[0] == from && w.last() == to ==> dist[to] + 1 <= w.len(),
                forall|k: int|
                    #![trigger path@[k]]
                    0 <= k < path@.len() ==> self.edge(
                        if k + 1 < path@.len() {
                            path@[k + 1]
                        } else {
                            current
                        },
                        path@[k],
                    ),
            decreases if current == from {
                0
            } else if rank.contains_key(current) {
                rank[current] + 1
            } else {
                0
            },
        {
            match assoc_lookup(&came_from, current) {
                Some(parent) => {
                    proof {
                        let k = lemma_assoc_index(came_from@, current);
                        assert(came_from@[k] == came_from@[k]);
                        assert(came_from@[k].1 == parent);
                        lemma_labelled_facts(from, came_from@, dist);
                        assert(found) by {
                            if !found {
                                assert(assoc_has(came_from@, current)) by {
                                    reveal(assoc_has);
                                }
                                assert(is_found(came_from@, from, to));
                                assert(processed.contains(to) || frontier@.contains(to));
                            }
                        }
                    }
                    let ghost p0 = path@;
                    path.push(current);
                    proof {
                        assert forall|k: int|
                            #![trigger path@[k]]
                            0 <= k < path@.len() implies self.edge(
                            if k + 1 < path@.len() {
                                path@[k + 1]
                            } else {
                                parent
                            },
                            path@[k],
                        ) by {
                            if k + 1 < p0.len() {
                                assert(path@[k] == p0[k] && path@[k + 1] == p0[k + 1]);
                            } else if k + 1 == p0.len() {
                                assert(path@[k] == p0[k]);
                            }
                        }
                    }
                    current = parent;
                },
                None => {
                    proof {
                        assert(current == to && !found);
                        assert(!is_found(came_from@, from, to));
                        if self.reachable(from, to) {
                            let w = choose|w: Seq<usize>|
                                #[trigger] self.is_walk(w) && w[0] == from && w.last() == to;
                            assert forall|u: usize, v: usize|
                                #[trigger] is_found(came_from@, from, u) && #[trigger] self.edge(
                                    u,
                                    v,
                                ) implies is_found(came_from@, from, v) by {
                                assert(processed.contains(u) || frontier@.contains(u));
                                assert(!frontier@.contains(u));
                            }
                            lemma_walk_found(*self, from, came_from@, w);
                            assert(is_found(came_from@, from, w[w.len() - 1]));
                        }
                    }
                    return None;
                },
            }
        }
        proof {
            assert(found) by {
                if !found {
                    assert(is_found(came_from@, from, from));
                    assert(processed.contains(from) || frontier@.contains(from));
                    assert(processed.contains(from));
                    assert(current == to);
                }
            }
            lemma_labelled_facts(from, came_from@, dist);
        }
        let ghost p0 = path@;
        path.push(current);
        proof {
            assert forall|w: Seq<usize>| #[trigger] self.is_walk(w) && w[0] == from && w.last() == to implies path@.len()
                <= w.len() by {
                assert(dist[to] + 1 <= w.len());
            }
            let p = path@;
            assert forall|k: int| #![trigger p[k]] 0 <= k < p.len() - 1 implies self.edge(
                p[k + 1],
                p[k],
            ) by {
                assert(p[k] == p0[k]);
                if k + 1 < p0.len() {
                    assert(p[k + 1] == p0[k + 1]);
                }
            }
            let w = p.reverse();
            assert forall|j: int| #![trigger w[j]] 0 <= j < w.len() - 1 implies self.edge(
                w[j],
                w[j + 1],
            ) by {
                let k = p.len() - 2 - j;
                assert(w[j] == p[k + 1] && w[j + 1] == p[k]);
                assert(p[k] == p[k]);
            }
            assert(self.is_walk(w) && w[0] == from && w.last() == to);
        }
        Some(Path(path))
    }
}

/// With unique keys, the value of the one entry holding key `c`.
proof fn lemma_assoc_index(s: Seq<(usize, usize)>, c: usize) -> (i: int)
    requires
        keys_unique(s),
        assoc_has(s, c),
    ensures
        0 <= i < s.len(),
        s[i].0 == c,
        forall|j: int| 0 <= j < s.len() && s[j].0 == c ==> j == i,
{
    reveal(assoc_has);
    let i = choose|i: int| 0 <= i < s.len() && s[i].0 == c;
    i
}

/// The value of the entry of `s` with key `c`, if there is one.
fn assoc_lookup(s: &Vec<(usize, usize)>, c: usize) -> (r: Option<usize>)
    requires
        keys_unique(s@),
    ensures
        r is None <==> !assoc_has(s@, c),
        r matches Some(v) ==> exists|i: int| 0 <= i < s@.len() && s@[i] == (c, v),
{
    let mut i: usize = 0;
    while i < s.len()
        invariant
            i <= s@.len(),
            forall|j: int| 0 <= j < i ==> s@[j].0 != c,
        decreases s.len() - i,
    {
        if s[i].0 == c {
            proof {
                reveal(assoc_has);
                assert(s@[i as int] == (c, s@[i as int].1));
            }
            return Some(s[i].1);
        }
        i = i + 1;
    }
    proof {
        reveal(assoc_has);
    }
    None
}

/// Whether `s` holds an entry with key `c`.
fn assoc_contains(s: &Vec<(usize, usize)>, c: usize) -> (r: bool)
    ensures
        r == assoc_has(s@, c),
{
    let mut i: usize = 0;
    while i < s.len()
        invariant
            i <= s@.len(),
            forall|j: int| 0 <= j < i ==> s@[j].0 != c,
        decreases s.len() - i,
    {
        if s[i].0 == c {
            proof {
                reveal(assoc_has);
                assert(s@[i as int].0 == c);
            }
            return true;
        }
        i = i + 1;
    }
    proof {
        reveal(assoc_has);
    }
    false
}

} // verus!
