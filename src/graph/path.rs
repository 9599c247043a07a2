use super::{validate_vertex, vertex_error, Graph};
use crate::error::InvalidArgument;
use crate::queue::resizingqueue::ResizingQueue;
use vstd::prelude::*;

verus! {

/// `p` is a walk in `g` from `s` to `t`: it starts at `s`, ends at `t`, and each vertex after
/// the first is a neighbour of the one before.
pub open spec fn is_path(g: Graph, p: Seq<usize>, s: int, t: int) -> bool {
    &&& p.len() >= 1
    &&& p[0] == s
    &&& p.last() == t
    &&& forall|i: int| 0 <= i < p.len() - 1 ==> #[trigger] g.adjacent(p[i] as int, p[i + 1] as int)
}

/// There is a walk in `g` from `s` to `t`.
pub open spec fn reachable(g: Graph, s: int, t: int) -> bool {
    exists|p: Seq<usize>| is_path(g, p, s, t)
}

/// Number of `true` entries.
pub open spec fn count_true(m: Seq<bool>) -> nat
    decreases m.len(),
{
    if m.len() == 0 {
        0
    } else {
        count_true(m.drop_last()) + if m.last() {
            1nat
        } else {
            0nat
        }
    }
}

proof fn lemma_count_true_bound(m: Seq<bool>)
    ensures
        count_true(m) <= m.len(),
    decreases m.len(),
{
    if m.len() > 0 {
        lemma_count_true_bound(m.drop_last());
    }
}

proof fn lemma_count_true_none(m: Seq<bool>)
    requires
        forall|i: int| 0 <= i < m.len() ==> !#[trigger] m[i],
    ensures
        count_true(m) == 0,
    decreases m.len(),
{
    if m.len() > 0 {
        lemma_count_true_none(m.drop_last());
    }
}

proof fn lemma_count_true_set(m: Seq<bool>, i: int)
    requires
        0 <= i < m.len(),
        !m[i],
    ensures
        count_true(m.update(i, true)) == count_true(m) + 1,
    decreases m.len(),
{
    if i < m.len() - 1 {
        lemma_count_true_set(m.drop_last(), i);
        assert(m.update(i, true).drop_last() =~= m.drop_last().update(i, true));
    } else {
        assert(m.update(i, true).drop_last() =~= m.drop_last());
    }
}

/// Where every marked vertex has all its neighbours marked, a walk that starts at a marked
/// vertex ends at one.
pub proof fn lemma_closed_walk(g: Graph, marked: Seq<bool>, p: Seq<usize>)
    requires
        p.len() >= 1,
        p[0] < marked.len(),
        marked[p[0] as int],
        marked.len() == g.num_vertices(),
        forall|i: int| 0 <= i < p.len() - 1 ==> #[trigger] g.adjacent(p[i] as int, p[i + 1] as int),
        forall|u: int, k: int|
            0 <= u < marked.len() && marked[u] && 0 <= k < g.neighbors(u).len()
                ==> #[trigger] marked[g.neighbors(u)[k] as int],
    ensures
        marked[p.last() as int],
    decreases p.len(),
{
    if p.len() > 1 {
        let q = p.drop_last();
        assert forall|i: int| 0 <= i < q.len() - 1 implies #[trigger] g.adjacent(
            q[i] as int,
            q[i + 1] as int,
        ) by {
            assert(g.adjacent(p[i] as int, p[i + 1] as int));
        }
        lemma_closed_walk(g, marked, q);
        let u = q.last() as int;
        let i = p.len() - 2;
        assert(g.adjacent(p[i] as int, p[i + 1] as int));
        let k = choose|k: int| 0 <= k < g.neighbors(u).len() && g.neighbors(u)[k] == p.last();
        assert(marked[g.neighbors(u)[k] as int]);
    }
}

/// Where every marked vertex has all its neighbours marked at a distance at most one more, a
/// walk from a marked vertex at distance 0 ends at a marked vertex whose distance is below the
/// number of vertices on the walk.
pub proof fn lemma_dist_along_walk(g: Graph, marked: Seq<bool>, dist: Seq<usize>, p: Seq<usize>)
    requires
        p.len() >= 1,
        p[0] < marked.len(),
        marked[p[0] as int],
        dist[p[0] as int] == 0,
        marked.len() == g.num_vertices(),
        dist.len() == g.num_vertices(),
        forall|i: int| 0 <= i < p.len() - 1 ==> #[trigger] g.adjacent(p[i] as int, p[i + 1] as int),
        forall|u: int, k: int|
            0 <= u < marked.len() && marked[u] && 0 <= k < g.neighbors(u).len()
                ==> #[trigger] marked[g.neighbors(u)[k] as int],
        forall|u: int, k: int|
            0 <= u < marked.len() && marked[u] && 0 <= k < g.neighbors(u).len()
                ==> #[trigger] dist[g.neighbors(u)[k] as int] <= dist[u] + 1,
    ensures
        marked[p.last() as int],
        dist[p.last() as int] < p.len(),
    decreases p.len(),
{
    if p.len() > 1 {
        let q = p.drop_last();
        assert forall|i: int| 0 <= i < q.len() - 1 implies #[trigger] g.adjacent(
            q[i] as int,
            q[i + 1] as int,
        ) by {
            assert(g.adjacent(p[i] as int, p[i + 1] as int));
        }
        lemma_dist_along_walk(g, marked, dist, q);
        let u = q.last() as int;
        let i = p.len() - 2;
        assert(g.adjacent(p[i] as int, p[i + 1] as int));
        let k = choose|k: int| 0 <= k < g.neighbors(u).len() && g.neighbors(u)[k] == p.last();
        assert(marked[g.neighbors(u)[k] as int]);
        assert(dist[g.neighbors(u)[k] as int] <= dist[u] + 1);
    }
}

/// `Ok` when `sources` is not empty and each of its items is a vertex in `0..n`.
pub fn validate_vertices(sources: &[usize], n: usize) -> (r: Result<(), InvalidArgument>)
    ensures
        r is Ok <==> (sources@.len() > 0 && forall|i: int|
            0 <= i < sources@.len() ==> #[trigger] sources@[i] < n),
{
    if sources.len() == 0 {
        return Err(InvalidArgument(String::from_str("zero vertices")));
    }
    let mut i: usize = 0;
    while i < sources.len()
        invariant
            i <= sources@.len(),
            forall|k: int| 0 <= k < i ==> #[trigger] sources@[k] < n,
        decreases sources@.len() - i,
    {
        if sources[i] >= n {
            return Err(vertex_error(sources[i], n));
        }
        i = i + 1;
    }
    Ok(())
}

/// Reverses a path collected from its end back to its start.
fn reversed(v: Vec<usize>) -> (r: Vec<usize>)
    ensures
        r@ == v@.reverse(),
{
    let mut v = v;
    let mut r: Vec<usize> = Vec::new();
    let ghost orig = v@;
    while v.len() > 0
        invariant
            r@ + v@.reverse() == orig.reverse(),
        decreases v@.len(),
    {
        let ghost before = v@;
        let x = v.pop().unwrap();
        assert(before.reverse() =~= seq![x] + v@.reverse());
        r.push(x);
        assert(r@ + v@.reverse() =~= orig.reverse());
    }
    assert(v@.reverse() =~= Seq::<usize>::empty());
    assert(r@ =~= orig.reverse());
    r
}

/// The vertices reached by a depth-first search from a source vertex, with a path to each.
pub struct DepthFirstPaths {
    marked: Vec<bool>,
    edge_to: Vec<usize>,
    s: usize,
    depth: Ghost<Seq<nat>>,
    graph: Ghost<Graph>,
}

impl DepthFirstPaths {
    /// The graph searched.
    pub closed spec fn graph(&self) -> Graph {
        self.graph@
    }

    /// The source vertex.
    pub closed spec fn source(&self) -> nat {
        self.s as nat
    }

    /// Whether the search reached `v`.
    pub closed spec fn reached(&self, v: int) -> bool {
        self.marked@[v]
    }

    /// Each reached vertex but the source was reached from a reached neighbour one level
    /// closer to the source.
    closed spec fn tree(&self) -> bool {
        let g = self.graph@;
        &&& self.marked@.len() == g.num_vertices()
        &&& self.edge_to@.len() == g.num_vertices()
        &&& self.depth@.len() == g.num_vertices()
        &&& self.s < g.num_vertices()
        &&& forall|w: int|
            #![trigger self.edge_to@[w]]
            0 <= w < self.marked@.len() && self.marked@[w] && w != self.s ==> {
                &&& self.edge_to@[w] < g.num_vertices()
                &&& self.marked@[self.edge_to@[w] as int]
                &&& g.adjacent(self.edge_to@[w] as int, w)
                &&& self.depth@[self.edge_to@[w] as int] < self.depth@[w]
            }
    }

    pub closed spec fn wf(&self) -> bool {
        &&& self.tree()
        &&& self.graph@.wf()
        &&& self.marked@[self.s as int]
    }

    proof fn lemma_reached_is_reachable(&self, w: int)
        requires
            self.tree(),
            0 <= w < self.marked@.len(),
            self.marked@[w],
            self.marked@[self.s as int],
        ensures
            reachable(self.graph@, self.s as int, w),
        decreases self.depth@[w],
    {
        if w == self.s {
            let p = seq![self.s];
            assert(is_path(self.graph@, p, self.s as int, w));
        } else {
            let u = self.edge_to@[w] as int;
            self.lemma_reached_is_reachable(u);
            let p = choose|p: Seq<usize>| is_path(self.graph@, p, self.s as int, u);
            let q = p.push(w as usize);
            assert forall|i: int| 0 <= i < q.len() - 1 implies #[trigger] self.graph@.adjacent(
                q[i] as int,
                q[i + 1] as int,
            ) by {
                if i < p.len() - 1 {
                    assert(self.graph@.adjacent(p[i] as int, p[i + 1] as int));
                }
            }
            assert(is_path(self.graph@, q, self.s as int, w));
        }
    }

    /// Searches `g` from `s`, or returns an error when `s` is not a vertex.
    pub fn new(g: &Graph, s: usize) -> (r: Result<Self, InvalidArgument>)
        requires
            g.wf(),
        ensures
            r is Ok <==> s < g.num_vertices(),
            r is Ok ==> {
                &&& r->Ok_0.wf()
                &&& r->Ok_0.graph() == *g
                &&& r->Ok_0.source() == s
                &&& forall|v: int|
                    0 <= v < g.num_vertices() ==> (#[trigger] r->Ok_0.reached(v) <==> reachable(
                        *g,
                        s as int,
                        v,
                    ))
            },
    {
        let n = g.count_vertices();
        match validate_vertex(s, n) {
            Err(e) => {
                return Err(e);
            },
            Ok(()) => {},
        }
        let mut marked: Vec<bool> = Vec::new();
        let mut edge_to: Vec<usize> = Vec::new();
        while marked.len() < n
            invariant
                marked@.len() == edge_to@.len() <= n,
                forall|i: int| 0 <= i < marked@.len() ==> !#[trigger] marked@[i],
            decreases n - marked@.len(),
        {
            marked.push(false);
            edge_to.push(0);
        }
        let mut paths = DepthFirstPaths {
            marked,
            edge_to,
            s,
            depth: Ghost(Seq::new(n as nat, |i: int| 0nat)),
            graph: Ghost(*g),
        };
        paths.dfs(g, s);
        proof {
            assert forall|v: int| 0 <= v < n implies (#[trigger] paths.reached(v) <==> reachable(
                *g,
                s as int,
                v,
            )) by {
                if paths.marked@[v] {
                    paths.lemma_reached_is_reachable(v);
                } else if reachable(*g, s as int, v) {
                    let p = choose|p: Seq<usize>| is_path(*g, p, s as int, v);
                    lemma_closed_walk(*g, paths.marked@, p);
                }
            }
        }
        Ok(paths)
    }

    // Marks `v` and every vertex reachable from it through unmarked vertices.
    #[verifier::rlimit(100)]
    fn dfs(&mut self, g: &Graph, v: usize)
        requires
            old(self).tree(),
            old(self).graph@ == *g,
            g.wf(),
            v < g.num_vertices(),
            !old(self).marked@[v as int],
            v != old(self).s ==> {
                &&& old(self).edge_to@[v as int] < g.num_vertices()
                &&& old(self).marked@[old(self).edge_to@[v as int] as int]
                &&& g.adjacent(old(self).edge_to@[v as int] as int, v as int)
                &&& old(self).depth@[old(self).edge_to@[v as int] as int] < old(self).depth@[v as int]
            },
        ensures
            final(self).tree(),
            final(self).graph@ == *g,
            final(self).s == old(self).s,
            final(self).marked@[v as int],
            forall|u: int|
                0 <= u < g.num_vertices() && #[trigger] old(self).marked@[u] ==> final(self).marked@[u],
            forall|u: int, k: int|
                0 <= u < g.num_vertices() && final(self).marked@[u] && !old(self).marked@[u] && 0 <= k
                    < g.neighbors(u).len() ==> #[trigger] final(self).marked@[g.neighbors(u)[k] as int],
        decreases g.num_vertices() - count_true(old(self).marked@),
    {
        proof {
            lemma_count_true_set(self.marked@, v as int);
            lemma_count_true_bound(self.marked@.update(v as int, true));
        }
        self.marked.set(v, true);
        let ghost entry = self.marked@;
        let nbrs = g.neighbor_list(v);
        proof {
            g.lemma_neighbors_are_vertices(v as int);
        }
        let mut i: usize = 0;
        while i < nbrs.len()
            invariant
                self.tree(),
                self.graph@ == *g,
                g.wf(),
                self.s == old(self).s,
                v < g.num_vertices(),
                nbrs@ == g.neighbors(v as int),
                i <= nbrs@.len(),
                self.marked@[v as int],
                count_true(entry) == count_true(old(self).marked@) + 1,
                count_true(entry) <= g.num_vertices(),
                entry.len() == g.num_vertices(),
                self.marked@.len() == g.num_vertices(),
                forall|k: int| 0 <= k < nbrs@.len() ==> #[trigger] nbrs@[k] < g.num_vertices(),
                forall|u: int| 0 <= u < g.num_vertices() && #[trigger] old(self).marked@[u] ==> self.marked@[u],
                forall|u: int| 0 <= u < g.num_vertices() && #[trigger] entry[u] ==> self.marked@[u],
                forall|k: int| 0 <= k < i ==> #[trigger] self.marked@[nbrs@[k] as int],
                forall|u: int, k: int|
                    0 <= u < g.num_vertices() && self.marked@[u] && !old(self).marked@[u] && u != v
                        && 0 <= k < g.neighbors(u).len() ==> #[trigger] self.marked@[g.neighbors(u)[k] as int],
            decreases nbrs@.len() - i,
        {
            let w = nbrs[i];
            proof {
                assert(g.neighbors(v as int)[i as int] == w);
                assert(g.neighbors(v as int).contains(w));
            }
            let ghost before = self.marked@;
            if !self.marked[w] {
                self.edge_to.set(w, v);
                proof {
                    self.depth@ = self.depth@.update(w as int, self.depth@[v as int] + 1);
                    lemma_count_true_sub(entry, self.marked@);
                    lemma_count_true_bound(self.marked@);
                }
                self.dfs(g, w);
            }
            proof {
                assert forall|k: int| 0 <= k < i + 1 implies #[trigger] self.marked@[nbrs@[k] as int] by {
                    if k < i {
                        assert(before[nbrs@[k] as int]);
                    }
                }
                assert forall|u: int, k: int|
                    0 <= u < g.num_vertices() && self.marked@[u] && !old(self).marked@[u] && u != v
                        && 0 <= k < g.neighbors(u).len() implies #[trigger] self.marked@[g.neighbors(u)[k] as int] by {
                    if before[u] {
                        assert(before[g.neighbors(u)[k] as int]);
                    }
                }
            }
            i = i + 1;
        }
    }

    /// Whether there is a path from the source to `v`, or an error when `v` is not a vertex.
    pub fn has_path_to(&self, v: usize) -> (r: Result<bool, InvalidArgument>)
        requires
            self.wf(),
        ensures
            r is Ok <==> v < self.graph().num_vertices(),
            r is Ok ==> r->Ok_0 == self.reached(v as int),
    {
        match self.validate_vertex(v) {
            Err(e) => Err(e),
            Ok(()) => Ok(self.marked[v]),
        }
    }

    /// A path from the source to `v` (empty when there is none), or an error when `v` is not a
    /// vertex.
    pub fn path_to(&self, v: usize) -> (r: Result<Vec<usize>, InvalidArgument>)
        requires
            self.wf(),
        ensures
            r is Ok <==> v < self.graph().num_vertices(),
            r is Ok && self.reached(v as int) ==> is_path(
                self.graph(),
                r->Ok_0@,
                self.source() as int,
                v as int,
            ),
            r is Ok && !self.reached(v as int) ==> r->Ok_0@.len() == 0,
    {
        match self.has_path_to(v) {
            Err(e) => Err(e),
            Ok(false) => Ok(Vec::new()),
            Ok(true) => {
                let mut back: Vec<usize> = Vec::new();
                let mut x = v;
                back.push(x);
                while x != self.s
                    invariant
                        self.wf(),
                        x < self.marked@.len(),
                        self.marked@[x as int],
                        back@.len() >= 1,
                        back@[0] == v,
                        back@.last() == x,
                        forall|i: int|
                            0 <= i < back@.len() - 1 ==> #[trigger] self.graph@.adjacent(
                                back@[i + 1] as int,
                                back@[i] as int,
                            ),
                    decreases self.depth@[x as int],
                {
                    x = self.edge_to[x];
                    back.push(x);
                }
                let r = reversed(back);
                proof {
                    assert forall|i: int| 0 <= i < r@.len() - 1 implies #[trigger] self.graph@.adjacent(
                        r@[i] as int,
                        r@[i + 1] as int,
                    ) by {
                        let j = back@.len() - 2 - i;
                        assert(self.graph@.adjacent(back@[j + 1] as int, back@[j] as int));
                    }
                }
                Ok(r)
            },
        }
    }

    fn validate_vertex(&self, v: usize) -> (r: Result<(), InvalidArgument>)
        ensures
            r is Ok <==> v < self.marked@.len(),
    {
        validate_vertex(v, self.marked.len())
    }
}

/// The vertices reached by a breadth-first search from one or more source vertices, with a
/// shortest path to each and its number of edges.
pub struct BreadthFirstPaths {
    marked: Vec<bool>,
    edge_to: Vec<usize>,
    dist_to: Vec<usize>,
    sources: Ghost<Seq<usize>>,
    graph: Ghost<Graph>,
}

/// Distance recorded for a vertex that the search did not reach.
pub const INFINITY: usize = usize::MAX;

impl BreadthFirstPaths {
    /// The graph searched.
    pub closed spec fn graph(&self) -> Graph {
        self.graph@
    }

    /// The source vertices.
    pub closed spec fn sources(&self) -> Seq<usize> {
        self.sources@
    }

    /// Whether the search reached `v`.
    pub closed spec fn reached(&self, v: int) -> bool {
        self.marked@[v]
    }

    /// The distance recorded for `v`.
    pub closed spec fn dist(&self, v: int) -> nat {
        self.dist_to@[v] as nat
    }

    /// Each reached vertex at distance 0 is a source; each other one was reached from a
    /// reached neighbour one edge closer; distances stay below the number of reached
    /// vertices; an unreached vertex has distance `INFINITY`.
    closed spec fn tree(&self) -> bool {
        let g = self.graph@;
        let n = g.num_vertices();
        &&& self.marked@.len() == n
        &&& self.edge_to@.len() == n
        &&& self.dist_to@.len() == n
        &&& forall|w: int|
            #![trigger self.edge_to@[w]]
            0 <= w < n && self.marked@[w] && self.dist_to@[w] != 0 ==> {
                &&& self.edge_to@[w] < n
                &&& self.marked@[self.edge_to@[w] as int]
                &&& g.adjacent(self.edge_to@[w] as int, w)
                &&& self.dist_to@[self.edge_to@[w] as int] + 1 == self.dist_to@[w]
            }
        &&& forall|w: int|
            #![trigger self.dist_to@[w]]
            0 <= w < n ==> {
                &&& self.marked@[w] && self.dist_to@[w] == 0 ==> self.sources@.contains(w as usize)
                &&& self.marked@[w] ==> self.dist_to@[w] < count_true(self.marked@)
                &&& !self.marked@[w] ==> self.dist_to@[w] == INFINITY
            }
    }

    pub closed spec fn wf(&self) -> bool {
        &&& self.tree()
        &&& self.graph@.wf()
    }

    /// Searches `g` from `s`, or returns an error when `s` is not a vertex.
    pub fn new(g: &Graph, s: usize) -> (r: Result<Self, InvalidArgument>)
        requires
            g.wf(),
        ensures
            r is Ok <==> s < g.num_vertices(),
            r is Ok ==> {
                &&& r->Ok_0.wf()
                &&& r->Ok_0.graph() == *g
                &&& r->Ok_0.sources() == seq![s]
                &&& forall|v: int|
                    0 <= v < g.num_vertices() ==> (#[trigger] r->Ok_0.reached(v) <==> reachable(
                        *g,
                        s as int,
                        v,
                    ))
                &&& forall|v: int, p: Seq<usize>|
                    #[trigger] is_path(*g, p, s as int, v) ==> r->Ok_0.dist(v) < p.len()
            },
    {
        let n = g.count_vertices();
        match validate_vertex(s, n) {
            Err(e) => {
                return Err(e);
            },
            Ok(()) => {},
        }
        let sources = vec![s];
        let r = Self::searched(g, sources.as_slice());
        proof {
            assert forall|v: int, p: Seq<usize>| #[trigger] is_path(*g, p, s as int, v) implies r.dist(v) < p.len() by {
                assert(sources@[0] == s);
                assert(is_path(*g, p, sources@[0] as int, v));
            }
            assert forall|v: int| 0 <= v < g.num_vertices() implies (#[trigger] r.reached(v)
                <==> reachable(*g, s as int, v)) by {
                if reachable(*g, s as int, v) {
                    assert(sources@[0] == s);
                }
            }
        }
        Ok(r)
    }

    /// Searches `g` from all the vertices of `sources` at once, or returns an error when
    /// `sources` is empty or holds an item that is not a vertex.
    pub fn new_multiple_sources(g: &Graph, sources: &[usize]) -> (r: Result<
        Self,
        InvalidArgument,
    >)
        requires
            g.wf(),
        ensures
            r is Ok <==> (sources@.len() > 0 && forall|i: int|
                0 <= i < sources@.len() ==> #[trigger] sources@[i] < g.num_vertices()),
            r is Ok ==> {
                &&& r->Ok_0.wf()
                &&& r->Ok_0.graph() == *g
                &&& r->Ok_0.sources() == sources@
                &&& forall|v: int|
                    0 <= v < g.num_vertices() ==> (#[trigger] r->Ok_0.reached(v) <==> exists|i: int|
                        0 <= i < sources@.len() && reachable(*g, #[trigger] sources@[i] as int, v))
                &&& forall|v: int, p: Seq<usize>, i: int|
                    0 <= i < sources@.len() && #[trigger] is_path(*g, p, sources@[i] as int, v)
                        ==> r->Ok_0.dist(v) < p.len()
            },
    {
        match validate_vertices(sources, g.count_vertices()) {
            Err(e) => {
                return Err(e);
            },
            Ok(()) => {},
        }
        Ok(Self::searched(g, sources))
    }

    /// Runs the search from the vertices of `sources`.
    #[verifier::rlimit(100)]
    fn searched(g: &Graph, sources: &[usize]) -> (r: Self)
        requires
            g.wf(),
            sources@.len() > 0,
            forall|i: int| 0 <= i < sources@.len() ==> #[trigger] sources@[i] < g.num_vertices(),
        ensures
            r.wf(),
            r.graph() == *g,
            r.sources() == sources@,
            forall|v: int|
                0 <= v < g.num_vertices() ==> (#[trigger] r.reached(v) <==> exists|i: int|
                    0 <= i < sources@.len() && reachable(*g, #[trigger] sources@[i] as int, v)),
            forall|v: int, p: Seq<usize>, i: int|
                0 <= i < sources@.len() && #[trigger] is_path(*g, p, sources@[i] as int, v) ==> r.dist(v)
                    < p.len(),
    {
        let n = g.count_vertices();
        let mut marked: Vec<bool> = Vec::new();
        let mut edge_to: Vec<usize> = Vec::new();
        let mut dist_to: Vec<usize> = Vec::new();
        while marked.len() < n
            invariant
                marked@.len() == edge_to@.len() == dist_to@.len() <= n,
                forall|i: int| 0 <= i < marked@.len() ==> !#[trigger] marked@[i],
                forall|i: int| 0 <= i < marked@.len() ==> #[trigger] dist_to@[i] == INFINITY,
            decreases n - marked@.len(),
        {
            marked.push(false);
            edge_to.push(0);
            dist_to.push(INFINITY);
        }
        let mut paths = BreadthFirstPaths {
            marked,
            edge_to,
            dist_to,
            sources: Ghost(sources@),
            graph: Ghost(*g),
        };
        let mut q: ResizingQueue<usize> = ResizingQueue::new();
        proof {
            lemma_count_true_none(paths.marked@);
        }
        let mut i: usize = 0;
        while i < sources.len()
            invariant
                paths.tree(),
                paths.graph@ == *g,
                paths.sources@ == sources@,
                g.wf(),
                n == g.num_vertices(),
                i <= sources@.len(),
                forall|k: int| 0 <= k < sources@.len() ==> #[trigger] sources@[k] < n,
                forall|k: int| 0 <= k < i ==> #[trigger] paths.marked@[sources@[k] as int],
                forall|k: int| 0 <= k < i ==> paths.dist_to@[#[trigger] sources@[k] as int] == 0,
                i > 0 ==> count_true(paths.marked@) >= 1,
                forall|k: int| 0 <= k < q@.len() ==> #[trigger] q@[k] < n && paths.marked@[q@[k] as int],
                forall|k: int| 0 <= k < q@.len() ==> paths.dist_to@[#[trigger] q@[k] as int] == 0,
                forall|u: int| 0 <= u < n && #[trigger] paths.marked@[u] ==> q@.contains(u as usize),
                count_true(paths.marked@) <= n,
                q@.len() == count_true(paths.marked@),
            decreases sources@.len() - i,
        {
            let s = sources[i];
            let ghost qb = q@;
            let ghost before = paths.marked@;
            if !paths.marked[s] {
                proof {
                    lemma_count_true_set(paths.marked@, s as int);
                    lemma_count_true_bound(paths.marked@.update(s as int, true));
                }
                paths.marked.set(s, true);
                paths.dist_to.set(s, 0);
                q.enqueue(s);
                proof {
                    assert(sources@[i as int] == s);
                    assert(sources@.contains(s));
                    assert forall|u: int| 0 <= u < n && #[trigger] paths.marked@[u] implies q@.contains(
                        u as usize,
                    ) by {
                        if u != s {
                            assert(before[u]);
                            let k = choose|k: int| 0 <= k < qb.len() && qb[k] == u as usize;
                            assert(q@[k] == u as usize);
                        } else {
                            assert(q@[q@.len() - 1] == s);
                        }
                    }
                    assert forall|k: int| 0 <= k < q@.len() implies paths.dist_to@[#[trigger] q@[k] as int] == 0 by {
                        if k < qb.len() {
                            assert(q@[k] == qb[k]);
                        }
                    }
                }
            }
            proof {
                assert forall|k: int| 0 <= k < i + 1 implies #[trigger] paths.marked@[sources@[k] as int] by {
                    if k < i {
                        assert(before[sources@[k] as int]);
                    }
                }
                assert forall|k: int| 0 <= k < i + 1 implies paths.dist_to@[#[trigger] sources@[k] as int] == 0 by {
                    let x = sources@[k] as int;
                    assert(paths.marked@[x]);
                    assert(q@.contains(x as usize));
                    let t = choose|t: int| 0 <= t < q@.len() && q@[t] == x as usize;
                    assert(paths.dist_to@[q@[t] as int] == 0);
                }
            }
            i = i + 1;
        }
        while !q.is_empty()
            invariant
                paths.tree(),
                paths.graph@ == *g,
                paths.sources@ == sources@,
                g.wf(),
                n == g.num_vertices(),
                forall|k: int| 0 <= k < sources@.len() ==> #[trigger] sources@[k] < n,
                forall|k: int| 0 <= k < sources@.len() ==> #[trigger] paths.marked@[sources@[k] as int],
                forall|k: int| 0 <= k < sources@.len() ==> paths.dist_to@[#[trigger] sources@[k] as int] == 0,
                count_true(paths.marked@) >= 1,
                count_true(paths.marked@) <= n,
                forall|k: int| 0 <= k < q@.len() ==> #[trigger] q@[k] < n && paths.marked@[q@[k] as int],
                forall|u: int, k: int|
                    0 <= u < n && paths.marked@[u] && !q@.contains(u as usize) && 0 <= k
                        < g.neighbors(u).len() ==> #[trigger] paths.marked@[g.neighbors(u)[k] as int],
                forall|u: int, k: int|
                    0 <= u < n && paths.marked@[u] && !q@.contains(u as usize) && 0 <= k
                        < g.neighbors(u).len() ==> #[trigger] paths.dist_to@[g.neighbors(u)[k] as int]
                        <= paths.dist_to@[u] + 1,
                forall|k1: int, k2: int|
                    0 <= k1 <= k2 < q@.len() ==> paths.dist_to@[#[trigger] q@[k1] as int]
                        <= paths.dist_to@[#[trigger] q@[k2] as int],
                q@.len() > 0 ==> forall|k: int|
                    0 <= k < q@.len() ==> paths.dist_to@[#[trigger] q@[k] as int] <= paths.dist_to@[q@[0] as int] + 1,
                q@.len() > 0 ==> forall|u: int|
                    0 <= u < n && #[trigger] paths.marked@[u] && !q@.contains(u as usize) ==> paths.dist_to@[u]
                        <= paths.dist_to@[q@[0] as int],
            decreases n - count_true(paths.marked@) + q@.len(),
        {
            let ghost q_old = q@;
            let v = q.dequeue().unwrap();
            let ghost dv = paths.dist_to@[v as int];
            proof {
                assert(q_old[0] == v);
                assert forall|u: int, k: int|
                    0 <= u < n && paths.marked@[u] && !q@.contains(u as usize) && u != v && 0 <= k
                        < g.neighbors(u).len() implies #[trigger] paths.marked@[g.neighbors(u)[k] as int]
                        && paths.dist_to@[g.neighbors(u)[k] as int] <= paths.dist_to@[u] + 1 by {
                    if q_old.contains(u as usize) {
                        let t = choose|t: int| 0 <= t < q_old.len() && q_old[t] == u as usize;
                        assert(t != 0);
                        assert(q@[t - 1] == u as usize);
                    }
                }
                assert forall|u: int| 0 <= u < n && #[trigger] paths.marked@[u] && !q@.contains(u as usize) && u != v implies paths.dist_to@[u] <= dv by {
                    if q_old.contains(u as usize) {
                        let t = choose|t: int| 0 <= t < q_old.len() && q_old[t] == u as usize;
                        assert(t != 0);
                        assert(q@[t - 1] == u as usize);
                    }
                }
                assert forall|k: int| 0 <= k < q@.len() implies dv <= paths.dist_to@[#[trigger] q@[k] as int] <= dv + 1 by {
                    assert(q@[k] == q_old[k + 1]);
                    assert(paths.dist_to@[q_old[0] as int] <= paths.dist_to@[q_old[k + 1] as int]);
                    assert(paths.dist_to@[q_old[k + 1] as int] <= paths.dist_to@[q_old[0] as int] + 1);
                }
                assert forall|k1: int, k2: int| 0 <= k1 <= k2 < q@.len() implies paths.dist_to@[#[trigger] q@[k1] as int]
                    <= paths.dist_to@[#[trigger] q@[k2] as int] by {
                    assert(q@[k1] == q_old[k1 + 1]);
                    assert(q@[k2] == q_old[k2 + 1]);
                    assert(paths.dist_to@[q_old[k1 + 1] as int] <= paths.dist_to@[q_old[k2 + 1] as int]);
                }
            }
            let ghost old_marked = paths.marked@;
            let ghost old_q_len = q@.len();
            let nbrs = g.neighbor_list(v);
            proof {
                g.lemma_neighbors_are_vertices(v as int);
            }
            let mut j: usize = 0;
            while j < nbrs.len()
                invariant
                    paths.tree(),
                    paths.graph@ == *g,
                    paths.sources@ == sources@,
                    g.wf(),
                    n == g.num_vertices(),
                    v < n,
                    paths.marked@[v as int],
                    paths.dist_to@[v as int] == dv,
                    nbrs@ == g.neighbors(v as int),
                    j <= nbrs@.len(),
                    forall|k: int| 0 <= k < nbrs@.len() ==> #[trigger] nbrs@[k] < n,
                    forall|k: int| 0 <= k < sources@.len() ==> #[trigger] sources@[k] < n,
                    forall|k: int| 0 <= k < sources@.len() ==> #[trigger] paths.marked@[sources@[k] as int],
                    forall|k: int| 0 <= k < sources@.len() ==> paths.dist_to@[#[trigger] sources@[k] as int] == 0,
                    count_true(paths.marked@) >= 1,
                    count_true(paths.marked@) <= n,
                    forall|k: int| 0 <= k < q@.len() ==> #[trigger] q@[k] < n && paths.marked@[q@[k] as int],
                    forall|k: int| 0 <= k < j ==> #[trigger] paths.marked@[nbrs@[k] as int],
                    forall|k: int| 0 <= k < j ==> paths.dist_to@[#[trigger] nbrs@[k] as int] <= dv + 1,
                    forall|u: int, k: int|
                        0 <= u < n && paths.marked@[u] && !q@.contains(u as usize) && u != v && 0
                            <= k < g.neighbors(u).len() ==> #[trigger] paths.marked@[g.neighbors(
                            u,
                        )[k] as int] && paths.dist_to@[g.neighbors(u)[k] as int] <= paths.dist_to@[u] + 1,
                    forall|u: int|
                        0 <= u < n && #[trigger] paths.marked@[u] && !q@.contains(u as usize) && u != v
                            ==> paths.dist_to@[u] <= dv,
                    forall|k: int| 0 <= k < q@.len() ==> dv <= paths.dist_to@[#[trigger] q@[k] as int] <= dv + 1,
                    forall|k1: int, k2: int|
                        0 <= k1 <= k2 < q@.len() ==> paths.dist_to@[#[trigger] q@[k1] as int]
                            <= paths.dist_to@[#[trigger] q@[k2] as int],
                    n - count_true(paths.marked@) + q@.len() == n - count_true(old_marked) + old_q_len,
                decreases nbrs@.len() - j,
            {
                let w = nbrs[j];
                let ghost before = paths.marked@;
                let ghost bdist = paths.dist_to@;
                let ghost qb = q@;
                if !paths.marked[w] {
                    proof {
                        lemma_count_true_set(paths.marked@, w as int);
                        lemma_count_true_bound(paths.marked@.update(w as int, true));
                        assert(g.neighbors(v as int)[j as int] == w);
                        assert(g.neighbors(v as int).contains(w));
                    }
                    let dvx = paths.dist_to[v];
                    paths.edge_to.set(w, v);
                    paths.dist_to.set(w, dvx + 1);
                    paths.marked.set(w, true);
                    q.enqueue(w);
                } else {
                    proof {
                        if qb.contains(w) {
                            let t = choose|t: int| 0 <= t < qb.len() && qb[t] == w;
                            assert(dv <= paths.dist_to@[qb[t] as int] <= dv + 1);
                        }
                    }
                }
                proof {
                    assert forall|x: int| 0 <= x < n && before[x] implies paths.dist_to@[x] == bdist[x] by {}
                    assert forall|k: int| 0 <= k < j + 1 implies #[trigger] paths.marked@[nbrs@[k] as int] by {
                        if k < j {
                            assert(before[nbrs@[k] as int]);
                        }
                    }
                    assert forall|k: int| 0 <= k < j + 1 implies paths.dist_to@[#[trigger] nbrs@[k] as int] <= dv + 1 by {
                        if k < j {
                            assert(before[nbrs@[k] as int]);
                            assert(bdist[nbrs@[k] as int] <= dv + 1);
                        }
                    }
                    assert forall|u: int, k: int|
                        0 <= u < n && paths.marked@[u] && !q@.contains(u as usize) && u != v && 0 <= k
                            < g.neighbors(u).len() implies #[trigger] paths.marked@[g.neighbors(u)[k] as int]
                            && paths.dist_to@[g.neighbors(u)[k] as int] <= paths.dist_to@[u] + 1 by {
                        if before[u] {
                            if qb.contains(u as usize) {
                                let t = choose|t: int| 0 <= t < qb.len() && qb[t] == u as usize;
                                assert(q@[t] == u as usize);
                            }
                            assert(before[g.neighbors(u)[k] as int]);
                        } else {
                            assert(q@[q@.len() - 1] == w);
                        }
                    }
                    assert forall|u: int| 0 <= u < n && #[trigger] paths.marked@[u] && !q@.contains(u as usize) && u != v implies paths.dist_to@[u] <= dv by {
                        if before[u] {
                            if qb.contains(u as usize) {
                                let t = choose|t: int| 0 <= t < qb.len() && qb[t] == u as usize;
                                assert(q@[t] == u as usize);
                            }
                        } else {
                            assert(q@[q@.len() - 1] == w);
                        }
                    }
                    assert forall|k: int| 0 <= k < sources@.len() implies #[trigger] paths.marked@[sources@[k] as int] by {
                        assert(before[sources@[k] as int]);
                    }
                    assert forall|k: int| 0 <= k < sources@.len() implies paths.dist_to@[#[trigger] sources@[k] as int] == 0 by {
                        assert(before[sources@[k] as int]);
                        assert(bdist[sources@[k] as int] == 0);
                    }
                    assert forall|k: int| 0 <= k < q@.len() implies #[trigger] q@[k] < n && paths.marked@[q@[k] as int] by {
                        if k < qb.len() {
                            assert(qb[k] == q@[k]);
                            assert(before[qb[k] as int]);
                        }
                    }
                    assert forall|k: int| 0 <= k < q@.len() implies dv <= paths.dist_to@[#[trigger] q@[k] as int] <= dv + 1 by {
                        if k < qb.len() {
                            assert(qb[k] == q@[k]);
                            assert(before[qb[k] as int]);
                        }
                    }
                    assert forall|k1: int, k2: int| 0 <= k1 <= k2 < q@.len() implies paths.dist_to@[#[trigger] q@[k1] as int]
                        <= paths.dist_to@[#[trigger] q@[k2] as int] by {
                        if k2 < qb.len() {
                            assert(qb[k1] == q@[k1] && qb[k2] == q@[k2]);
                            assert(before[qb[k1] as int] && before[qb[k2] as int]);
                        } else {
                            if k1 < qb.len() {
                                assert(qb[k1] == q@[k1]);
                                assert(before[qb[k1] as int]);
                            }
                        }
                    }
                }
                j = j + 1;
            }
            proof {
                assert forall|u: int, k: int|
                    0 <= u < n && paths.marked@[u] && !q@.contains(u as usize) && 0 <= k
                        < g.neighbors(u).len() implies #[trigger] paths.dist_to@[g.neighbors(u)[k] as int]
                        <= paths.dist_to@[u] + 1 by {
                    if u == v {
                        assert(nbrs@[k] == g.neighbors(u)[k]);
                    }
                }
                assert forall|u: int, k: int|
                    0 <= u < n && paths.marked@[u] && !q@.contains(u as usize) && 0 <= k
                        < g.neighbors(u).len() implies #[trigger] paths.marked@[g.neighbors(u)[k] as int] by {
                    if u == v {
                        assert(nbrs@[k] == g.neighbors(u)[k]);
                    }
                }
                if q@.len() > 0 {
                    assert(dv <= paths.dist_to@[q@[0] as int]);
                    assert forall|k: int| 0 <= k < q@.len() implies paths.dist_to@[#[trigger] q@[k] as int] <= paths.dist_to@[q@[0] as int] + 1 by {
                        assert(paths.dist_to@[q@[k] as int] <= dv + 1);
                    }
                    assert forall|u: int| 0 <= u < n && #[trigger] paths.marked@[u] && !q@.contains(u as usize) implies paths.dist_to@[u]
                        <= paths.dist_to@[q@[0] as int] by {
                    }
                }
            }
        }
        proof {
            assert forall|v: int| 0 <= v < n implies (#[trigger] paths.reached(v) <==> exists|i: int|
                0 <= i < sources@.len() && reachable(*g, #[trigger] sources@[i] as int, v)) by {
                if paths.marked@[v] {
                    paths.lemma_reached_from_source(v);
                } else {
                    assert forall|i: int| 0 <= i < sources@.len() implies !reachable(*g, #[trigger] sources@[i] as int, v) by {
                        if reachable(*g, sources@[i] as int, v) {
                            let p = choose|p: Seq<usize>| is_path(*g, p, sources@[i] as int, v);
                            lemma_closed_walk(*g, paths.marked@, p);
                        }
                    }
                }
            }
            assert forall|v: int, p: Seq<usize>, i: int|
                0 <= i < sources@.len() && #[trigger] is_path(*g, p, sources@[i] as int, v) implies paths.dist(v) < p.len() by {
                assert(paths.dist_to@[sources@[i] as int] == 0);
                lemma_dist_along_walk(*g, paths.marked@, paths.dist_to@, p);
            }
        }
        paths
    }

    proof fn lemma_reached_from_source(&self, w: int)
        requires
            self.tree(),
            0 <= w < self.marked@.len(),
            self.marked@[w],
        ensures
            exists|i: int|
                0 <= i < self.sources@.len() && reachable(self.graph@, #[trigger] self.sources@[i] as int, w),
        decreases self.dist_to@[w],
    {
        if self.dist_to@[w] == 0 {
            assert(self.sources@.contains(w as usize));
            let i = choose|i: int| 0 <= i < self.sources@.len() && self.sources@[i] == w as usize;
            let p = seq![w as usize];
            assert(is_path(self.graph@, p, self.sources@[i] as int, w));
        } else {
            let u = self.edge_to@[w] as int;
            self.lemma_reached_from_source(u);
            let i = choose|i: int|
                0 <= i < self.sources@.len() && reachable(self.graph@, #[trigger] self.sources@[i] as int, u);
            let p = choose|p: Seq<usize>| is_path(self.graph@, p, self.sources@[i] as int, u);
            let q = p.push(w as usize);
            assert forall|k: int| 0 <= k < q.len() - 1 implies #[trigger] self.graph@.adjacent(
                q[k] as int,
                q[k + 1] as int,
            ) by {
                if k < p.len() - 1 {
                    assert(self.graph@.adjacent(p[k] as int, p[k + 1] as int));
                }
            }
            assert(is_path(self.graph@, q, self.sources@[i] as int, w));
        }
    }

    /// Whether there is a path from a source to `v`, or an error when `v` is not a vertex.
    pub fn has_path_to(&self, v: usize) -> (r: Result<bool, InvalidArgument>)
        requires
            self.wf(),
        ensures
            r is Ok <==> v < self.graph().num_vertices(),
            r is Ok ==> r->Ok_0 == self.reached(v as int),
    {
        match self.validate_vertex(v) {
            Err(e) => Err(e),
            Ok(()) => Ok(self.marked[v]),
        }
    }

    /// The number of edges on the path that `path_to` gives, which no walk from a source to `v`
    /// undercuts (`INFINITY` when `v` was not reached), or an error when `v` is not a vertex.
    pub fn dist_to(&self, v: usize) -> (r: Result<usize, InvalidArgument>)
        requires
            self.wf(),
        ensures
            r is Ok <==> v < self.graph().num_vertices(),
            r is Ok ==> r->Ok_0 == self.dist(v as int),
            r is Ok && !self.reached(v as int) ==> r->Ok_0 == INFINITY,
    {
        match self.validate_vertex(v) {
            Err(e) => Err(e),
            Ok(()) => Ok(self.dist_to[v]),
        }
    }

    /// A path from a source to `v` with `dist_to(v)` edges (empty when there is none), or an
    /// error when `v` is not a vertex.
    pub fn path_to(&self, v: usize) -> (r: Result<Vec<usize>, InvalidArgument>)
        requires
            self.wf(),
        ensures
            r is Ok <==> v < self.graph().num_vertices(),
            r is Ok && self.reached(v as int) ==> {
                &&& self.sources().contains(r->Ok_0@[0])
                &&& is_path(self.graph(), r->Ok_0@, r->Ok_0@[0] as int, v as int)
                &&& r->Ok_0@.len() == self.dist(v as int) + 1
            },
            r is Ok && !self.reached(v as int) ==> r->Ok_0@.len() == 0,
    {
        match self.has_path_to(v) {
            Err(e) => Err(e),
            Ok(false) => Ok(Vec::new()),
            Ok(true) => {
                let mut back: Vec<usize> = Vec::new();
                let mut x = v;
                back.push(x);
                while self.dist_to[x] != 0
                    invariant
                        self.wf(),
                        x < self.marked@.len(),
                        self.marked@[x as int],
                        back@.len() >= 1,
                        back@[0] == v,
                        back@.last() == x,
                        back@.len() + self.dist_to@[x as int] == self.dist_to@[v as int] + 1,
                        forall|i: int|
                            0 <= i < back@.len() - 1 ==> #[trigger] self.graph@.adjacent(
                                back@[i + 1] as int,
                                back@[i] as int,
                            ),
                    decreases self.dist_to@[x as int],
                {
                    x = self.edge_to[x];
                    back.push(x);
                }
                let r = reversed(back);
                proof {
                    assert(self.dist_to@[x as int] == 0);
                    assert forall|i: int| 0 <= i < r@.len() - 1 implies #[trigger] self.graph@.adjacent(
                        r@[i] as int,
                        r@[i + 1] as int,
                    ) by {
                        let j = back@.len() - 2 - i;
                        assert(self.graph@.adjacent(back@[j + 1] as int, back@[j] as int));
                    }
                }
                Ok(r)
            },
        }
    }

    fn validate_vertex(&self, v: usize) -> (r: Result<(), InvalidArgument>)
        ensures
            r is Ok <==> v < self.marked@.len(),
    {
        validate_vertex(v, self.marked.len())
    }
}

proof fn lemma_count_true_sub(a: Seq<bool>, b: Seq<bool>)
    requires
        a.len() == b.len(),
        forall|u: int| 0 <= u < a.len() && #[trigger] a[u] ==> b[u],
    ensures
        count_true(b) >= count_true(a),
    decreases a.len(),
{
    if a.len() > 0 {
        lemma_count_true_sub(a.drop_last(), b.drop_last());
    }
}

} // verus!
