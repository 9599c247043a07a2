//! Undirected graphs on adjacency lists, and path search in them.
use crate::bag::linkedbag::{LinkedBag, LinkedBagIter};
use crate::error::InvalidArgument;
use vstd::prelude::*;
use vstd::string::StringExecFns;

pub mod path;

verus! {

/// An undirected graph with vertices `0..v`. Each edge `v-w` puts `w` in the adjacency list of
/// `v` and `v` in that of `w`; parallel edges and self-loops are allowed.
pub struct Graph {
    v: usize,
    e: usize,
    adj: Vec<LinkedBag<usize>>,
}

/// Sum of the degrees of the vertices `0..k` of `g`.
pub open spec fn degree_sum(g: Graph, k: int) -> nat
    decreases k,
{
    if k <= 0 {
        0
    } else {
        degree_sum(g, k - 1) + g.neighbors(k - 1).len()
    }
}

/// Changing the degree of vertex `x` by `d` changes the degree sum over `0..k` by `d` when `x`
/// is among them.
proof fn lemma_degree_sum_change(a: Graph, b: Graph, k: int, x: int, d: int)
    requires
        forall|u: int| 0 <= u < k && u != x ==> #[trigger] b.neighbors(u).len() == a.neighbors(u).len(),
        0 <= x < k ==> b.neighbors(x).len() == a.neighbors(x).len() + d,
    ensures
        degree_sum(b, k) == degree_sum(a, k) + if 0 <= x < k {
            d
        } else {
            0
        },
    decreases k,
{
    if k > 0 {
        lemma_degree_sum_change(a, b, k - 1, x, d);
    }
}

/// The message of the error for a vertex outside `0..n`.
pub(crate) fn vertex_error(v: usize, n: usize) -> (r: InvalidArgument) {
    let last = if n == 0 {
        0
    } else {
        n - 1
    };
    let mut msg = String::from_str("vertex ");
    msg.append(v.to_string().as_str());
    msg.append(" is not between 0 and ");
    msg.append(last.to_string().as_str());
    InvalidArgument(msg)
}

/// `Ok` when `v` is one of the vertices `0..n`, an error otherwise.
pub fn validate_vertex(v: usize, n: usize) -> (r: Result<(), InvalidArgument>)
    ensures
        r is Ok <==> v < n,
{
    if v >= n {
        Err(vertex_error(v, n))
    } else {
        Ok(())
    }
}

proof fn lemma_degree_sum_zero(g: Graph, k: int)
    requires
        forall|u: int| 0 <= u < k ==> #[trigger] g.neighbors(u).len() == 0,
    ensures
        degree_sum(g, k) == 0,
    decreases k,
{
    if k > 0 {
        lemma_degree_sum_zero(g, k - 1);
    }
}

impl Graph {
    /// Number of vertices.
    pub closed spec fn num_vertices(&self) -> nat {
        self.v as nat
    }

    /// Number of edges.
    pub closed spec fn num_edges(&self) -> nat {
        self.e as nat
    }

    /// The adjacency list of vertex `u`, most recently added neighbour first.
    pub closed spec fn neighbors(&self, u: int) -> Seq<usize> {
        self.adj@[u]@
    }

    pub closed spec fn wf(&self) -> bool {
        &&& self.adj@.len() == self.v
        &&& forall|u: int| 0 <= u < self.v ==> (#[trigger] self.adj@[u]).wf()
        &&& forall|u: int| 0 <= u < self.v ==> (#[trigger] self.adj@[u])@.len() <= 2 * self.e
        &&& forall|u: int, k: int|
            0 <= u < self.v && 0 <= k < self.adj@[u]@.len() ==> #[trigger] self.adj@[u]@[k]
                < self.v
        &&& degree_sum(*self, self.v as int) == 2 * self.e
    }

    /// The degrees add up to twice the number of edges (a self-loop counts twice).
    pub proof fn lemma_degrees_sum_to_twice_edges(&self)
        requires
            self.wf(),
        ensures
            degree_sum(*self, self.num_vertices() as int) == 2 * self.num_edges(),
    {
    }

    /// Every neighbour of a vertex is a vertex.
    pub proof fn lemma_neighbors_are_vertices(&self, u: int)
        requires
            self.wf(),
            0 <= u < self.num_vertices(),
        ensures
            forall|k: int|
                0 <= k < self.neighbors(u).len() ==> #[trigger] self.neighbors(u)[k]
                    < self.num_vertices(),
    {
        assert forall|k: int| 0 <= k < self.neighbors(u).len() implies #[trigger] self.neighbors(
            u,
        )[k] < self.num_vertices() by {
            assert(self.adj@[u]@[k] < self.v);
        }
    }

    /// `w` is a neighbour of `u`.
    pub open spec fn adjacent(&self, u: int, w: int) -> bool {
        0 <= u < self.num_vertices() && self.neighbors(u).contains(w as usize) && 0 <= w
    }

    /// A graph with `v` vertices and no edges.
    pub fn new_no_edge(v: usize) -> (r: Self)
        ensures
            r.wf(),
            r.num_vertices() == v,
            r.num_edges() == 0,
            forall|u: int| 0 <= u < v ==> #[trigger] r.neighbors(u) == Seq::<usize>::empty(),
    {
        let mut adj: Vec<LinkedBag<usize>> = Vec::new();
        while adj.len() < v
            invariant
                adj@.len() <= v,
                forall|u: int| 0 <= u < adj@.len() ==> (#[trigger] adj@[u]).wf() && adj@[u]@
                    == Seq::<usize>::empty(),
            decreases v - adj@.len(),
        {
            adj.push(LinkedBag::new());
        }
        let g = Graph { v, adj, e: 0 };
        proof {
            lemma_degree_sum_zero(g, v as int);
        }
        g
    }

    /// Adds the edge `v-w`, or returns an error when `v` or `w` is not a vertex.
    pub fn add_edge(&mut self, v: usize, w: usize) -> (r: Result<(), InvalidArgument>)
        requires
            old(self).wf(),
            old(self).num_edges() < usize::MAX / 2,
        ensures
            final(self).wf(),
            final(self).num_vertices() == old(self).num_vertices(),
            r is Ok <==> (v < old(self).num_vertices() && w < old(self).num_vertices()),
            r is Err ==> *final(self) == *old(self),
            r is Ok ==> {
                &&& final(self).num_edges() == old(self).num_edges() + 1
                &&& v != w ==> final(self).neighbors(v as int) == seq![w] + old(self).neighbors(
                    v as int,
                ) && final(self).neighbors(w as int) == seq![v] + old(self).neighbors(w as int)
                &&& v == w ==> final(self).neighbors(v as int) == seq![v, v] + old(self).neighbors(
                    v as int,
                )
                &&& forall|u: int|
                    #![trigger final(self).neighbors(u)]
                    0 <= u < old(self).num_vertices() && u != v && u != w
                        ==> final(self).neighbors(u) == old(self).neighbors(u)
            },
    {
        match validate_vertex(v, self.v) {
            Err(e) => {
                return Err(e);
            },
            Ok(()) => {},
        }
        match validate_vertex(w, self.v) {
            Err(e) => {
                return Err(e);
            },
            Ok(()) => {},
        }
        self.e = self.e + 1;
        self.adj[v].add(w);
        let ghost mid = *self;
        self.adj[w].add(v);
        proof {
            lemma_degree_sum_change(*old(self), mid, self.v as int, v as int, 1);
            lemma_degree_sum_change(mid, *self, self.v as int, w as int, 1);
            if v == w {
                assert(seq![v] + (seq![w] + old(self).neighbors(v as int)) =~= seq![v, v]
                    + old(self).neighbors(v as int));
            }
            assert forall|u: int, k: int|
                0 <= u < self.v && 0 <= k < self.adj@[u]@.len() implies #[trigger] self.adj@[u]@[k]
                < self.v by {
                if u != v && u != w {
                    assert(self.adj@[u] == old(self).adj@[u]);
                } else if k > 0 {
                    if u == w {
                        if v == w {
                            if k > 1 {
                                assert(self.adj@[u]@[k] == old(self).adj@[u]@[k - 2]);
                            }
                        } else {
                            assert(self.adj@[u]@[k] == old(self).adj@[u]@[k - 1]);
                        }
                    } else {
                        assert(self.adj@[u]@[k] == old(self).adj@[u]@[k - 1]);
                    }
                }
            }
        }
        Ok(())
    }

    pub fn count_vertices(&self) -> (r: usize)
        ensures
            r == self.num_vertices(),
    {
        self.v
    }

    pub fn count_edges(&self) -> (r: usize)
        ensures
            r == self.num_edges(),
    {
        self.e
    }

    /// An iterator over the neighbours of `v`, or an error when `v` is not a vertex.
    pub fn adj(&self, v: usize) -> (r: Result<LinkedBagIter<'_, usize>, InvalidArgument>)
        requires
            self.wf(),
        ensures
            r is Ok <==> v < self.num_vertices(),
            r is Ok ==> r->Ok_0@ == self.neighbors(v as int),
    {
        match validate_vertex(v, self.v) {
            Err(e) => Err(e),
            Ok(()) => Ok(self.adj[v].iter()),
        }
    }

    /// The neighbours of `v`, in the order of its adjacency list.
    pub(crate) fn neighbor_list(&self, v: usize) -> (r: Vec<usize>)
        requires
            self.wf(),
            v < self.num_vertices(),
        ensures
            r@ == self.neighbors(v as int),
    {
        let mut it = self.adj[v].iter();
        let mut r: Vec<usize> = Vec::new();
        let mut left: usize = self.adj[v].len();
        let ghost all = self.neighbors(v as int);
        while left > 0
            invariant
                left == it@.len(),
                r@ + it@ == all,
            decreases left,
        {
            let ghost before = it@;
            match it.next() {
                Some(w) => {
                    r.push(*w);
                    assert(r@ + it@ =~= all);
                },
                None => {},
            }
            left = left - 1;
        }
        assert(r@ =~= all);
        r
    }

    /// Number of neighbours of `v` (a self-loop counts twice), or an error when `v` is not a
    /// vertex.
    pub fn degree(&self, v: usize) -> (r: Result<usize, InvalidArgument>)
        requires
            self.wf(),
        ensures
            r is Ok <==> v < self.num_vertices(),
            r is Ok ==> r->Ok_0 == self.neighbors(v as int).len(),
    {
        match validate_vertex(v, self.v) {
            Err(e) => Err(e),
            Ok(()) => Ok(self.adj[v].len()),
        }
    }

    /// The graph in the DOT language: one line `v -- w` for each edge with `v < w`, and one for
    /// each self-loop.
    pub fn to_dot(&self) -> (r: String)
        requires
            self.wf(),
        ensures
            exists|body: Seq<char>|
                r@ == "graph {\n"@ + "node[shape=circle, style=filled, fixedsize=true, width=0.3, fontsize=\"10pt\"]\n"@
                    + body + "}\n"@,
    {
        let mut s = String::from_str("graph {\n");
        s.append("node[shape=circle, style=filled, fixedsize=true, width=0.3, fontsize=\"10pt\"]\n");
        let ghost head = s@;
        let mut self_loops: bool = false;
        let mut v: usize = 0;
        while v < self.v
            invariant
                self.wf(),
                v <= self.v,
                head == "graph {\n"@ + "node[shape=circle, style=filled, fixedsize=true, width=0.3, fontsize=\"10pt\"]\n"@,
                s@.len() >= head.len(),
                s@.subrange(0, head.len() as int) == head,
            decreases self.v - v,
        {
            let mut it = self.adj[v].iter();
            let mut left: usize = self.adj[v].len();
            while left > 0
                invariant
                    left == it@.len(),
                    s@.len() >= head.len(),
                    s@.subrange(0, head.len() as int) == head,
                decreases left,
            {
                match it.next() {
                    Some(wr) => {
                        let w = *wr;
                        if v < w || (v == w && !self_loops) {
                            s.append(v.to_string().as_str());
                            s.append(" -- ");
                            s.append(w.to_string().as_str());
                            s.append("\n");
                        }
                        if v == w {
                            self_loops = !self_loops;
                        }
                    },
                    None => {},
                }
                left = left - 1;
            }
            v = v + 1;
        }
        let ghost body = s@.subrange(head.len() as int, s@.len() as int);
        proof {
            assert(s@ =~= head + body);
        }
        s.append("}\n");
        proof {
            assert(s@ == head + body + "}\n"@);
        }
        s
    }
}

impl Clone for Graph {
    /// A graph with adjacency lists of its own, holding the same neighbours.
    fn clone(&self) -> (r: Self)
        ensures
            self.wf() ==> r.wf() && r.num_vertices() == self.num_vertices() && r.num_edges()
                == self.num_edges() && forall|u: int|
                0 <= u < self.num_vertices() ==> #[trigger] r.neighbors(u) == self.neighbors(u),
    {
        let mut adj: Vec<LinkedBag<usize>> = Vec::new();
        let mut i: usize = 0;
        while i < self.adj.len()
            invariant
                i <= self.adj@.len(),
                adj@.len() == i,
                forall|u: int| 0 <= u < i ==> (#[trigger] adj@[u])@ == self.adj@[u]@,
                self.wf() ==> forall|u: int| 0 <= u < i ==> (#[trigger] adj@[u]).wf(),
            decreases self.adj@.len() - i,
        {
            let b = self.adj[i].clone();
            proof {
                assert forall|k: int| 0 <= k < b@.len() implies #[trigger] b@[k] == self.adj@[i as int]@[k] by {
                    assert(cloned::<usize>(self.adj@[i as int]@[k], b@[k]));
                }
                assert(b@ =~= self.adj@[i as int]@);
            }
            adj.push(b);
            i = i + 1;
        }
        let r = Graph { v: self.v, e: self.e, adj };
        proof {
            if self.wf() {
                lemma_degree_sum_change(*self, r, self.v as int, -1, 0);
            }
        }
        r
    }
}

} // verus!
