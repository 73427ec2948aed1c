use petgraph::graph::DiGraph;
use vstd::prelude::*;

verus! {

/// A directed graph over the nodes `0 .. n`, held as one successor list per
/// node (in the order in which the graph hands them out) and the matching
/// predecessor lists. A node may list a neighbour more than once when the
/// graph has parallel edges.
pub struct Digraph {
    pub succ: Vec<Vec<usize>>,
    pub pred: Vec<Vec<usize>>,
}

/// petgraph's adjacency-list graph, carried through unopened.
#[verifier::external_type_specification]
#[verifier::external_body]
#[verifier::reject_recursive_types(N)]
#[verifier::reject_recursive_types(E)]
#[verifier::reject_recursive_types(Ty)]
#[verifier::reject_recursive_types(Ix)]
pub struct ExGraph<N, E, Ty, Ix>(petgraph::graph::Graph<N, E, Ty, Ix>);

/// petgraph's marker for directed edges, a type parameter of `DiGraph`.
#[verifier::external_type_specification]
#[verifier::external_body]
pub struct ExDirected(petgraph::Directed);

/// Relies on petgraph's `Graph::neighbors_directed` (walked over
/// `Graph::node_indices`): the nodes are numbered `0 .. node_count`, every
/// edge joins two of them, and each list holds the outgoing neighbours of one
/// node in the order the graph hands them out.
#[verifier::external_body]
fn successor_lists<N, E>(graph: &DiGraph<N, E>) -> (r: Vec<Vec<usize>>)
    ensures
        lists_in_range(r@, r@.len()),
{
    graph.node_indices().map(
        |a| graph.neighbors_directed(a, petgraph::Direction::Outgoing).map(|b| b.index()).collect(),
    ).collect()
}

/// Every entry of every list names a node below `n`.
pub open spec fn lists_in_range(lists: Seq<Vec<usize>>, n: nat) -> bool {
    forall|u: int, j: int|
        0 <= u < lists.len() && 0 <= j < lists[u]@.len() ==> (#[trigger] lists[u]@[j]) < n
}

impl Digraph {
    pub open spec fn n(&self) -> nat {
        self.succ@.len()
    }

    /// There is an edge from `u` to `v`.
    pub open spec fn edge(&self, u: int, v: int) -> bool {
        0 <= u < self.n() && self.succ@[u]@.contains(v as usize)
    }

    /// A node without incoming edges.
    pub open spec fn is_source(&self, v: int) -> bool {
        self.pred@[v]@.len() == 0
    }

    /// `lvl` grades the graph: the sources are the nodes of level zero and
    /// each edge climbs exactly one level. Then every path from a source to
    /// a node has the same length, the node's level.
    pub open spec fn graded(&self, lvl: Seq<nat>) -> bool {
        &&& lvl.len() == self.n()
        &&& forall|u: int, v: int|
            0 <= v < self.n() && #[trigger] self.edge(u, v) ==> lvl[v] == lvl[u] + 1
        &&& forall|v: int| 0 <= v < self.n() ==> (lvl[v] == 0 <==> #[trigger] self.is_source(v))
    }

    pub open spec fn wf(&self) -> bool {
        &&& self.succ@.len() <= usize::MAX
        &&& self.pred@.len() == self.succ@.len()
        &&& lists_in_range(self.succ@, self.n())
        &&& lists_in_range(self.pred@, self.n())
        &&& forall|u: int, v: int|
            #![trigger self.succ@[u]@.contains(v as usize)]
            #![trigger self.pred@[v]@.contains(u as usize)]
            0 <= u < self.n() && 0 <= v < self.n() ==> (self.succ@[u]@.contains(v as usize)
                <==> self.pred@[v]@.contains(u as usize))
    }

    /// The graph of a petgraph directed graph: node `i` is the node of index
    /// `i`, with its outgoing neighbours in petgraph's order.
    pub fn from_petgraph<N, E>(graph: &DiGraph<N, E>) -> (g: Digraph)
        ensures
            g.wf(),
    {
        Digraph::from_successors(successor_lists(graph))
    }

    /// Builds the graph from its successor lists; the predecessor lists are
    /// derived from them.
    pub fn from_successors(succ: Vec<Vec<usize>>) -> (g: Digraph)
        requires
            lists_in_range(succ@, succ@.len()),
        ensures
            g.wf(),
            g.succ@ == succ@,
    {
        let n = succ.len();
        let mut pred: Vec<Vec<usize>> = Vec::new();
        let mut k: usize = 0;
        while k < n
            invariant
                k <= n,
                n == succ@.len(),
                pred@.len() == k,
                forall|v: int| 0 <= v < k ==> (#[trigger] pred@[v])@.len() == 0,
            decreases n - k,
        {
            pred.push(Vec::new());
            k = k + 1;
        }
        let mut u: usize = 0;
        while u < n
            invariant
                u <= n,
                n == succ@.len(),
                pred@.len() == n,
                lists_in_range(succ@, n as nat),
                lists_in_range(pred@, u as nat),
                forall|a: int, v: int|
                    #![trigger pred@[v]@.contains(a as usize)]
                    #![trigger succ@[a]@.contains(v as usize)]
                    0 <= a < n && 0 <= v < n ==> (pred@[v]@.contains(a as usize) <==> (
                    a < u && succ@[a]@.contains(v as usize))),
            decreases n - u,
        {
            let mut j: usize = 0;
            let len = succ[u].len();
            while j < len
                invariant
                    u < n,
                    j <= len,
                    len == succ@[u as int]@.len(),
                    n == succ@.len(),
                    pred@.len() == n,
                    lists_in_range(succ@, n as nat),
                    lists_in_range(pred@, (u + 1) as nat),
                    forall|a: int, v: int|
                        #![trigger pred@[v]@.contains(a as usize)]
                        0 <= a < n && 0 <= v < n ==> (pred@[v]@.contains(a as usize) <==> (
                        (a < u && succ@[a]@.contains(v as usize)) || (a == u
                            && succ@[u as int]@.subrange(0, j as int).contains(v as usize)))),
                decreases len - j,
            {
                let v = succ[u][j];
                assert(succ@[u as int]@[j as int] < n);
                let ghost mid = pred@;
                pred[v].push(u);
                let ghost su = succ@[u as int]@;
                assert forall|a: int, w: int| 0 <= a < n && 0 <= w < n implies
                    (#[trigger] pred@[w]@.contains(a as usize) <==> ((a < u
                    && succ@[a]@.contains(w as usize))
                    || (a == u && su.subrange(0, j + 1).contains(w as usize)))) by {
                    assert(su.subrange(0, j + 1) =~= su.subrange(0, j as int).push(v));
                    assert(mid[w]@.contains(a as usize) <==> ((a < u && succ@[a]@.contains(w as usize))
                        || (a == u && su.subrange(0, j as int).contains(w as usize))));
                    if w == v {
                        assert(pred@[w]@ =~= mid[w]@.push(u));
                        if mid[w]@.contains(a as usize) {
                            let t = choose|t: int| 0 <= t < mid[w]@.len() && #[trigger] mid[w]@[t] == a as usize;
                            assert(pred@[w]@[t] == a as usize);
                        }
                        if pred@[w]@.contains(a as usize) && a != u {
                            let t = choose|t: int| 0 <= t < pred@[w]@.len() && #[trigger] pred@[w]@[t] == a as usize;
                            assert(mid[w]@[t] == a as usize);
                        }
                        if a == u {
                            assert(pred@[w]@[pred@[w]@.len() - 1] == u);
                            assert(su.subrange(0, j + 1)[j as int] == v);
                        }
                    } else {
                        assert(pred@[w] == mid[w]);
                        if su.subrange(0, j + 1).contains(w as usize) {
                            let t = choose|t: int| 0 <= t < j + 1 && #[trigger] su.subrange(0, j + 1)[t] == w as usize;
                            assert(su.subrange(0, j as int)[t] == w as usize);
                        }
                        if su.subrange(0, j as int).contains(w as usize) {
                            let t = choose|t: int| 0 <= t < j && #[trigger] su.subrange(0, j as int)[t] == w as usize;
                            assert(su.subrange(0, j + 1)[t] == w as usize);
                        }
                    }
                }
                assert forall|a: int, t: int|
                    0 <= a < pred@.len() && 0 <= t < pred@[a]@.len() implies (#[trigger] pred@[a]@[t]) < u + 1 by {
                    if a == v as int {
                        if t < mid[a]@.len() {
                            assert(pred@[a]@[t] == mid[a]@[t]);
                        }
                    } else {
                        assert(pred@[a] == mid[a]);
                    }
                }
                j = j + 1;
            }
            assert forall|a: int, v: int| 0 <= a < n && 0 <= v < n implies (
            #[trigger] pred@[v]@.contains(a as usize) <==> (a < u + 1
                && succ@[a]@.contains(v as usize))) by {
                assert(succ@[u as int]@.subrange(0, len as int) =~= succ@[u as int]@);
            }
            u = u + 1;
        }
        Digraph { succ, pred }
    }
}

} // verus!
