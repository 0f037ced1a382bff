use vstd::prelude::*;

use crate::Error;

verus! {

/// A directed edge from node `source` to node `target`, each a zero-based
/// index into the dense node range of its graph.
#[derive(Clone, Copy, PartialEq, Eq, Structural, Debug)]
pub struct Edge {
    pub source: u32,
    pub target: u32,
}

/// A directed acyclic graph over the dense node index range `[0, size)`:
/// `size` payload-free nodes and a duplicate-free list of edges, every edge
/// pointing from a smaller to a larger index.
#[derive(Debug)]
pub struct Dag {
    pub size: u32,
    pub edges: Vec<Edge>,
}

/// The edge fits the node range `[0, size)` and points from a strictly
/// smaller to a strictly larger index, which rules out self-loops and, over a
/// whole graph, cycles.
pub open spec fn edge_valid(e: Edge, size: u32) -> bool {
    e.source < e.target && e.target < size
}

pub open spec fn edges_valid(es: Seq<Edge>, size: u32) -> bool {
    forall|i: int| 0 <= i < es.len() ==> edge_valid(#[trigger] es[i], size)
}

/// No two positions of the list hold the same (source, target) pair.
pub open spec fn no_dup_edges(es: Seq<Edge>) -> bool {
    forall|i: int, j: int| 0 <= i < j < es.len() ==> es[i] != es[j]
}

impl Dag {
    /// Well-formedness: every edge lies in range and ascends, and no edge
    /// appears twice.
    pub open spec fn wf(self) -> bool {
        edges_valid(self.edges@, self.size) && no_dup_edges(self.edges@)
    }
}

/// The union of two edge lists: all of `e1`, followed by those edges of `e2`
/// that do not already occur in `e1`, in their order of appearance. Only `e1`
/// is consulted for duplicates; `e2` is taken to be duplicate-free itself.
pub open spec fn merged_edges(e1: Seq<Edge>, e2: Seq<Edge>) -> Seq<Edge>
    decreases e2.len(),
{
    if e2.len() == 0 {
        e1
    } else {
        let rest = merged_edges(e1, e2.drop_last());
        if e1.contains(e2.last()) {
            rest
        } else {
            rest.push(e2.last())
        }
    }
}

/// An edge occurs in the union exactly when it occurs in one of the inputs.
pub proof fn lemma_merged_edges_membership(e1: Seq<Edge>, e2: Seq<Edge>, x: Edge)
    ensures
        merged_edges(e1, e2).contains(x) <==> (e1.contains(x) || e2.contains(x)),
    decreases e2.len(),
{
    if e2.len() == 0 {
        assert(!e2.contains(x));
    } else {
        let dl = e2.drop_last();
        let last = e2.last();
        lemma_merged_edges_membership(e1, dl, x);
        let rest = merged_edges(e1, dl);
        assert(e2.contains(x) <==> (dl.contains(x) || x == last)) by {
            if dl.contains(x) {
                let i = choose|i: int| 0 <= i < dl.len() && dl[i] == x;
                assert(e2[i] == x);
            }
            if x == last {
                assert(e2[e2.len() - 1] == x);
            }
            if e2.contains(x) && x != last {
                let i = choose|i: int| 0 <= i < e2.len() && e2[i] == x;
                assert(i < e2.len() - 1);
                assert(dl[i] == x);
            }
        }
        if !e1.contains(last) {
            let out = rest.push(last);
            assert(merged_edges(e1, e2) == out);
            assert(out.contains(x) <==> (rest.contains(x) || x == last)) by {
                if rest.contains(x) {
                    let i = choose|i: int| 0 <= i < rest.len() && rest[i] == x;
                    assert(out[i] == x);
                }
                if x == last {
                    assert(out[out.len() - 1] == x);
                }
                if out.contains(x) && x != last {
                    let i = choose|i: int| 0 <= i < out.len() && out[i] == x;
                    assert(i < rest.len());
                    assert(rest[i] == x);
                }
            }
        }
    }
}

/// The union keeps all of `e1`, so merging never loses edges.
pub proof fn lemma_merged_edges_len(e1: Seq<Edge>, e2: Seq<Edge>)
    ensures
        merged_edges(e1, e2).len() >= e1.len(),
    decreases e2.len(),
{
    if e2.len() > 0 {
        lemma_merged_edges_len(e1, e2.drop_last());
    }
}

/// Merging two duplicate-free edge lists yields a duplicate-free list.
pub proof fn lemma_merged_edges_no_dup(e1: Seq<Edge>, e2: Seq<Edge>)
    requires
        no_dup_edges(e1),
        no_dup_edges(e2),
    ensures
        no_dup_edges(merged_edges(e1, e2)),
    decreases e2.len(),
{
    if e2.len() > 0 {
        let dl = e2.drop_last();
        let x = e2.last();
        assert(no_dup_edges(dl)) by {
            assert forall|i: int, j: int| 0 <= i < j < dl.len() implies dl[i] != dl[j] by {
                assert(dl[i] == e2[i]);
                assert(dl[j] == e2[j]);
            }
        }
        lemma_merged_edges_no_dup(e1, dl);
        let rest = merged_edges(e1, dl);
        if !e1.contains(x) {
            assert(!dl.contains(x)) by {
                if dl.contains(x) {
                    let i = choose|i: int| 0 <= i < dl.len() && dl[i] == x;
                    assert(e2[i] == x);
                    assert(e2[i] != e2[e2.len() - 1]);
                }
            }
            lemma_merged_edges_membership(e1, dl, x);
            assert(!rest.contains(x));
            let out = rest.push(x);
            assert forall|i: int, j: int| 0 <= i < j < out.len() implies out[i] != out[j] by {
                if j == out.len() - 1 {
                    assert(out[j] == x);
                    assert(out[i] == rest[i]);
                    assert(rest.contains(rest[i]));
                } else {
                    assert(out[i] == rest[i] && out[j] == rest[j]);
                }
            }
            assert(no_dup_edges(out));
        }
    }
}

/// Merging edge lists that are valid for `size` yields a valid list.
pub proof fn lemma_merged_edges_valid(e1: Seq<Edge>, e2: Seq<Edge>, size: u32)
    requires
        edges_valid(e1, size),
        edges_valid(e2, size),
    ensures
        edges_valid(merged_edges(e1, e2), size),
{
    let out = merged_edges(e1, e2);
    assert forall|i: int| 0 <= i < out.len() implies edge_valid(#[trigger] out[i], size) by {
        assert(out.contains(out[i]));
        lemma_merged_edges_membership(e1, e2, out[i]);
        if e1.contains(out[i]) {
            let j = choose|j: int| 0 <= j < e1.len() && e1[j] == out[i];
            assert(edge_valid(e1[j], size));
        } else {
            let j = choose|j: int| 0 <= j < e2.len() && e2[j] == out[i];
            assert(edge_valid(e2[j], size));
        }
    }
}

/// Whether edge `e` occurs in `edges`.
pub fn contains_edge(edges: &Vec<Edge>, e: Edge) -> (r: bool)
    ensures
        r == edges@.contains(e),
{
    let mut i: usize = 0;
    while i < edges.len()
        invariant
            i <= edges@.len(),
            forall|j: int| 0 <= j < i ==> edges@[j] != e,
        decreases edges@.len() - i,
    {
        if edges[i].source == e.source && edges[i].target == e.target {
            assert(edges@[i as int] == e);
            return true;
        }
        i += 1;
    }
    assert(!edges@.contains(e));
    false
}

/// Merges two DAGs over the same node index range: the result keeps `dag1`'s
/// node count and holds `dag1`'s edges followed by those edges of `dag2` that
/// `dag1` does not already contain. The construction cannot violate the
/// result's structure, so an internal error is never returned.
pub fn merge_dags(dag1: &Dag, dag2: &Dag) -> (r: Result<Dag, Error>)
    ensures
        r matches Ok(d) && d.size == dag1.size && d.edges@ == merged_edges(
            dag1.edges@,
            dag2.edges@,
        ),
{
    let mut out: Vec<Edge> = Vec::new();
    let mut i: usize = 0;
    while i < dag1.edges.len()
        invariant
            i <= dag1.edges@.len(),
            out@ == dag1.edges@.subrange(0, i as int),
        decreases dag1.edges@.len() - i,
    {
        out.push(dag1.edges[i]);
        i += 1;
        proof {
            assert(out@ =~= dag1.edges@.subrange(0, i as int));
        }
    }
    proof {
        assert(out@ =~= dag1.edges@);
    }
    let ghost e1 = dag1.edges@;
    let mut j: usize = 0;
    while j < dag2.edges.len()
        invariant
            j <= dag2.edges@.len(),
            e1 == dag1.edges@,
            out@ == merged_edges(e1, dag2.edges@.subrange(0, j as int)),
        decreases dag2.edges@.len() - j,
    {
        let e = dag2.edges[j];
        let ghost prev = dag2.edges@.subrange(0, j as int);
        if !contains_edge(&dag1.edges, e) {
            out.push(e);
        }
        j += 1;
        proof {
            let cur = dag2.edges@.subrange(0, j as int);
            assert(cur.drop_last() =~= prev);
            assert(cur.last() == e);
        }
    }
    proof {
        assert(dag2.edges@.subrange(0, dag2.edges@.len() as int) =~= dag2.edges@);
    }
    Ok(Dag { size: dag1.size, edges: out })
}

} // verus!
