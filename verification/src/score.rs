//! Scores over the link graph that need no floating point.
use crate::graph::LinkGraph;
use vstd::hash_map::StringHashMap;
use vstd::prelude::*;

verus! {

broadcast use vstd::string::group_string_axioms;

/// For every node of the graph, the number of nodes that link to it.
pub fn backlink_counts(graph: &LinkGraph) -> (r: StringHashMap<usize>)
    requires
        graph.wf(),
    ensures
        r@.dom() == graph.nodes().to_set(),
        forall|k: Seq<char>| #[trigger] r@.contains_key(k) ==> r@[k] == graph.sources(graph.index(k)).len(),
        forall|k: Seq<char>| #[trigger] r@.contains_key(k) ==> r@[k] == graph.link_sources(k).len(),
{
    proof {
        graph.lemma_wf();
        assert forall|p: (usize, usize)| #[trigger] graph.edges().contains_key(p) implies p.1 < adjacency_columns(graph) by {
            assert(crate::graph::adjacency_entries(graph.matrix()).contains_key(p));
        }
    }
    let incoming = graph.incoming_links();
    let n = graph.node_count();
    let ghost ns = graph.nodes();
    let mut r: StringHashMap<usize> = StringHashMap::new();
    let mut j: usize = 0;
    while j < n
        invariant
            graph.wf(),
            ns == graph.nodes(),
            ns.no_duplicates(),
            n == ns.len(),
            incoming@.len() == n,
            forall|i: int| 0 <= i < ns.len() ==> #[trigger] graph.index(ns[i]) == i,
            forall|p: (usize, usize)| #[trigger] graph.edges().contains_key(p) ==> p.1 < adjacency_columns(graph),
            forall|x: int| 0 <= x < n ==> (#[trigger] incoming@[x] is None <==> x >= adjacency_columns(graph)),
            forall|x: int| 0 <= x < n ==> (#[trigger] incoming@[x] matches Some(v) ==> {
                &&& forall|a: int, b: int| 0 <= a < b < v@.len() ==> #[trigger] v@[a].0 < #[trigger] v@[b].0
                &&& forall|a: int| 0 <= a < v@.len() ==> #[trigger] graph.edges().contains_key((v@[a].0, x as usize))
                &&& forall|s: usize| #[trigger] graph.edges().contains_key((s, x as usize)) ==> exists|a: int|
                    0 <= a < v@.len() && v@[a].0 == s
            }),
            j <= n,
            forall|k: Seq<char>| #[trigger] r@.contains_key(k) <==> ns.take(j as int).contains(k),
            forall|k: Seq<char>| #[trigger] r@.contains_key(k) ==> r@[k] == graph.sources(graph.index(k)).len(),
        decreases n - j,
    {
        let count: usize = match &incoming[j] {
            Some(v) => {
                proof {
                    let x = j as int;
                    assert(incoming@[x] matches Some(w) && w@ == v@);
                    assert(x as usize == j);
                    assert forall|a: int| 0 <= a < v@.len() implies #[trigger] graph.edges().contains_key((v@[a].0, j)) by {
                        assert(graph.edges().contains_key((v@[a].0, x as usize)));
                    }
                    assert forall|s: usize| #[trigger] graph.edges().contains_key((s, j)) implies exists|a: int|
                        0 <= a < v@.len() && v@[a].0 == s by {
                        assert(graph.edges().contains_key((s, x as usize)));
                    }
                    lemma_row_len_sources(graph, v@, j);
                }
                v.len()
            },
            None => {
                proof {
                    assert(graph.sources(j) =~= Set::<usize>::empty()) by {
                        assert forall|s: usize| !graph.sources(j).contains(s) by {
                            if graph.edges().contains_key((s, j)) {
                                assert(j < adjacency_columns(graph));
                            }
                        }
                    }
                }
                0
            },
        };
        let key = graph.id_at(j).0.clone();
        let ghost before = r@;
        r.insert(key, count);
        proof {
            let t0 = ns.take(j as int);
            let t1 = ns.take(j + 1);
            assert(t1 =~= t0.push(ns[j as int]));
            assert(!t0.contains(ns[j as int])) by {
                if t0.contains(ns[j as int]) {
                    let a = choose|a: int| 0 <= a < t0.len() && #[trigger] t0[a] == ns[j as int];
                    assert(ns[a] == ns[j as int]);
                }
            }
            assert forall|k: Seq<char>| #[trigger] r@.contains_key(k) <==> t1.contains(k) by {
                if t1.contains(k) {
                    let a = choose|a: int| 0 <= a < t1.len() && #[trigger] t1[a] == k;
                    if a < j {
                        assert(t0[a] == k);
                    }
                }
                if t0.contains(k) {
                    let a = choose|a: int| 0 <= a < t0.len() && #[trigger] t0[a] == k;
                    assert(t1[a] == k);
                }
                if k == ns[j as int] {
                    assert(t1[j as int] == k);
                }
            }
            assert forall|k: Seq<char>| #[trigger] r@.contains_key(k) implies r@[k] == graph.sources(graph.index(k)).len() by {
                if k != ns[j as int] {
                    assert(before.contains_key(k));
                } else {
                    assert(graph.index(k) == j);
                }
            }
        }
        j += 1;
    }
    proof {
        assert(ns.take(n as int) =~= ns);
        assert(r@.dom() =~= ns.to_set());
        graph.lemma_wf();
        assert forall|k: Seq<char>| #[trigger] r@.contains_key(k) implies r@[k] == graph.link_sources(k).len() by {
            assert(ns.contains(k));
            graph.lemma_sources_len(graph.index(k));
        }
    }
    r
}

/// The number of columns of the graph's adjacency matrix.
pub open spec fn adjacency_columns(graph: &LinkGraph) -> usize {
    crate::graph::adjacency_shape(graph.matrix()).1
}

/// A listing of the sources of node `j`, by strictly increasing number, has as
/// many entries as node `j` has sources.
proof fn lemma_row_len_sources(graph: &LinkGraph, v: Seq<(usize, u64)>, j: usize)
    requires
        forall|a: int, b: int| 0 <= a < b < v.len() ==> #[trigger] v[a].0 < #[trigger] v[b].0,
        forall|a: int| 0 <= a < v.len() ==> #[trigger] graph.edges().contains_key((v[a].0, j)),
        forall|s: usize| #[trigger] graph.edges().contains_key((s, j)) ==> exists|a: int| 0 <= a < v.len() && v[a].0 == s,
    ensures
        graph.sources(j).finite(),
        graph.sources(j).len() == v.len(),
{
    crate::graph::lemma_row_len(v, graph.sources(j));
}

} // verus!
