//! The weighted link graph between notes, kept as a sparse adjacency matrix.
//! Edge weights are the bit patterns of the floating-point weights (as
//! `f64::to_bits` gives them); the graph stores and returns them unchanged.
use crate::types::{id_views, ID};
use vstd::hash_map::StringHashMap;
use vstd::hash_set::StringHashSet;
use vstd::prelude::*;

verus! {

broadcast use vstd::string::group_string_axioms;

/// A sparse matrix in compressed-row form (an `sprs::CsMat<u64>`).
#[verifier::external_body]
pub struct Adjacency {
    m: sprs::CsMat<u64>,
}

/// The stored entries of a matrix: `(row, column)` to value.
pub uninterp spec fn adjacency_entries(m: Adjacency) -> Map<(usize, usize), u64>;

/// The shape of a matrix: `(rows, columns)`.
pub uninterp spec fn adjacency_shape(m: Adjacency) -> (usize, usize);

impl Adjacency {
    /// Calls `sprs::CsMat::zero`. Claimed: a matrix of the given shape with no
    /// entries.
    #[verifier::external_body]
    fn zero(rows: usize, cols: usize) -> (r: Adjacency)
        requires
            rows < usize::MAX,
        ensures
            adjacency_entries(r).dom().len() == 0,
            adjacency_entries(r).dom().finite(),
            adjacency_shape(r) == (rows, cols),
    {
        Adjacency { m: sprs::CsMat::zero((rows, cols)) }
    }

    /// Calls `sprs::CsMat::insert` on a compressed-row matrix. Claimed: the entry
    /// `(row, col)` is set to `val`, replacing any value it had, and the shape
    /// grows to take in the entry.
    #[verifier::external_body]
    fn insert(&mut self, row: usize, col: usize, val: u64)
        requires
            row < usize::MAX,
            col < usize::MAX,
        ensures
            adjacency_entries(*final(self)) == adjacency_entries(*old(self)).insert((row, col), val),
            adjacency_shape(*final(self)) == (
                if row < adjacency_shape(*old(self)).0 { adjacency_shape(*old(self)).0 } else { (row + 1) as usize },
                if col < adjacency_shape(*old(self)).1 { adjacency_shape(*old(self)).1 } else { (col + 1) as usize },
            ),
    {
        self.m.insert(row, col, val)
    }

    /// Calls `sprs::CsMat::nnz`. Claimed: the number of stored entries.
    #[verifier::external_body]
    fn nnz(&self) -> (n: usize)
        ensures
            n == adjacency_entries(*self).len(),
    {
        self.m.nnz()
    }

    /// Calls `sprs::CsMat::rows` and `cols`. Claimed: the shape.
    #[verifier::external_body]
    fn shape(&self) -> (r: (usize, usize))
        ensures
            r == adjacency_shape(*self),
    {
        (self.m.rows(), self.m.cols())
    }

    /// Calls `sprs::CsMat::outer_view` and lists the row's column indices with
    /// their values. Claimed: `None` past the last row; otherwise the row's
    /// entries, by strictly increasing column.
    #[verifier::external_body]
    fn outer_view(&self, i: usize) -> (r: Option<Vec<(usize, u64)>>)
        ensures
            r is None <==> i >= adjacency_shape(*self).0,
            r matches Some(v) ==> {
                &&& forall|a: int, b: int| 0 <= a < b < v@.len() ==> #[trigger] v@[a].0 < #[trigger] v@[b].0
                &&& forall|a: int| 0 <= a < v@.len() ==> #[trigger] adjacency_entries(*self).contains_key((i, v@[a].0))
                    && adjacency_entries(*self)[(i, v@[a].0)] == v@[a].1
                &&& forall|j: usize| #[trigger] adjacency_entries(*self).contains_key((i, j)) ==> exists|a: int|
                    0 <= a < v@.len() && v@[a].0 == j
            },
    {
        self.m.outer_view(i).map(|row| row.iter().map(|(j, w)| (j, *w)).collect())
    }

    /// Calls `sprs::CsMat::transpose_view` and `to_csr`. Claimed: the transposed
    /// matrix, in compressed-row form.
    #[verifier::external_body]
    fn transposed(&self) -> (r: Adjacency)
        ensures
            adjacency_shape(r) == (adjacency_shape(*self).1, adjacency_shape(*self).0),
            forall|i: usize, j: usize|
                #[trigger] adjacency_entries(r).contains_key((i, j)) == adjacency_entries(*self).contains_key((j, i)),
            forall|i: usize, j: usize|
                #[trigger] adjacency_entries(r).contains_key((i, j)) ==> adjacency_entries(r)[(i, j)]
                    == adjacency_entries(*self)[(j, i)],
    {
        Adjacency { m: self.m.transpose_view().to_csr() }
    }

    /// The entries stay inside the shape and are finitely many.
    pub open spec fn well_shaped(self) -> bool {
        &&& adjacency_entries(self).dom().finite()
        &&& forall|p: (usize, usize)| #[trigger] adjacency_entries(self).contains_key(p) ==> p.0
            < adjacency_shape(self).0 && p.1 < adjacency_shape(self).1
    }

    /// Row `i` of the matrix: its columns, increasing, with their values;
    /// `None` past the last row.
    pub fn row_entries(&self, i: usize) -> (r: Option<Vec<(usize, u64)>>)
        ensures
            r is None <==> i >= adjacency_shape(*self).0,
            r matches Some(v) ==> {
                &&& forall|a: int, b: int| 0 <= a < b < v@.len() ==> #[trigger] v@[a].0 < #[trigger] v@[b].0
                &&& forall|a: int| 0 <= a < v@.len() ==> #[trigger] adjacency_entries(*self).contains_key((i, v@[a].0))
                    && adjacency_entries(*self)[(i, v@[a].0)] == v@[a].1
                &&& forall|j: usize| #[trigger] adjacency_entries(*self).contains_key((i, j)) ==> exists|a: int|
                    0 <= a < v@.len() && v@[a].0 == j
            },
    {
        self.outer_view(i)
    }

    /// Number of rows.
    pub fn rows(&self) -> (n: usize)
        ensures
            n == adjacency_shape(*self).0,
    {
        self.shape().0
    }
}

/// A row listing, by strictly increasing column, exactly the set `s` has
/// as many entries as `s` has elements.
pub proof fn lemma_row_len(v: Seq<(usize, u64)>, s: Set<usize>)
    requires
        forall|a: int, b: int| 0 <= a < b < v.len() ==> #[trigger] v[a].0 < #[trigger] v[b].0,
        forall|a: int| 0 <= a < v.len() ==> s.contains(#[trigger] v[a].0),
        forall|x: usize| #[trigger] s.contains(x) ==> exists|a: int| 0 <= a < v.len() && v[a].0 == x,
    ensures
        s.finite(),
        s.len() == v.len(),
{
    let cols = Seq::new(v.len(), |a: int| v[a].0);
    assert(cols.no_duplicates()) by {
        assert forall|a: int, b: int| 0 <= a < cols.len() && 0 <= b < cols.len() && a != b implies cols[a] != cols[b] by {
            if a < b {
                assert(v[a].0 < v[b].0);
            } else {
                assert(v[b].0 < v[a].0);
            }
        }
    }
    assert forall|x: usize| cols.to_set().contains(x) <==> s.contains(x) by {
        if cols.to_set().contains(x) {
            let a = choose|a: int| 0 <= a < cols.len() && cols[a] == x;
            assert(s.contains(v[a].0));
        }
        if s.contains(x) {
            let a = choose|a: int| 0 <= a < v.len() && v[a].0 == x;
            assert(cols[a] == x);
        }
    }
    assert(cols.to_set() =~= s);
    cols.unique_seq_to_set();
}

/// The identifiers a list of nodes is extended with by one more identifier:
/// appended if it is new.
pub open spec fn add_node(ns: Seq<Seq<char>>, x: Seq<char>) -> Seq<Seq<char>> {
    if ns.contains(x) {
        ns
    } else {
        ns.push(x)
    }
}

/// The nodes of an edge list in order of first appearance, each edge's
/// source before its destination.
pub open spec fn edge_nodes(es: Seq<(Seq<char>, Seq<char>, u64)>) -> Seq<Seq<char>>
    decreases es.len(),
{
    if es.len() == 0 {
        Seq::empty()
    } else {
        add_node(add_node(edge_nodes(es.drop_last()), es.last().0), es.last().1)
    }
}

/// Every endpoint of an edge is among the edge list's nodes.
pub proof fn lemma_edge_nodes_contains(es: Seq<(Seq<char>, Seq<char>, u64)>)
    ensures
        forall|a: int| 0 <= a < es.len() ==> #[trigger] edge_nodes(es).contains(es[a].0) && edge_nodes(es).contains(es[a].1),
    decreases es.len(),
{
    if es.len() > 0 {
        let p = es.drop_last();
        lemma_edge_nodes_contains(p);
        let n0 = edge_nodes(p);
        let n1 = add_node(n0, es.last().0);
        let n2 = add_node(n1, es.last().1);
        assert forall|x: Seq<char>| n0.contains(x) implies n2.contains(x) by {
            let k = choose|k: int| 0 <= k < n0.len() && n0[k] == x;
            if !n0.contains(es.last().0) {
                assert(n1[k] == x);
            }
            assert(n1.contains(x));
            let k1 = choose|k1: int| 0 <= k1 < n1.len() && n1[k1] == x;
            if !n1.contains(es.last().1) {
                assert(n2[k1] == x);
            }
        }
        assert(n1.contains(es.last().0)) by {
            if !n0.contains(es.last().0) {
                assert(n1[n0.len() as int] == es.last().0);
            }
        }
        assert(n2.contains(es.last().0)) by {
            let k1 = choose|k1: int| 0 <= k1 < n1.len() && n1[k1] == es.last().0;
            if !n1.contains(es.last().1) {
                assert(n2[k1] == es.last().0);
            }
        }
        assert(n2.contains(es.last().1)) by {
            if !n1.contains(es.last().1) {
                assert(n2[n1.len() as int] == es.last().1);
            }
        }
        assert forall|a: int| 0 <= a < es.len() implies #[trigger] edge_nodes(es).contains(es[a].0) && edge_nodes(es).contains(es[a].1) by {
            assert(edge_nodes(es) == n2);
            if a < es.len() - 1 {
                assert(p[a] == es[a]);
                assert(n0.contains(es[a].0));
                assert(n0.contains(es[a].1));
                assert(n2.contains(es[a].0));
                assert(n2.contains(es[a].1));
            }
        }
    }
}

/// The pairs of `ps`, each once, in order of first appearance.
pub open spec fn distinct_pairs(ps: Seq<(Seq<char>, Seq<char>)>) -> Seq<(Seq<char>, Seq<char>)>
    decreases ps.len(),
{
    if ps.len() == 0 {
        Seq::empty()
    } else {
        let d = distinct_pairs(ps.drop_last());
        if d.contains(ps.last()) {
            d
        } else {
            d.push(ps.last())
        }
    }
}

/// How often `p` occurs in `ps`.
pub open spec fn occurrences(ps: Seq<(Seq<char>, Seq<char>)>, p: (Seq<char>, Seq<char>)) -> nat
    decreases ps.len(),
{
    if ps.len() == 0 {
        0
    } else {
        occurrences(ps.drop_last(), p) + if ps.last() == p {
            1nat
        } else {
            0nat
        }
    }
}

/// The count of a pair is the number of times it occurs in the list: its
/// multiplicity in the list's multiset.
pub proof fn lemma_occurrences_count(ps: Seq<(Seq<char>, Seq<char>)>, p: (Seq<char>, Seq<char>))
    ensures
        occurrences(ps, p) == ps.to_multiset().count(p),
    decreases ps.len(),
{
    broadcast use vstd::multiset::group_multiset_axioms;
    if ps.len() == 0 {
        ps.to_multiset_ensures();
        assert(!ps.contains(p));
    } else {
        let q = ps.drop_last();
        lemma_occurrences_count(q, p);
        q.to_multiset_ensures();
        assert(ps =~= q.push(ps.last()));
        assert(ps.to_multiset() =~= q.to_multiset().insert(ps.last()));
    }
}

/// A pair is among the distinct pairs exactly when it occurs; it occurs at
/// most as often as there are pairs, and not at all when it is not among them.
pub proof fn lemma_distinct_pairs(ps: Seq<(Seq<char>, Seq<char>)>)
    ensures
        forall|p: (Seq<char>, Seq<char>)| #[trigger] distinct_pairs(ps).contains(p) <==> ps.contains(p),
        forall|p: (Seq<char>, Seq<char>)| #[trigger] occurrences(ps, p) <= ps.len(),
        forall|p: (Seq<char>, Seq<char>)| !ps.contains(p) ==> #[trigger] occurrences(ps, p) == 0,
        distinct_pairs(ps).no_duplicates(),
    decreases ps.len(),
{
    if ps.len() > 0 {
        let q = ps.drop_last();
        lemma_distinct_pairs(q);
        let d = distinct_pairs(q);
        assert forall|p: (Seq<char>, Seq<char>)| #[trigger] distinct_pairs(ps).contains(p) <==> ps.contains(p) by {
            if ps.contains(p) {
                let a = choose|a: int| 0 <= a < ps.len() && ps[a] == p;
                if a < q.len() {
                    assert(q[a] == p);
                    assert(d.contains(p));
                    if !d.contains(ps.last()) {
                        let b = choose|b: int| 0 <= b < d.len() && d[b] == p;
                        assert(d.push(ps.last())[b] == p);
                    }
                } else if !d.contains(ps.last()) {
                    assert(d.push(ps.last())[d.len() as int] == p);
                }
            }
            if distinct_pairs(ps).contains(p) {
                let b = choose|b: int| 0 <= b < distinct_pairs(ps).len() && distinct_pairs(ps)[b] == p;
                if b < d.len() {
                    assert(d[b] == p);
                    assert(d.contains(p));
                    assert(q.contains(p));
                    let a = choose|a: int| 0 <= a < q.len() && q[a] == p;
                    assert(ps[a] == p);
                } else {
                    assert(ps[ps.len() - 1] == p);
                }
            }
        }
        assert forall|p: (Seq<char>, Seq<char>)| #[trigger] occurrences(ps, p) <= ps.len() by {
            assert(occurrences(q, p) <= q.len());
        }
        assert forall|p: (Seq<char>, Seq<char>)| !ps.contains(p) implies #[trigger] occurrences(ps, p) == 0 by {
            if q.contains(p) {
                let a = choose|a: int| 0 <= a < q.len() && q[a] == p;
                assert(ps[a] == p);
            }
            assert(ps.last() != p);
            assert(occurrences(q, p) == 0);
        }
        if !d.contains(ps.last()) {
            assert forall|a: int, b: int| 0 <= a < d.push(ps.last()).len() && 0 <= b < d.push(ps.last()).len() && a != b
                implies d.push(ps.last())[a] != d.push(ps.last())[b] by {
                if a < d.len() && b < d.len() {
                } else if a < d.len() {
                    assert(d.contains(d[a]));
                } else {
                    assert(d.contains(d[b]));
                }
            }
        }
    }
}

/// An edge list by the identifiers' characters.
pub open spec fn edge_views(es: Seq<(ID, ID, u64)>) -> Seq<(Seq<char>, Seq<char>, u64)> {
    es.map_values(|e: (ID, ID, u64)| (e.0@, e.1@, e.2))
}

/// The links set by an edge list in order, by source and destination: a later
/// edge between the same nodes overwrites an earlier one.
spec fn edge_links(es: Seq<(Seq<char>, Seq<char>, u64)>) -> Map<(Seq<char>, Seq<char>), u64>
    decreases es.len(),
{
    if es.len() == 0 {
        Map::empty()
    } else {
        edge_links(es.drop_last()).insert((es.last().0, es.last().1), es.last().2)
    }
}

/// The source and destination of an edge.
pub open spec fn edge_pair(e: (Seq<char>, Seq<char>, u64)) -> (Seq<char>, Seq<char>) {
    (e.0, e.1)
}

/// The sources and destinations of an edge list.
pub open spec fn edge_pairs(es: Seq<(Seq<char>, Seq<char>, u64)>) -> Seq<(Seq<char>, Seq<char>)> {
    es.map_values(|e: (Seq<char>, Seq<char>, u64)| edge_pair(e))
}

/// No other edge of the list joins the same two nodes as edge `i`.
pub open spec fn lone_edge(es: Seq<(Seq<char>, Seq<char>, u64)>, i: int) -> bool {
    forall|j: int| 0 <= j < es.len() && j != i ==> edge_pair(#[trigger] es[j]) != edge_pair(es[i])
}

/// The weights of the edges from `p.0` to `p.1`, in list order.
pub open spec fn pair_weights(es: Seq<(Seq<char>, Seq<char>, u64)>, p: (Seq<char>, Seq<char>)) -> Seq<u64>
    decreases es.len(),
{
    if es.len() == 0 {
        Seq::empty()
    } else {
        let w = pair_weights(es.drop_last(), p);
        if edge_pair(es.last()) == p {
            w.push(es.last().2)
        } else {
            w
        }
    }
}

/// The links an edge list sets join exactly the pairs of its edges, and an
/// edge that no other edge duplicates sets its own weight.
proof fn lemma_edge_links(es: Seq<(Seq<char>, Seq<char>, u64)>)
    ensures
        forall|p: (Seq<char>, Seq<char>)| #[trigger] edge_links(es).contains_key(p) <==> edge_pairs(es).contains(p),
        forall|i: int| 0 <= i < es.len() && lone_edge(es, i) ==> #[trigger] edge_links(es)[edge_pair(es[i])] == es[i].2,
    decreases es.len(),
{
    if es.len() > 0 {
        let q = es.drop_last();
        lemma_edge_links(q);
        assert forall|p: (Seq<char>, Seq<char>)| #[trigger] edge_links(es).contains_key(p) <==> edge_pairs(es).contains(p) by {
            if edge_pairs(es).contains(p) {
                let a = choose|a: int| 0 <= a < edge_pairs(es).len() && edge_pairs(es)[a] == p;
                if a < q.len() {
                    assert(edge_pairs(q)[a] == edge_pairs(es)[a]);
                    assert(edge_pairs(q).contains(p));
                    assert(edge_links(q).contains_key(p));
                } else {
                    assert(p == edge_pair(es.last()));
                }
            }
            if edge_links(es).contains_key(p) {
                if p != edge_pair(es.last()) {
                    assert(edge_links(q).contains_key(p));
                    assert(edge_pairs(q).contains(p));
                    let a = choose|a: int| 0 <= a < edge_pairs(q).len() && edge_pairs(q)[a] == p;
                    assert(edge_pairs(es)[a] == p);
                } else {
                    assert(edge_pairs(es)[es.len() - 1] == p);
                }
            }
        }
        assert forall|i: int| 0 <= i < es.len() && lone_edge(es, i) implies #[trigger] edge_links(es)[edge_pair(es[i])] == es[i].2 by {
            if i < es.len() - 1 {
                assert(edge_pair(es[es.len() - 1]) != edge_pair(es[i]));
                assert(q[i] == es[i]);
                assert forall|j: int| 0 <= j < q.len() && j != i implies edge_pair(#[trigger] q[j]) != edge_pair(q[i]) by {
                    assert(q[j] == es[j]);
                }
                assert(lone_edge(q, i));
                assert(edge_links(q)[edge_pair(q[i])] == q[i].2);
                assert(edge_links(es) == edge_links(q).insert(edge_pair(es.last()), es.last().2));
            } else {
                assert(edge_links(es) == edge_links(q).insert(edge_pair(es.last()), es.last().2));
                assert(es[i] == es.last());
            }
        }
    }
}

/// A pair no edge joins has no weights.
proof fn lemma_pair_weights_absent(es: Seq<(Seq<char>, Seq<char>, u64)>, p: (Seq<char>, Seq<char>))
    requires
        !edge_pairs(es).contains(p),
    ensures
        pair_weights(es, p) == Seq::<u64>::empty(),
    decreases es.len(),
{
    if es.len() > 0 {
        let q = es.drop_last();
        assert(!edge_pairs(q).contains(p)) by {
            if edge_pairs(q).contains(p) {
                let a = choose|a: int| 0 <= a < edge_pairs(q).len() && edge_pairs(q)[a] == p;
                assert(edge_pairs(es)[a] == p);
            }
        }
        assert(edge_pairs(es)[es.len() - 1] == edge_pair(es.last()));
        lemma_pair_weights_absent(q, p);
    }
}

/// The edges grouped by the nodes they join: each pair of nodes once, in
/// order of first appearance, with the weights of all its edges in order.
pub fn group_edges(edges: &Vec<(ID, ID, u64)>) -> (r: Vec<(ID, ID, Vec<u64>)>)
    ensures
        r@.len() == distinct_pairs(edge_pairs(edge_views(edges@))).len(),
        forall|i: int| 0 <= i < r@.len() ==> {
            let p = #[trigger] distinct_pairs(edge_pairs(edge_views(edges@)))[i];
            &&& r@[i].0@ == p.0
            &&& r@[i].1@ == p.1
            &&& r@[i].2@ == pair_weights(edge_views(edges@), p)
        },
        forall|i: int, j: int| 0 <= i < j < r@.len() ==> (#[trigger] r@[i].0@, r@[i].1@) != (#[trigger] r@[j].0@, r@[j].1@),
{
    let ghost ev = edge_views(edges@);
    let mut srcs: Vec<String> = Vec::new();
    let mut dests: Vec<String> = Vec::new();
    let mut weights: Vec<Vec<u64>> = Vec::new();
    let mut i: usize = 0;
    while i < edges.len()
        invariant
            ev == edge_views(edges@),
            i <= edges@.len(),
            srcs@.len() == dests@.len(),
            srcs@.len() == weights@.len(),
            srcs@.len() == distinct_pairs(edge_pairs(ev.take(i as int))).len(),
            forall|j: int| 0 <= j < srcs@.len() ==> {
                let p = #[trigger] distinct_pairs(edge_pairs(ev.take(i as int)))[j];
                &&& srcs@[j]@ == p.0
                &&& dests@[j]@ == p.1
                &&& weights@[j]@ == pair_weights(ev.take(i as int), p)
            },
        decreases edges@.len() - i,
    {
        let s = edges[i].0.0.clone();
        let d = edges[i].1.0.clone();
        let w = edges[i].2;
        let ghost pre = ev.take(i as int);
        let ghost post = ev.take(i + 1);
        let ghost e = (s@, d@);
        proof {
            assert(ev[i as int] == (edges@[i as int].0@, edges@[i as int].1@, w));
            assert(post.drop_last() =~= pre);
            assert(post.last() == ev[i as int]);
            assert(edge_pairs(post).drop_last() =~= edge_pairs(pre));
            assert(edge_pairs(post).last() == e);
            lemma_distinct_pairs(edge_pairs(pre));
        }
        let ghost dp = distinct_pairs(edge_pairs(pre));
        let mut j: usize = 0;
        let mut found = false;
        while j < srcs.len()
            invariant
                dp == distinct_pairs(edge_pairs(ev.take(i as int))),
                e == (s@, d@),
                srcs@.len() == dests@.len(),
                srcs@.len() == dp.len(),
                j <= srcs@.len(),
                forall|x: int| 0 <= x < srcs@.len() ==> srcs@[x]@ == (#[trigger] distinct_pairs(edge_pairs(ev.take(i as int)))[x]).0
                    && dests@[x]@ == distinct_pairs(edge_pairs(ev.take(i as int)))[x].1,
                !found ==> forall|x: int| 0 <= x < j ==> #[trigger] dp[x] != e,
                found ==> j < srcs@.len() && dp[j as int] == e,
            ensures
                found ==> j < srcs@.len() && dp[j as int] == e,
                !found ==> forall|x: int| 0 <= x < srcs@.len() ==> #[trigger] dp[x] != e,
            decreases srcs@.len() - j + if found { 0int } else { 1int },
        {
            let ghost q = distinct_pairs(edge_pairs(ev.take(i as int)))[j as int];
            if srcs[j] == s && dests[j] == d {
                assert(q == e);
                found = true;
                break;
            }
            assert(q != e);
            j += 1;
        }
        if found {
            proof {
                assert(dp.contains(e));
                assert(distinct_pairs(edge_pairs(post)) == dp);
            }
            let mut ws = weights[j].clone();
            ws.push(w);
            weights.set(j, ws);
            proof {
                assert forall|x: int| 0 <= x < srcs@.len() implies {
                    let p = #[trigger] distinct_pairs(edge_pairs(post))[x];
                    &&& srcs@[x]@ == p.0
                    &&& dests@[x]@ == p.1
                    &&& weights@[x]@ == pair_weights(post, p)
                } by {
                    if x != j {
                        assert(dp[x] != dp[j as int]);
                    }
                }
            }
        } else {
            proof {
                assert(!dp.contains(e)) by {
                    if dp.contains(e) {
                        let x = choose|x: int| 0 <= x < dp.len() && dp[x] == e;
                        assert(dp[x] != e);
                    }
                }
                assert(!edge_pairs(pre).contains(e));
                lemma_pair_weights_absent(pre, e);
                assert(distinct_pairs(edge_pairs(post)) == dp.push(e));
            }
            let mut ws: Vec<u64> = Vec::new();
            ws.push(w);
            srcs.push(s);
            dests.push(d);
            weights.push(ws);
            proof {
                assert forall|x: int| 0 <= x < srcs@.len() implies {
                    let p = #[trigger] distinct_pairs(edge_pairs(post))[x];
                    &&& srcs@[x]@ == p.0
                    &&& dests@[x]@ == p.1
                    &&& weights@[x]@ == pair_weights(post, p)
                } by {
                    if x < dp.len() {
                        assert(dp[x] != e) by {
                            assert(dp.contains(dp[x]));
                        }
                    } else {
                        assert(pair_weights(post, e) =~= seq![w]);
                    }
                }
            }
        }
        i += 1;
    }
    assert(ev.take(i as int) =~= ev);
    let ghost dp = distinct_pairs(edge_pairs(ev));
    let mut r: Vec<(ID, ID, Vec<u64>)> = Vec::new();
    let mut k: usize = 0;
    while k < srcs.len()
        invariant
            srcs@.len() == dests@.len(),
            srcs@.len() == weights@.len(),
            srcs@.len() == dp.len(),
            dp == distinct_pairs(edge_pairs(ev)),
            ev == edge_views(edges@),
            forall|j: int| 0 <= j < srcs@.len() ==> {
                let p = #[trigger] dp[j];
                &&& srcs@[j]@ == p.0
                &&& dests@[j]@ == p.1
                &&& weights@[j]@ == pair_weights(ev, p)
            },
            k <= srcs@.len(),
            r@.len() == k,
            forall|j: int| 0 <= j < k ==> {
                let p = #[trigger] dp[j];
                &&& r@[j].0@ == p.0
                &&& r@[j].1@ == p.1
                &&& r@[j].2@ == pair_weights(ev, p)
            },
        decreases srcs@.len() - k,
    {
        r.push((ID(srcs[k].clone()), ID(dests[k].clone()), weights[k].clone()));
        k += 1;
    }
    proof {
        lemma_distinct_pairs(edge_pairs(ev));
        assert forall|i: int, j: int| 0 <= i < j < r@.len() implies (#[trigger] r@[i].0@, r@[i].1@) != (#[trigger] r@[j].0@, r@[j].1@) by {
            assert(dp[i] == (r@[i].0@, r@[i].1@));
            assert(dp[j] == (r@[j].0@, r@[j].1@));
        }
    }
    r
}

/// A weighted directed graph between notes. Nodes are numbered in the order
/// they were registered.
pub struct LinkGraph {
    id_to_idx: StringHashMap<usize>,
    idx_to_id: Vec<ID>,
    adjacency: Adjacency,
    dirty_ids: StringHashSet,
}

impl LinkGraph {
    /// The graph's bookkeeping is consistent.
    pub closed spec fn wf(&self) -> bool {
        let ns = id_views(self.idx_to_id@);
        &&& ns.no_duplicates()
        &&& self.id_to_idx@.dom() == ns.to_set()
        &&& forall|i: int| 0 <= i < ns.len() ==> #[trigger] self.id_to_idx@[ns[i]] == i
        &&& adjacency_shape(self.adjacency).0 <= ns.len()
        &&& adjacency_shape(self.adjacency).1 <= ns.len()
        &&& self.adjacency.well_shaped()
        &&& self.dirty_ids@.subset_of(self.id_to_idx@.dom())
    }

    /// The node identifiers, by node number.
    pub closed spec fn nodes(&self) -> Seq<Seq<char>> {
        id_views(self.idx_to_id@)
    }

    /// The number of a node.
    pub closed spec fn index(&self, id: Seq<char>) -> usize {
        self.id_to_idx@[id]
    }

    /// The links, by node numbers.
    pub closed spec fn edges(&self) -> Map<(usize, usize), u64> {
        adjacency_entries(self.adjacency)
    }

    /// The number of rows the adjacency matrix has: nodes from this number on
    /// have no row of outgoing links yet.
    pub closed spec fn row_count(&self) -> usize {
        adjacency_shape(self.adjacency).0
    }

    /// The links, by source and destination identifier.
    pub closed spec fn links_map(&self) -> Map<(Seq<char>, Seq<char>), u64> {
        Map::new(
            |p: (Seq<char>, Seq<char>)|
                self.id_to_idx@.contains_key(p.0) && self.id_to_idx@.contains_key(p.1)
                    && self.edges().contains_key((self.index(p.0), self.index(p.1))),
            |p: (Seq<char>, Seq<char>)| self.edges()[(self.index(p.0), self.index(p.1))],
        )
    }

    /// The identifiers whose outgoing links changed since the last flush.
    pub closed spec fn dirty_set(&self) -> Set<Seq<char>> {
        self.dirty_ids@
    }

    /// The adjacency matrix.
    pub closed spec fn matrix(&self) -> Adjacency {
        self.adjacency
    }

    /// Facts of every consistent graph.
    pub proof fn lemma_wf(&self)
        requires
            self.wf(),
        ensures
            self.nodes().no_duplicates(),
            self.row_count() <= self.nodes().len(),
            self.dirty_set().subset_of(self.nodes().to_set()),
            forall|i: int| 0 <= i < self.nodes().len() ==> #[trigger] self.index(self.nodes()[i]) == i,
            forall|k: Seq<char>| #[trigger] self.nodes().contains(k) ==> self.index(k) < self.nodes().len() && self.nodes()[self.index(k) as int] == k,
            forall|p: (usize, usize)| #[trigger] self.edges().contains_key(p) ==> p.0 < self.row_count() && p.1 < self.nodes().len(),
            self.edges().dom().finite(),
            self.matrix().well_shaped(),
            self.edges() == adjacency_entries(self.matrix()),
            self.row_count() == adjacency_shape(self.matrix()).0,
            adjacency_shape(self.matrix()).1 <= self.nodes().len(),
    {
        assert forall|k: Seq<char>| #[trigger] self.nodes().contains(k) implies self.index(k) < self.nodes().len() && self.nodes()[self.index(k) as int] == k by {
            let i = choose|i: int| 0 <= i < self.nodes().len() && self.nodes()[i] == k;
            assert(self.id_to_idx@[self.nodes()[i]] == i);
        }
    }

    /// The nodes that link to `d`, by identifier.
    pub open spec fn link_sources(&self, d: Seq<char>) -> Set<Seq<char>> {
        Set::new(|s: Seq<char>| self.links_map().contains_key((s, d)))
    }

    /// The nodes `s` links to, by identifier.
    pub open spec fn link_targets(&self, s: Seq<char>) -> Set<Seq<char>> {
        Set::new(|d: Seq<char>| self.links_map().contains_key((s, d)))
    }

    /// The links by identifier and the matrix entries by node number are the
    /// same links: each entry is the link between the nodes of its row and
    /// column, each link is the entry at its nodes' numbers (its source has a
    /// row), and there are as many links as entries.
    pub proof fn lemma_links_edges(&self)
        requires
            self.wf(),
        ensures
            forall|p: (usize, usize)| #[trigger] self.edges().contains_key(p) ==> {
                &&& p.0 < self.row_count()
                &&& p.1 < self.nodes().len()
                &&& self.links_map().contains_key((self.nodes()[p.0 as int], self.nodes()[p.1 as int]))
                &&& self.links_map()[(self.nodes()[p.0 as int], self.nodes()[p.1 as int])] == self.edges()[p]
            },
            forall|s: Seq<char>, d: Seq<char>| #[trigger] self.links_map().contains_key((s, d)) ==> {
                &&& self.nodes().contains(s)
                &&& self.nodes().contains(d)
                &&& self.index(s) < self.row_count()
                &&& self.edges().contains_key((self.index(s), self.index(d)))
                &&& self.links_map()[(s, d)] == self.edges()[(self.index(s), self.index(d))]
            },
            self.links_map().dom().finite(),
            self.links_map().len() == self.edges().len(),
    {
        self.lemma_wf();
        let ns = self.nodes();
        let e = self.edges().dom();
        let f = |p: (usize, usize)| (ns[p.0 as int], ns[p.1 as int]);
        assert forall|p: (usize, usize)| #[trigger] self.edges().contains_key(p) implies {
            &&& self.links_map().contains_key((ns[p.0 as int], ns[p.1 as int]))
            &&& self.links_map()[(ns[p.0 as int], ns[p.1 as int])] == self.edges()[p]
        } by {
            assert(ns.to_set().contains(ns[p.0 as int]));
            assert(ns.to_set().contains(ns[p.1 as int]));
            assert(self.index(ns[p.0 as int]) == p.0);
            assert(self.index(ns[p.1 as int]) == p.1);
        }
        assert forall|s: Seq<char>, d: Seq<char>| #[trigger] self.links_map().contains_key((s, d)) implies
            self.nodes().contains(s) && self.nodes().contains(d) by {
            assert(ns.to_set().contains(s));
            assert(ns.to_set().contains(d));
        }
        assert(vstd::relations::injective_on(f, e)) by {
            assert forall|x: (usize, usize), y: (usize, usize)|
                e.contains(x) && e.contains(y) && #[trigger] f(x) == #[trigger] f(y) implies x == y by {
                assert(ns[x.0 as int] == ns[y.0 as int]);
                assert(self.index(ns[x.0 as int]) == x.0);
                assert(self.index(ns[y.0 as int]) == y.0);
                assert(self.index(ns[x.1 as int]) == x.1);
                assert(self.index(ns[y.1 as int]) == y.1);
            }
        }
        assert(e.map(f) =~= self.links_map().dom()) by {
            assert forall|q: (Seq<char>, Seq<char>)| #[trigger] self.links_map().dom().contains(q) implies e.map(f).contains(q) by {
                let p = (self.index(q.0), self.index(q.1));
                assert(e.contains(p));
                assert(ns.contains(q.0) && ns.contains(q.1));
                assert(f(p) == q);
            }
        }
        vstd::set_lib::lemma_map_size(e, self.links_map().dom(), f);
    }

    /// `d` is among the nodes `s` links to exactly when `s` is among the nodes
    /// that link to `d`, both with the weight of that link; and the source of
    /// a link has a row, so its outgoing links are listed.
    pub proof fn lemma_links_backlinks(&self, s: Seq<char>, d: Seq<char>)
        requires
            self.wf(),
        ensures
            self.link_targets(s).contains(d) <==> self.link_sources(d).contains(s),
            self.links_map().contains_key((s, d)) ==> {
                &&& self.nodes().contains(s)
                &&& self.nodes().contains(d)
                &&& self.index(s) < self.row_count()
            },
    {
        self.lemma_links_edges();
    }

    /// The numbers of nodes linking to each of `ns`, added up.
    pub open spec fn sources_total(&self, ns: Seq<Seq<char>>) -> nat
        decreases ns.len(),
    {
        if ns.len() == 0 {
            0
        } else {
            self.sources_total(ns.drop_last()) + self.link_sources(ns.last()).len()
        }
    }

    /// The links into the nodes `ns`.
    spec fn links_into(&self, ns: Seq<Seq<char>>) -> Set<(Seq<char>, Seq<char>)> {
        Set::new(|p: (Seq<char>, Seq<char>)| self.links_map().contains_key(p) && ns.contains(p.1))
    }

    proof fn lemma_links_into(&self, ns: Seq<Seq<char>>)
        requires
            self.wf(),
            ns.no_duplicates(),
            forall|a: int| 0 <= a < ns.len() ==> self.nodes().contains(#[trigger] ns[a]),
        ensures
            self.links_into(ns).finite(),
            self.links_into(ns).len() == self.sources_total(ns),
        decreases ns.len(),
    {
        self.lemma_wf();
        self.lemma_links_edges();
        if ns.len() == 0 {
            assert(self.links_into(ns) =~= Set::<(Seq<char>, Seq<char>)>::empty());
        } else {
            let q = ns.drop_last();
            let d = ns.last();
            assert forall|a: int| 0 <= a < q.len() implies self.nodes().contains(#[trigger] q[a]) by {
                assert(q[a] == ns[a]);
            }
            assert(q.no_duplicates()) by {
                assert forall|a: int, b: int| 0 <= a < q.len() && 0 <= b < q.len() && a != b implies q[a] != q[b] by {
                    assert(q[a] == ns[a] && q[b] == ns[b]);
                }
            }
            self.lemma_links_into(q);
            assert(!q.contains(d)) by {
                if q.contains(d) {
                    let a = choose|a: int| 0 <= a < q.len() && q[a] == d;
                    assert(ns[a] == d && ns[ns.len() - 1] == d);
                }
            }
            assert(self.nodes().contains(ns[ns.len() - 1]));
            self.lemma_sources_len(self.index(d));
            let into_d = Set::new(|p: (Seq<char>, Seq<char>)| self.links_map().contains_key(p) && p.1 == d);
            let f = |x: Seq<char>| (x, d);
            assert(self.link_sources(d).map(f) =~= into_d) by {
                assert forall|p: (Seq<char>, Seq<char>)| #[trigger] into_d.contains(p) implies self.link_sources(d).map(f).contains(p) by {
                    assert(self.link_sources(d).contains(p.0));
                    assert(f(p.0) == p);
                }
            }
            assert(vstd::relations::injective_on(f, self.link_sources(d))) by {
                assert forall|x: Seq<char>, y: Seq<char>|
                    self.link_sources(d).contains(x) && self.link_sources(d).contains(y) && #[trigger] f(x) == #[trigger] f(y)
                    implies x == y by {
                    assert(f(x).0 == x && f(y).0 == y);
                }
            }
            vstd::set_lib::lemma_map_size(self.link_sources(d), into_d, f);
            assert(self.links_into(ns) =~= self.links_into(q) + into_d) by {
                assert forall|p: (Seq<char>, Seq<char>)| #[trigger] self.links_into(ns).contains(p) implies (self.links_into(q) + into_d).contains(p) by {
                    let a = choose|a: int| 0 <= a < ns.len() && ns[a] == p.1;
                    if a < q.len() {
                        assert(q[a] == p.1);
                    }
                }
                assert forall|p: (Seq<char>, Seq<char>)| #[trigger] (self.links_into(q) + into_d).contains(p) implies self.links_into(ns).contains(p) by {
                    if self.links_into(q).contains(p) {
                        let a = choose|a: int| 0 <= a < q.len() && q[a] == p.1;
                        assert(ns[a] == p.1);
                    } else {
                        assert(ns[ns.len() - 1] == p.1);
                    }
                }
            }
            assert(self.links_into(q).disjoint(into_d));
            vstd::set_lib::lemma_set_disjoint_lens(self.links_into(q), into_d);
        }
    }

    /// Every link leads into exactly one node, so the numbers of nodes linking
    /// to each node add up to the number of links.
    pub proof fn lemma_sources_total(&self)
        requires
            self.wf(),
        ensures
            self.sources_total(self.nodes()) == self.links_map().len(),
    {
        self.lemma_wf();
        self.lemma_links_edges();
        self.lemma_links_into(self.nodes());
        assert(self.links_into(self.nodes()) =~= self.links_map().dom());
    }

    /// Node `j` has as many sources by number as by identifier.
    pub proof fn lemma_sources_len(&self, j: usize)
        requires
            self.wf(),
            j < self.nodes().len(),
        ensures
            self.sources(j).finite(),
            self.link_sources(self.nodes()[j as int]).finite(),
            self.link_sources(self.nodes()[j as int]).len() == self.sources(j).len(),
    {
        self.lemma_wf();
        self.lemma_links_edges();
        let ns = self.nodes();
        let e = self.edges().dom();
        let src = self.sources(j);
        let firsts = e.map(|p: (usize, usize)| p.0);
        e.lemma_map_finite(|p: (usize, usize)| p.0);
        assert forall|i: usize| src.contains(i) implies firsts.contains(i) by {
            assert(e.contains((i, j)));
        }
        vstd::set_lib::lemma_set_subset_finite(firsts, src);
        let f = |i: usize| ns[i as int];
        assert(vstd::relations::injective_on(f, src)) by {
            assert forall|x: usize, y: usize| src.contains(x) && src.contains(y) && #[trigger] f(x) == #[trigger] f(y)
                implies x == y by {
                assert(self.edges().contains_key((x, j)));
                assert(self.edges().contains_key((y, j)));
                assert(self.index(ns[x as int]) == x);
                assert(self.index(ns[y as int]) == y);
            }
        }
        let d = ns[j as int];
        assert(src.map(f) =~= self.link_sources(d)) by {
            assert forall|s: Seq<char>| #[trigger] self.link_sources(d).contains(s) implies src.map(f).contains(s) by {
                assert(self.links_map().contains_key((s, d)));
                assert(self.index(d) == j);
                assert(src.contains(self.index(s)));
                assert(ns[self.index(s) as int] == s);
                assert(f(self.index(s)) == s);
            }
            assert forall|s: Seq<char>| #[trigger] src.map(f).contains(s) implies self.link_sources(d).contains(s) by {
                let i = choose|i: usize| src.contains(i) && s == f(i);
                assert(self.edges().contains_key((i, j)));
            }
        }
        vstd::set_lib::lemma_map_size(src, self.link_sources(d), f);
    }

    /// Node `j` has as many targets by number as by identifier.
    pub proof fn lemma_targets_len(&self, j: usize)
        requires
            self.wf(),
            j < self.nodes().len(),
        ensures
            self.targets(j).finite(),
            self.link_targets(self.nodes()[j as int]).finite(),
            self.link_targets(self.nodes()[j as int]).len() == self.targets(j).len(),
    {
        self.lemma_wf();
        self.lemma_links_edges();
        let ns = self.nodes();
        let e = self.edges().dom();
        let src = self.targets(j);
        let firsts = e.map(|p: (usize, usize)| p.1);
        e.lemma_map_finite(|p: (usize, usize)| p.1);
        assert forall|i: usize| src.contains(i) implies firsts.contains(i) by {
            assert(e.contains((j, i)));
        }
        vstd::set_lib::lemma_set_subset_finite(firsts, src);
        let f = |i: usize| ns[i as int];
        assert(vstd::relations::injective_on(f, src)) by {
            assert forall|x: usize, y: usize| src.contains(x) && src.contains(y) && #[trigger] f(x) == #[trigger] f(y)
                implies x == y by {
                assert(self.edges().contains_key((j, x)));
                assert(self.edges().contains_key((j, y)));
                assert(self.index(ns[x as int]) == x);
                assert(self.index(ns[y as int]) == y);
            }
        }
        let d = ns[j as int];
        assert(src.map(f) =~= self.link_targets(d)) by {
            assert forall|s: Seq<char>| #[trigger] self.link_targets(d).contains(s) implies src.map(f).contains(s) by {
                assert(self.links_map().contains_key((d, s)));
                assert(self.index(d) == j);
                assert(src.contains(self.index(s)));
                assert(ns[self.index(s) as int] == s);
                assert(f(self.index(s)) == s);
            }
            assert forall|s: Seq<char>| #[trigger] src.map(f).contains(s) implies self.link_targets(d).contains(s) by {
                let i = choose|i: usize| src.contains(i) && s == f(i);
                assert(self.edges().contains_key((j, i)));
            }
        }
        vstd::set_lib::lemma_map_size(src, self.link_targets(d), f);
    }

    /// A graph with no nodes.
    pub fn new() -> (g: Self)
        ensures
            g.wf(),
            g.nodes() == Seq::<Seq<char>>::empty(),
            g.links_map() == Map::<(Seq<char>, Seq<char>), u64>::empty(),
            g.dirty_set() == Set::<Seq<char>>::empty(),
            g.row_count() == 0,
    {
        let g = LinkGraph {
            id_to_idx: StringHashMap::new(),
            idx_to_id: Vec::new(),
            adjacency: Adjacency::zero(0, 0),
            dirty_ids: StringHashSet::new(),
        };
        assert(id_views(g.idx_to_id@).to_set() =~= Set::<Seq<char>>::empty());
        assert(g.links_map() =~= Map::<(Seq<char>, Seq<char>), u64>::empty());
        g
    }

    /// The number of `id`, registering it as a new last node if it is new.
    pub fn register_node(&mut self, id: ID) -> (idx: usize)
        requires
            old(self).wf(),
        ensures
            final(self).wf(),
            final(self).nodes() == add_node(old(self).nodes(), id@),
            idx == final(self).index(id@),
            old(self).nodes().contains(id@) ==> idx == old(self).index(id@),
            !old(self).nodes().contains(id@) ==> idx == old(self).nodes().len(),
            final(self).edges() == old(self).edges(),
            final(self).row_count() == old(self).row_count(),
            final(self).links_map() == old(self).links_map(),
            final(self).dirty_set() == old(self).dirty_set(),
            final(self).matrix() == old(self).matrix(),
            forall|k: Seq<char>| #[trigger] old(self).nodes().contains(k) ==> final(self).index(k) == old(self).index(k),
    {
        proof {
            self.lemma_wf();
        }
        let ghost ns = id_views(self.idx_to_id@);
        match self.id_to_idx.get(id.0.as_str()) {
            Some(i) => {
                assert(ns.to_set().contains(id@));
                *i
            },
            None => {
                assert(!ns.contains(id@)) by {
                    if ns.contains(id@) {
                        assert(ns.to_set().contains(id@));
                    }
                }
                let n = self.idx_to_id.len();
                let key = id.0.clone();
                self.idx_to_id.push(id);
                self.id_to_idx.insert(key, n);
                proof {
                    let nns = id_views(self.idx_to_id@);
                    assert(nns =~= ns.push(id@));
                    assert forall|x: Seq<char>| nns.to_set().contains(x) <==> ns.to_set().insert(id@).contains(x) by {
                        if nns.to_set().contains(x) {
                            let j = choose|j: int| 0 <= j < nns.len() && nns[j] == x;
                            if j < ns.len() {
                                assert(ns[j] == x);
                            }
                        }
                        if ns.to_set().contains(x) {
                            let j = choose|j: int| 0 <= j < ns.len() && ns[j] == x;
                            assert(nns[j] == x);
                        }
                        if x == id@ {
                            assert(nns[ns.len() as int] == x);
                        }
                    }
                    assert(nns.to_set() =~= ns.to_set().insert(id@));
                    assert forall|i: int| 0 <= i < nns.len() implies #[trigger] self.id_to_idx@[nns[i]] == i by {
                        if i < ns.len() {
                            assert(nns[i] == ns[i]);
                            assert(ns[i] != id@);
                        }
                    }
                    assert forall|k: Seq<char>| #[trigger] old(self).nodes().contains(k) implies self.index(k) == old(self).index(k) by {
                        assert(k != id@);
                    }
                    assert(self.links_map() =~= old(self).links_map()) by {
                        assert forall|p: (Seq<char>, Seq<char>)| #[trigger] self.links_map().contains_key(p) == old(self).links_map().contains_key(p) by {
                            if self.id_to_idx@.contains_key(p.0) && self.id_to_idx@.contains_key(p.1)
                                && self.edges().contains_key((self.index(p.0), self.index(p.1))) {
                                if p.0 == id@ || p.1 == id@ {
                                    assert(self.index(id@) == n);
                                }
                            }
                        }
                    }
                }
                n
            },
        }
    }

    /// The number of `id`, if it is a node.
    pub fn index_of(&self, id: &ID) -> (r: Option<usize>)
        requires
            self.wf(),
        ensures
            r is Some <==> self.nodes().contains(id@),
            r matches Some(i) ==> i == self.index(id@) && i < self.nodes().len(),
    {
        proof {
            self.lemma_wf();
        }
        match self.id_to_idx.get(id.0.as_str()) {
            Some(i) => {
                assert(self.nodes().to_set().contains(id@));
                Some(*i)
            },
            None => {
                assert(!self.nodes().contains(id@)) by {
                    if self.nodes().contains(id@) {
                        assert(self.nodes().to_set().contains(id@));
                    }
                }
                None
            },
        }
    }

    /// The identifier of node `i`.
    pub fn id_at(&self, i: usize) -> (r: &ID)
        requires
            self.wf(),
            i < self.nodes().len(),
        ensures
            r@ == self.nodes()[i as int],
    {
        &self.idx_to_id[i]
    }

    /// Number of nodes.
    pub fn node_count(&self) -> (n: usize)
        requires
            self.wf(),
        ensures
            n == self.nodes().len(),
    {
        self.idx_to_id.len()
    }

    /// Number of links.
    pub fn edge_count(&self) -> (n: usize)
        requires
            self.wf(),
        ensures
            n == self.edges().len(),
            n == self.links_map().len(),
    {
        proof {
            self.lemma_links_edges();
        }
        self.adjacency.nnz()
    }

    /// Set the link from `src` to `dest` to `weight`, registering new nodes
    /// (the source first), and mark `src` dirty.
    pub fn upsert_link(&mut self, src: ID, dest: ID, weight: u64)
        requires
            old(self).wf(),
        ensures
            final(self).wf(),
            final(self).nodes() == add_node(add_node(old(self).nodes(), src@), dest@),
            final(self).links_map() == old(self).links_map().insert((src@, dest@), weight),
            final(self).dirty_set() == old(self).dirty_set().insert(src@),
            final(self).index(src@) < final(self).row_count(),
    {
        let key = src.0.clone();
        let ghost s = src@;
        let ghost d = dest@;
        let i = self.register_node(src);
        let ghost mid = *self;
        proof {
            let ns = old(self).nodes();
            if !ns.contains(s) {
                assert(ns.push(s)[ns.len() as int] == s);
            }
            assert(mid.nodes().contains(s));
        }
        let j = self.register_node(dest);
        proof {
            self.lemma_wf();
            let ms = mid.nodes();
            if !ms.contains(d) {
                assert(ms.push(d)[ms.len() as int] == d);
                let k = choose|k: int| 0 <= k < ms.len() && ms[k] == s;
                assert(ms.push(d)[k] == s);
            }
            assert(self.nodes().contains(s));
            assert(self.nodes().contains(d));
            assert(self.index(s) == mid.index(s));
        }
        let ghost before = *self;
        let n = self.idx_to_id.len();
        assert(i == self.index(s) && j == self.index(d));
        assert(i < n && j < n);
        self.adjacency.insert(i, j, weight);
        assert(self.id_to_idx@.contains_key(key@)) by {
            assert(self.nodes().to_set().contains(key@));
        }
        self.dirty_ids.insert(key);
        proof {
            let e0 = adjacency_entries(before.adjacency);
            let e1 = adjacency_entries(self.adjacency);
            assert(e1 == e0.insert((i, j), weight));
            assert(before.adjacency.well_shaped());
            assert forall|p: (usize, usize)| #[trigger] e1.contains_key(p) implies p.0 < adjacency_shape(self.adjacency).0 && p.1 < adjacency_shape(self.adjacency).1 by {
                if p != (i, j) {
                    assert(e0.contains_key(p));
                }
            }
            assert(self.wf());
            self.lemma_wf();
            before.lemma_wf();
            old(self).lemma_wf();
            assert forall|p: (Seq<char>, Seq<char>)| #[trigger] self.links_map().contains_key(p) == old(self).links_map().insert((s, d), weight).contains_key(p) by {
                let old_lm = old(self).links_map();
                if p != (s, d) && old_lm.contains_key(p) {
                    assert(old(self).nodes().to_set().contains(p.0));
                    assert(old(self).nodes().to_set().contains(p.1));
                    assert(old(self).nodes().contains(p.0) && old(self).nodes().contains(p.1));
                    assert(mid.index(p.0) == old(self).index(p.0));
                    assert(mid.index(p.1) == old(self).index(p.1));
                    assert(mid.nodes().contains(p.0)) by {
                        assert(mid.nodes().to_set().contains(p.0));
                    }
                    assert(mid.nodes().contains(p.1)) by {
                        assert(mid.nodes().to_set().contains(p.1));
                    }
                    assert(self.index(p.0) == mid.index(p.0));
                    assert(self.index(p.1) == mid.index(p.1));
                }
                if p != (s, d) && self.links_map().contains_key(p) {
                    assert(self.nodes().to_set().contains(p.0));
                    assert(self.nodes().to_set().contains(p.1));
                    assert((self.index(p.0), self.index(p.1)) != (i, j)) by {
                        if self.index(p.0) == i && self.index(p.1) == j {
                            assert(self.nodes()[i as int] == s);
                            assert(self.nodes()[j as int] == d);
                        }
                    }
                    assert(e0.contains_key((self.index(p.0), self.index(p.1))));
                    assert(self.index(p.0) < old(self).nodes().len());
                    assert(self.index(p.1) < old(self).nodes().len());
                    assert(old(self).nodes().contains(p.0)) by {
                        assert(self.nodes()[self.index(p.0) as int] == p.0);
                        assert(old(self).nodes()[self.index(p.0) as int] == p.0);
                    }
                    assert(old(self).nodes().contains(p.1)) by {
                        assert(self.nodes()[self.index(p.1) as int] == p.1);
                        assert(old(self).nodes()[self.index(p.1) as int] == p.1);
                    }
                    assert(old(self).nodes().to_set().contains(p.0));
                    assert(old(self).nodes().to_set().contains(p.1));
                    assert(mid.index(p.0) == old(self).index(p.0));
                    assert(mid.index(p.1) == old(self).index(p.1));
                    assert(mid.nodes().contains(p.0)) by {
                        assert(mid.nodes().to_set().contains(p.0));
                    }
                    assert(mid.nodes().contains(p.1)) by {
                        assert(mid.nodes().to_set().contains(p.1));
                    }
                }
            }
            assert forall|p: (Seq<char>, Seq<char>)| #[trigger] self.links_map().contains_key(p) implies self.links_map()[p] == old(self).links_map().insert((s, d), weight)[p] by {
                if p != (s, d) {
                    assert(old(self).links_map().contains_key(p));
                    assert(old(self).nodes().to_set().contains(p.0));
                    assert(old(self).nodes().to_set().contains(p.1));
                    assert(mid.nodes().contains(p.0)) by {
                        assert(mid.nodes().to_set().contains(p.0));
                    }
                    assert(mid.nodes().contains(p.1)) by {
                        assert(mid.nodes().to_set().contains(p.1));
                    }
                    assert((self.index(p.0), self.index(p.1)) != (i, j)) by {
                        if self.index(p.0) == i && self.index(p.1) == j {
                            assert(self.nodes()[i as int] == s);
                            assert(self.nodes()[j as int] == d);
                        }
                    }
                } else {
                    assert(self.nodes().to_set().contains(s));
                }
            }
            assert(self.links_map() =~= old(self).links_map().insert((s, d), weight));
        }
    }

    /// The nodes node `i` links to, by number.
    pub open spec fn targets(&self, i: usize) -> Set<usize> {
        Set::new(|j: usize| self.edges().contains_key((i, j)))
    }

    /// The nodes that link to node `j`, by number.
    pub open spec fn sources(&self, j: usize) -> Set<usize> {
        Set::new(|i: usize| self.edges().contains_key((i, j)))
    }

    /// The outgoing links of `id`, by increasing number of the destination.
    /// `None` when `id` is not a node or has no row in the matrix yet.
    pub fn links(&self, id: &ID) -> (r: Option<Vec<(&ID, u64)>>)
        requires
            self.wf(),
        ensures
            r is None <==> !(self.nodes().contains(id@) && self.index(id@) < self.row_count()),
            r matches Some(v) ==> {
                &&& forall|a: int, b: int| 0 <= a < b < v@.len() ==> self.index(#[trigger] v@[a].0@) < self.index(#[trigger] v@[b].0@)
                &&& forall|a: int| 0 <= a < v@.len() ==> self.nodes().contains(#[trigger] v@[a].0@)
                    && self.links_map().contains_key((id@, v@[a].0@)) && self.links_map()[(id@, v@[a].0@)] == v@[a].1
                &&& forall|d: Seq<char>| #[trigger] self.links_map().contains_key((id@, d)) ==> exists|a: int|
                    0 <= a < v@.len() && v@[a].0@ == d
                &&& self.link_targets(id@).finite()
                &&& v@.len() == self.link_targets(id@).len()
            },
    {
        proof {
            self.lemma_wf();
        }
        let i = match self.index_of(id) {
            Some(i) => i,
            None => {
                return None;
            },
        };
        let row = match self.adjacency.outer_view(i) {
            Some(row) => row,
            None => {
                return None;
            },
        };
        let mut v: Vec<(&ID, u64)> = Vec::new();
        let mut a: usize = 0;
        while a < row.len()
            invariant
                self.wf(),
                i == self.index(id@),
                self.nodes().contains(id@),
                a <= row@.len(),
                v@.len() == a,
                forall|b: int| 0 <= b < row@.len() ==> #[trigger] self.edges().contains_key((i, row@[b].0)) && self.edges()[(i, row@[b].0)] == row@[b].1,
                forall|b: int| 0 <= b < a ==> #[trigger] v@[b].0@ == self.nodes()[row@[b].0 as int] && v@[b].1 == row@[b].1 && row@[b].0 < self.nodes().len(),
            decreases row@.len() - a,
        {
            let (j, w) = row[a];
            proof {
                self.lemma_wf();
                assert(self.edges().contains_key((i, row@[a as int].0)));
            }
            let ghost v0 = v@;
            v.push((&self.idx_to_id[j], w));
            proof {
                assert forall|b: int| 0 <= b < a + 1 implies #[trigger] v@[b].0@ == self.nodes()[row@[b].0 as int]
                    && v@[b].1 == row@[b].1 && row@[b].0 < self.nodes().len() by {
                    if b < a {
                        assert(v@[b] == v0[b]);
                    } else {
                        assert(self.idx_to_id@[j as int]@ == self.nodes()[j as int]);
                    }
                }
            }
            a += 1;
        }
        proof {
            self.lemma_wf();
            assert forall|x: int, y: int| 0 <= x < y < v@.len() implies self.index(#[trigger] v@[x].0@) < self.index(#[trigger] v@[y].0@) by {
                assert(row@[x].0 < row@[y].0);
            }
            assert forall|b: int| 0 <= b < v@.len() implies self.nodes().contains(#[trigger] v@[b].0@)
                && self.links_map().contains_key((id@, v@[b].0@)) && self.links_map()[(id@, v@[b].0@)] == v@[b].1 by {
                assert(v@[b].0@ == self.nodes()[row@[b].0 as int]);
                let j = row@[b].0;
                assert(j < self.nodes().len());
                assert(self.index(self.nodes()[j as int]) == j);
                assert(self.index(v@[b].0@) == j);
                assert(self.nodes().contains(v@[b].0@));
                assert(self.nodes().to_set().contains(v@[b].0@));
                assert(self.nodes().to_set().contains(id@));
                assert(self.edges().contains_key((i, row@[b].0)));
                assert(self.links_map().contains_key((id@, v@[b].0@)));
            }
            assert forall|d: Seq<char>| #[trigger] self.links_map().contains_key((id@, d)) implies exists|b: int|
                0 <= b < v@.len() && v@[b].0@ == d by {
                assert(self.id_to_idx@.contains_key(d));
                assert(self.nodes().to_set().contains(d));
                assert(self.edges().contains_key((i, self.index(d))));
                let b = choose|b: int| 0 <= b < row@.len() && row@[b].0 == self.index(d);
                assert(v@[b].0@ == d);
            }
            let ids = Seq::new(v@.len(), |a: int| v@[a].0@);
            assert forall|z: Seq<char>| #[trigger] self.link_targets(id@).contains(z) implies exists|a: int|
                0 <= a < ids.len() && ids[a] == z by {
                assert(self.links_map().contains_key((id@, z)));
                let b = choose|b: int| 0 <= b < v@.len() && v@[b].0@ == z;
                assert(ids[b] == z);
            }
            assert forall|a: int| 0 <= a < ids.len() implies self.link_targets(id@).contains(#[trigger] ids[a]) by {
                assert(self.links_map().contains_key((id@, v@[a].0@)));
            }
            assert forall|x: int, y: int| 0 <= x < y < ids.len() implies self.index(#[trigger] ids[x]) < self.index(#[trigger] ids[y]) by {
                assert(self.index(v@[x].0@) < self.index(v@[y].0@));
            }
            self.lemma_listed_len(ids, self.link_targets(id@));
        }
        Some(v)
    }

    /// The incoming links of `id`, by increasing number of the source; `None`
    /// when `id` is not a node.
    pub fn backlinks(&self, id: &ID) -> (r: Option<Vec<(&ID, u64)>>)
        requires
            self.wf(),
        ensures
            r is None <==> !self.nodes().contains(id@),
            r matches Some(v) ==> {
                &&& forall|a: int, b: int| 0 <= a < b < v@.len() ==> self.index(#[trigger] v@[a].0@) < self.index(#[trigger] v@[b].0@)
                &&& forall|a: int| 0 <= a < v@.len() ==> self.nodes().contains(#[trigger] v@[a].0@)
                    && self.links_map().contains_key((v@[a].0@, id@)) && self.links_map()[(v@[a].0@, id@)] == v@[a].1
                &&& forall|s: Seq<char>| #[trigger] self.links_map().contains_key((s, id@)) ==> exists|a: int|
                    0 <= a < v@.len() && v@[a].0@ == s
                &&& self.link_sources(id@).finite()
                &&& v@.len() == self.link_sources(id@).len()
            },
    {
        proof {
            self.lemma_wf();
        }
        let t = match self.index_of(id) {
            Some(t) => t,
            None => {
                return None;
            },
        };
        let rows = self.adjacency.shape().0;
        let mut v: Vec<(&ID, u64)> = Vec::new();
        let mut i: usize = 0;
        while i < rows
            invariant
                self.wf(),
                t == self.index(id@),
                self.nodes().contains(id@),
                rows == self.row_count(),
                i <= rows,
                forall|a: int, b: int| 0 <= a < b < v@.len() ==> self.index(#[trigger] v@[a].0@) < self.index(#[trigger] v@[b].0@),
                forall|a: int| 0 <= a < v@.len() ==> self.index(#[trigger] v@[a].0@) < i,
                forall|a: int| 0 <= a < v@.len() ==> self.nodes().contains(#[trigger] v@[a].0@)
                    && self.edges().contains_key((self.index(v@[a].0@), t)) && self.edges()[(self.index(v@[a].0@), t)] == v@[a].1,
                forall|s: usize| s < i && #[trigger] self.edges().contains_key((s, t)) ==> exists|a: int|
                    0 <= a < v@.len() && self.index(v@[a].0@) == s,
            decreases rows - i,
        {
            proof {
                self.lemma_wf();
            }
            let row = self.adjacency.outer_view(i).unwrap();
            let ghost v0 = v@;
            let mut a: usize = 0;
            while a < row.len()
                invariant
                    self.wf(),
                    t == self.index(id@),
                    self.nodes().contains(id@),
                    rows == self.row_count(),
                    i < rows,
                    a <= row@.len(),
                    forall|x: int, y: int| 0 <= x < y < row@.len() ==> #[trigger] row@[x].0 < #[trigger] row@[y].0,
                    forall|b: int| 0 <= b < row@.len() ==> #[trigger] self.edges().contains_key((i, row@[b].0)) && self.edges()[(i, row@[b].0)] == row@[b].1,
                    forall|j: usize| #[trigger] self.edges().contains_key((i, j)) ==> exists|b: int| 0 <= b < row@.len() && row@[b].0 == j,
                    v@.len() == v0.len() || (v@.len() == v0.len() + 1 && exists|b: int| 0 <= b < a && row@[b].0 == t),
                    v@.len() == v0.len() ==> forall|b: int| 0 <= b < a ==> row@[b].0 != t,
                    forall|x: int| 0 <= x < v0.len() ==> v@[x] == v0[x],
                    forall|x: int, y: int| 0 <= x < y < v0.len() ==> self.index(#[trigger] v0[x].0@) < self.index(#[trigger] v0[y].0@),
                    forall|x: int| 0 <= x < v0.len() ==> self.index(#[trigger] v0[x].0@) < i,
                    forall|x: int| 0 <= x < v0.len() ==> self.nodes().contains(#[trigger] v0[x].0@)
                        && self.edges().contains_key((self.index(v0[x].0@), t)) && self.edges()[(self.index(v0[x].0@), t)] == v0[x].1,
                    v@.len() == v0.len() + 1 ==> self.index(v@[v0.len() as int].0@) == i && v@[v0.len() as int].0@ == self.nodes()[i as int]
                        && self.edges().contains_key((i, t)) && self.edges()[(i, t)] == v@[v0.len() as int].1,
                decreases row@.len() - a,
            {
                let (j, w) = row[a];
                if j == t {
                    proof {
                        self.lemma_wf();
                        if v@.len() == v0.len() + 1 {
                            let b = choose|b: int| 0 <= b < a && row@[b].0 == t;
                            assert(row@[b].0 < row@[a as int].0);
                        }
                    }
                    assert(self.edges().contains_key((i, row@[a as int].0)));
                    assert(row@[a as int] == (j, w));
                    v.push((&self.idx_to_id[i], w));
                    proof {
                        self.lemma_wf();
                        assert(self.nodes()[i as int] == v@[v0.len() as int].0@);
                        assert(self.index(self.nodes()[i as int]) == i);
                    }
                }
                a += 1;
            }
            proof {
                self.lemma_wf();
                if v@.len() == v0.len() + 1 {
                    assert(self.nodes().contains(self.nodes()[i as int]));
                    assert forall|x: int, y: int| 0 <= x < y < v@.len() implies self.index(#[trigger] v@[x].0@) < self.index(#[trigger] v@[y].0@) by {
                        if y < v0.len() {
                            assert(v@[x] == v0[x] && v@[y] == v0[y]);
                        } else {
                            assert(v@[x] == v0[x]);
                        }
                    }
                    assert forall|x: int| 0 <= x < v@.len() implies self.index(#[trigger] v@[x].0@) < i + 1 by {
                        if x < v0.len() {
                            assert(v@[x] == v0[x]);
                        }
                    }
                    assert forall|x: int| 0 <= x < v@.len() implies self.nodes().contains(#[trigger] v@[x].0@)
                        && self.edges().contains_key((self.index(v@[x].0@), t)) && self.edges()[(self.index(v@[x].0@), t)] == v@[x].1 by {
                        if x < v0.len() {
                            assert(v@[x] == v0[x]);
                        }
                    }
                } else {
                    assert(v@ =~= v0);
                }
                assert forall|s: usize| s < i + 1 && #[trigger] self.edges().contains_key((s, t)) implies exists|a: int|
                    0 <= a < v@.len() && self.index(v@[a].0@) == s by {
                    if s == i {
                        let b = choose|b: int| 0 <= b < row@.len() && row@[b].0 == t;
                        assert(v@.len() == v0.len() + 1);
                    } else {
                        let a = choose|a: int| 0 <= a < v0.len() && self.index(v0[a].0@) == s;
                        assert(v@[a] == v0[a]);
                    }
                }
            }
            i += 1;
        }
        proof {
            self.lemma_wf();
            assert forall|b: int| 0 <= b < v@.len() implies self.nodes().contains(#[trigger] v@[b].0@)
                && self.links_map().contains_key((v@[b].0@, id@)) && self.links_map()[(v@[b].0@, id@)] == v@[b].1 by {
                assert(self.nodes().to_set().contains(v@[b].0@));
                assert(self.nodes().to_set().contains(id@));
            }
            assert forall|s: Seq<char>| #[trigger] self.links_map().contains_key((s, id@)) implies exists|b: int|
                0 <= b < v@.len() && v@[b].0@ == s by {
                assert(self.id_to_idx@.contains_key(s));
                assert(self.nodes().to_set().contains(s));
                let si = self.index(s);
                assert(self.edges().contains_key((si, t)));
                let b = choose|b: int| 0 <= b < v@.len() && self.index(v@[b].0@) == si;
                assert(self.nodes()[si as int] == s);
                assert(self.nodes()[self.index(v@[b].0@) as int] == v@[b].0@);
            }
            let ids = Seq::new(v@.len(), |a: int| v@[a].0@);
            assert forall|z: Seq<char>| #[trigger] self.link_sources(id@).contains(z) implies exists|a: int|
                0 <= a < ids.len() && ids[a] == z by {
                assert(self.links_map().contains_key((z, id@)));
                let b = choose|b: int| 0 <= b < v@.len() && v@[b].0@ == z;
                assert(ids[b] == z);
            }
            assert forall|a: int| 0 <= a < ids.len() implies self.link_sources(id@).contains(#[trigger] ids[a]) by {
                assert(self.links_map().contains_key((v@[a].0@, id@)));
            }
            assert forall|x: int, y: int| 0 <= x < y < ids.len() implies self.index(#[trigger] ids[x]) < self.index(#[trigger] ids[y]) by {
                assert(self.index(v@[x].0@) < self.index(v@[y].0@));
            }
            self.lemma_listed_len(ids, self.link_sources(id@));
        }
        Some(v)
    }

    /// A listing of identifiers by strictly increasing node number that holds
    /// exactly the set `s` has as many entries as `s` has elements.
    proof fn lemma_listed_len(&self, ids: Seq<Seq<char>>, s: Set<Seq<char>>)
        requires
            forall|x: int, y: int| 0 <= x < y < ids.len() ==> self.index(#[trigger] ids[x]) < self.index(#[trigger] ids[y]),
            forall|a: int| 0 <= a < ids.len() ==> s.contains(#[trigger] ids[a]),
            forall|z: Seq<char>| #[trigger] s.contains(z) ==> exists|a: int| 0 <= a < ids.len() && ids[a] == z,
        ensures
            s.finite(),
            s.len() == ids.len(),
    {
        assert forall|x: int, y: int| 0 <= x < ids.len() && 0 <= y < ids.len() && x != y implies ids[x] != ids[y] by {
            if x < y {
                assert(self.index(ids[x]) < self.index(ids[y]));
            } else {
                assert(self.index(ids[y]) < self.index(ids[x]));
            }
        }
        assert(ids.to_set() =~= s);
        ids.unique_seq_to_set();
    }

    /// The number of outgoing links of node `i`; `None` when node `i` has no
    /// row in the matrix.
    pub fn out_degree(&self, i: usize) -> (r: Option<usize>)
        requires
            self.wf(),
        ensures
            r is None <==> i >= self.row_count(),
            r matches Some(k) ==> self.targets(i).finite() && k == self.targets(i).len(),
            r matches Some(k) ==> i < self.nodes().len() && k == self.link_targets(self.nodes()[i as int]).len(),
    {
        proof {
            self.lemma_wf();
            if i < self.nodes().len() {
                self.lemma_targets_len(i);
            }
        }
        match self.adjacency.outer_view(i) {
            Some(row) => {
                proof {
                    lemma_row_len(row@, self.targets(i));
                }
                Some(row.len())
            },
            None => None,
        }
    }

    /// For every node, its incoming links as `(source number, weight)` by
    /// increasing source; `None` for nodes past the matrix's last column.
    pub fn incoming_links(&self) -> (r: Vec<Option<Vec<(usize, u64)>>>)
        requires
            self.wf(),
        ensures
            r@.len() == self.nodes().len(),
            forall|j: int| 0 <= j < r@.len() ==> (#[trigger] r@[j] is None <==> j >= adjacency_shape(self.matrix()).1),
            forall|j: int| 0 <= j < r@.len() ==> (#[trigger] r@[j] matches Some(v) ==> {
                &&& forall|a: int, b: int| 0 <= a < b < v@.len() ==> #[trigger] v@[a].0 < #[trigger] v@[b].0
                &&& forall|a: int| 0 <= a < v@.len() ==> #[trigger] self.edges().contains_key((v@[a].0, j as usize))
                    && self.edges()[(v@[a].0, j as usize)] == v@[a].1
                &&& forall|s: usize| #[trigger] self.edges().contains_key((s, j as usize)) ==> exists|a: int|
                    0 <= a < v@.len() && v@[a].0 == s
            }),
    {
        let t = self.transpose();
        let n = self.idx_to_id.len();
        let mut r: Vec<Option<Vec<(usize, u64)>>> = Vec::new();
        let mut j: usize = 0;
        while j < n
            invariant
                self.wf(),
                n == self.nodes().len(),
                adjacency_shape(t) == (adjacency_shape(self.matrix()).1, adjacency_shape(self.matrix()).0),
                forall|x: usize, y: usize| #[trigger] adjacency_entries(t).contains_key((x, y)) == self.edges().contains_key((y, x)),
                forall|x: usize, y: usize| #[trigger] adjacency_entries(t).contains_key((x, y)) ==> adjacency_entries(t)[(x, y)] == self.edges()[(y, x)],
                j <= n,
                r@.len() == j,
                forall|k: int| 0 <= k < j ==> (#[trigger] r@[k] is None <==> k >= adjacency_shape(self.matrix()).1),
                forall|k: int| 0 <= k < j ==> (#[trigger] r@[k] matches Some(v) ==> {
                    &&& forall|a: int, b: int| 0 <= a < b < v@.len() ==> #[trigger] v@[a].0 < #[trigger] v@[b].0
                    &&& forall|a: int| 0 <= a < v@.len() ==> #[trigger] self.edges().contains_key((v@[a].0, k as usize))
                        && self.edges()[(v@[a].0, k as usize)] == v@[a].1
                    &&& forall|s: usize| #[trigger] self.edges().contains_key((s, k as usize)) ==> exists|a: int|
                        0 <= a < v@.len() && v@[a].0 == s
                }),
            decreases n - j,
        {
            let row = t.row_entries(j);
            proof {
                if row is Some {
                    let v = row->0;
                    assert forall|a: int| 0 <= a < v@.len() implies #[trigger] self.edges().contains_key((v@[a].0, j))
                        && self.edges()[(v@[a].0, j)] == v@[a].1 by {
                        assert(adjacency_entries(t).contains_key((j, v@[a].0)));
                    }
                    assert forall|s: usize| #[trigger] self.edges().contains_key((s, j)) implies exists|a: int|
                        0 <= a < v@.len() && v@[a].0 == s by {
                        assert(adjacency_entries(t).contains_key((j, s)));
                    }
                }
            }
            r.push(row);
            j += 1;
        }
        r
    }

    /// Set the link from node `i` to node `j`.
    fn set_edge(&mut self, i: usize, j: usize, weight: u64)
        requires
            old(self).wf(),
            i < old(self).nodes().len(),
            j < old(self).nodes().len(),
        ensures
            final(self).wf(),
            final(self).nodes() == old(self).nodes(),
            final(self).dirty_set() == old(self).dirty_set(),
            final(self).links_map() == old(self).links_map().insert(
                (old(self).nodes()[i as int], old(self).nodes()[j as int]),
                weight,
            ),
            final(self).row_count() == (if i < old(self).row_count() { old(self).row_count() } else { (i + 1) as usize }),
            adjacency_shape(final(self).matrix()).1 == (if j < adjacency_shape(old(self).matrix()).1 {
                adjacency_shape(old(self).matrix()).1
            } else {
                (j + 1) as usize
            }),
    {
        proof {
            self.lemma_wf();
        }
        let _len = self.idx_to_id.len();
        let ghost s = self.nodes()[i as int];
        let ghost d = self.nodes()[j as int];
        let ghost a0 = self.adjacency;
        let ghost e0 = adjacency_entries(self.adjacency);
        assert(a0.well_shaped());
        self.adjacency.insert(i, j, weight);
        proof {
            let e1 = adjacency_entries(self.adjacency);
            assert forall|p: (usize, usize)| #[trigger] e1.contains_key(p) implies p.0 < adjacency_shape(self.adjacency).0 && p.1 < adjacency_shape(self.adjacency).1 by {
                if p != (i, j) {
                    assert(e0.contains_key(p));
                    assert(p.0 < adjacency_shape(a0).0 && p.1 < adjacency_shape(a0).1);
                }
            }
            assert(self.wf());
            self.lemma_wf();
            assert(self.index(s) == i && self.index(d) == j);
            assert forall|p: (Seq<char>, Seq<char>)| #[trigger] self.links_map().contains_key(p) == old(self).links_map().insert((s, d), weight).contains_key(p) by {
                if self.id_to_idx@.contains_key(p.0) && self.id_to_idx@.contains_key(p.1) && p != (s, d) {
                    assert(self.nodes().to_set().contains(p.0));
                    assert(self.nodes().to_set().contains(p.1));
                    assert((self.index(p.0), self.index(p.1)) != (i, j)) by {
                        if self.index(p.0) == i && self.index(p.1) == j {
                            assert(self.nodes()[i as int] == s);
                        }
                    }
                }
            }
            assert forall|p: (Seq<char>, Seq<char>)| #[trigger] self.links_map().contains_key(p) implies self.links_map()[p] == old(self).links_map().insert((s, d), weight)[p] by {
                assert(self.nodes().to_set().contains(p.0));
                assert(self.nodes().to_set().contains(p.1));
                if p != (s, d) {
                    assert((self.index(p.0), self.index(p.1)) != (i, j)) by {
                        if self.index(p.0) == i && self.index(p.1) == j {
                            assert(self.nodes()[i as int] == s);
                        }
                    }
                }
            }
            assert(self.links_map() =~= old(self).links_map().insert((s, d), weight));
        }
    }

    /// A graph of the given edges, no two of which join the same two nodes
    /// (edges that do are merged first, their weights added up; see
    /// `group_edges`). Nodes are numbered in order of first appearance, each
    /// edge's source before its destination; the matrix has a row and a
    /// column for every node; two nodes are linked exactly when an edge joins
    /// them, with that edge's weight. No node is dirty.
    pub fn from_edges(edges: Vec<(ID, ID, u64)>) -> (g: Self)
        requires
            edges@.len() < usize::MAX / 2,
            edge_pairs(edge_views(edges@)).no_duplicates(),
        ensures
            g.wf(),
            g.nodes() == edge_nodes(edge_views(edges@)),
            forall|p: (Seq<char>, Seq<char>)| #[trigger] g.links_map().contains_key(p) <==> edge_pairs(
                edge_views(edges@),
            ).contains(p),
            forall|i: int| 0 <= i < edges@.len() ==> #[trigger] g.links_map()[edge_pair(
                edge_views(edges@)[i],
            )] == edges@[i].2,
            g.dirty_set() == Set::<Seq<char>>::empty(),
            g.row_count() == g.nodes().len(),
            adjacency_shape(g.matrix()).0 == g.nodes().len(),
            adjacency_shape(g.matrix()).1 == g.nodes().len(),
    {
        let mut g = LinkGraph::new();
        let mut k: usize = 0;
        while k < edges.len()
            invariant
                g.wf(),
                edges@.len() < usize::MAX / 2,
                k <= edges@.len(),
                g.nodes() == edge_nodes(edge_views(edges@).take(k as int)),
                g.nodes().len() <= 2 * k,
                g.links_map() == Map::<(Seq<char>, Seq<char>), u64>::empty(),
                g.dirty_set() == Set::<Seq<char>>::empty(),
                g.row_count() == 0,
                adjacency_shape(g.matrix()) == (0usize, 0usize),
            decreases edges@.len() - k,
        {
            let ghost t = edge_views(edges@).take(k + 1);
            assert(t.drop_last() =~= edge_views(edges@).take(k as int));
            g.register_node(edges[k].0.clone());
            g.register_node(edges[k].1.clone());
            k += 1;
        }
        assert(edge_views(edges@).take(k as int) =~= edge_views(edges@));
        let n = g.idx_to_id.len();
        proof {
            g.lemma_wf();
        }
        g.adjacency = Adjacency::zero(n, n);
        proof {
            lemma_edge_nodes_contains(edge_views(edges@));
        }
        assert(g.links_map() =~= Map::<(Seq<char>, Seq<char>), u64>::empty());
        let mut k: usize = 0;
        while k < edges.len()
            invariant
                g.wf(),
                n == g.nodes().len(),
                g.nodes() == edge_nodes(edge_views(edges@)),
                k <= edges@.len(),
                g.links_map() == edge_links(edge_views(edges@).take(k as int)),
                g.dirty_set() == Set::<Seq<char>>::empty(),
                g.row_count() == n,
                adjacency_shape(g.matrix()).1 == n,
                forall|a: int| 0 <= a < edges@.len() ==> #[trigger] g.nodes().contains(edge_views(edges@)[a].0) && g.nodes().contains(edge_views(edges@)[a].1),
            decreases edges@.len() - k,
        {
            assert(edge_views(edges@)[k as int].0 == edges@[k as int].0@);
            assert(g.nodes().contains(edge_views(edges@)[k as int].0));
            let i = g.index_of(&edges[k].0).unwrap();
            let j = g.index_of(&edges[k].1).unwrap();
            proof {
                g.lemma_wf();
                assert(edge_views(edges@).take(k + 1).drop_last() =~= edge_views(edges@).take(k as int));
            }
            g.set_edge(i, j, edges[k].2);
            k += 1;
        }
        assert(edge_views(edges@).take(k as int) =~= edge_views(edges@));
        proof {
            let ev = edge_views(edges@);
            lemma_edge_links(ev);
            assert forall|i: int| 0 <= i < ev.len() implies lone_edge(ev, i) by {
                assert forall|j: int| 0 <= j < ev.len() && j != i implies edge_pair(#[trigger] ev[j]) != edge_pair(ev[i]) by {
                    assert(edge_pairs(ev)[j] == edge_pair(ev[j]));
                    assert(edge_pairs(ev)[i] == edge_pair(ev[i]));
                }
            }
        }
        g
    }

    /// The identifiers whose outgoing links changed since the last flush, by
    /// node number.
    pub fn dirty_ids(&self) -> (r: Vec<ID>)
        requires
            self.wf(),
        ensures
            id_views(r@).no_duplicates(),
            id_views(r@).to_set() == self.dirty_set(),
    {
        let mut r: Vec<ID> = Vec::new();
        let mut i: usize = 0;
        let ghost ns = self.nodes();
        proof {
            self.lemma_wf();
        }
        while i < self.idx_to_id.len()
            invariant
                self.wf(),
                ns == self.nodes(),
                ns.no_duplicates(),
                i <= ns.len(),
                id_views(r@).no_duplicates(),
                forall|x: Seq<char>| #[trigger] id_views(r@).contains(x) <==> (ns.take(i as int).contains(x) && self.dirty_ids@.contains(x)),
            decreases ns.len() - i,
        {
            let ghost before = id_views(r@);
            let is_dirty = self.dirty_ids.contains(self.idx_to_id[i].0.as_str());
            if is_dirty {
                r.push(self.idx_to_id[i].clone());
            }
            proof {
                let after = id_views(r@);
                let t1 = ns.take(i + 1);
                let t0 = ns.take(i as int);
                let y = ns[i as int];
                assert(t1 =~= t0.push(y));
                assert(!t0.contains(y)) by {
                    if t0.contains(y) {
                        let k = choose|k: int| 0 <= k < t0.len() && #[trigger] t0[k] == y;
                        assert(ns[k] == y);
                    }
                }
                assert forall|x: Seq<char>| #[trigger] t1.contains(x) <==> (t0.contains(x) || x == y) by {
                    if t1.contains(x) {
                        let k = choose|k: int| 0 <= k < t1.len() && #[trigger] t1[k] == x;
                        if k < i {
                            assert(t0[k] == x);
                        }
                    }
                    if t0.contains(x) {
                        let k = choose|k: int| 0 <= k < t0.len() && #[trigger] t0[k] == x;
                        assert(t1[k] == x);
                    }
                    if x == y {
                        assert(t1[i as int] == x);
                    }
                }
                if is_dirty {
                    assert(after =~= before.push(y));
                    assert(!before.contains(y));
                    assert forall|x: Seq<char>| #[trigger] after.contains(x) <==> (before.contains(x) || x == y) by {
                        if after.contains(x) {
                            let k = choose|k: int| 0 <= k < after.len() && #[trigger] after[k] == x;
                            if k < before.len() {
                                assert(before[k] == x);
                            }
                        }
                        if before.contains(x) {
                            let k = choose|k: int| 0 <= k < before.len() && #[trigger] before[k] == x;
                            assert(after[k] == x);
                        }
                        if x == y {
                            assert(after[before.len() as int] == x);
                        }
                    }
                    assert forall|a: int, b: int| 0 <= a < after.len() && 0 <= b < after.len() && a != b implies after[a] != after[b] by {
                        if a < before.len() && b < before.len() {
                            assert(after[a] == before[a] && after[b] == before[b]);
                        } else if a < before.len() {
                            assert(before.contains(after[a]));
                        } else {
                            assert(before.contains(after[b]));
                        }
                    }
                } else {
                    assert(after =~= before);
                }
            }
            i += 1;
        }
        proof {
            assert(ns.take(i as int) =~= ns);
            assert forall|x: Seq<char>| id_views(r@).to_set().contains(x) <==> self.dirty_set().contains(x) by {
                if self.dirty_ids@.contains(x) {
                    assert(ns.to_set().contains(x));
                }
            }
            assert(id_views(r@).to_set() =~= self.dirty_set());
        }
        r
    }

    /// The links out of the dirty nodes, as `(source, destination, weight)`
    /// rows: the rows to write when flushing the graph.
    pub fn dirty_links(&self) -> (r: Vec<(ID, ID, u64)>)
        requires
            self.wf(),
        ensures
            forall|a: int| 0 <= a < r@.len() ==> {
                &&& self.dirty_set().contains(#[trigger] r@[a].0@)
                &&& self.links_map().contains_key((r@[a].0@, r@[a].1@))
                &&& self.links_map()[(r@[a].0@, r@[a].1@)] == r@[a].2
            },
            forall|s: Seq<char>, d: Seq<char>|
                #[trigger] self.links_map().contains_key((s, d)) && self.dirty_set().contains(s) ==> exists|a: int|
                    0 <= a < r@.len() && r@[a].0@ == s && r@[a].1@ == d,
    {
        let ids = self.dirty_ids();
        let ghost iv = id_views(ids@);
        let mut r: Vec<(ID, ID, u64)> = Vec::new();
        let mut k: usize = 0;
        while k < ids.len()
            invariant
                self.wf(),
                iv == id_views(ids@),
                iv.to_set() == self.dirty_set(),
                k <= ids@.len(),
                forall|a: int| 0 <= a < r@.len() ==> {
                    &&& self.dirty_set().contains(#[trigger] r@[a].0@)
                    &&& self.links_map().contains_key((r@[a].0@, r@[a].1@))
                    &&& self.links_map()[(r@[a].0@, r@[a].1@)] == r@[a].2
                },
                forall|s: Seq<char>, d: Seq<char>|
                    #[trigger] self.links_map().contains_key((s, d)) && iv.take(k as int).contains(s) ==> exists|a: int|
                        0 <= a < r@.len() && r@[a].0@ == s && r@[a].1@ == d,
            decreases ids@.len() - k,
        {
            let src = &ids[k];
            let ghost sv = src@;
            proof {
                assert(iv[k as int] == sv);
                assert(iv.to_set().contains(sv));
                self.lemma_wf();
            }
            let ghost r0 = r@;
            match self.links(src) {
                Some(v) => {
                    let mut b: usize = 0;
                    while b < v.len()
                        invariant
                            self.wf(),
                            self.dirty_set().contains(sv),
                            src@ == sv,
                            b <= v@.len(),
                            r@.len() == r0.len() + b,
                            forall|a: int| 0 <= a < r0.len() ==> #[trigger] r@[a] == r0[a],
                            forall|a: int| 0 <= a < v@.len() ==> self.links_map().contains_key((sv, #[trigger] v@[a].0@))
                                && self.links_map()[(sv, v@[a].0@)] == v@[a].1,
                            forall|a: int| 0 <= a < b ==> r@[r0.len() + a].0@ == sv && #[trigger] r@[r0.len() + a].1@ == v@[a].0@
                                && r@[r0.len() + a].2 == v@[a].1,
                            forall|a: int| 0 <= a < r@.len() ==> {
                                &&& self.dirty_set().contains(#[trigger] r@[a].0@)
                                &&& self.links_map().contains_key((r@[a].0@, r@[a].1@))
                                &&& self.links_map()[(r@[a].0@, r@[a].1@)] == r@[a].2
                            },
                        decreases v@.len() - b,
                    {
                        let (dest, w) = v[b];
                        let ghost rb = r@;
                        let row = (src.clone(), dest.clone(), w);
                        assert(row.0@ == sv && row.1@ == v@[b as int].0@ && row.2 == v@[b as int].1);
                        r.push(row);
                        proof {
                            assert(r@ == rb.push(row));
                            assert forall|a: int| 0 <= a < r@.len() implies {
                                &&& self.dirty_set().contains(#[trigger] r@[a].0@)
                                &&& self.links_map().contains_key((r@[a].0@, r@[a].1@))
                                &&& self.links_map()[(r@[a].0@, r@[a].1@)] == r@[a].2
                            } by {
                                if a < rb.len() {
                                    assert(r@[a] == rb[a]);
                                }
                            }
                            assert forall|a: int| 0 <= a < b + 1 implies r@[r0.len() + a].0@ == sv && #[trigger] r@[r0.len() + a].1@ == v@[a].0@
                                && r@[r0.len() + a].2 == v@[a].1 by {
                                if a < b {
                                    assert(r@[r0.len() + a] == rb[r0.len() + a]);
                                }
                            }
                        }
                        b += 1;
                    }
                    proof {
                        assert forall|s: Seq<char>, d: Seq<char>|
                            #[trigger] self.links_map().contains_key((s, d)) && iv.take(k + 1).contains(s) implies exists|a: int|
                                0 <= a < r@.len() && r@[a].0@ == s && r@[a].1@ == d by {
                            let t1 = iv.take(k + 1);
                            let x = choose|x: int| 0 <= x < t1.len() && t1[x] == s;
                            if x < k {
                                assert(iv.take(k as int)[x] == s);
                                let a = choose|a: int| 0 <= a < r0.len() && r0[a].0@ == s && r0[a].1@ == d;
                                assert(r@[a] == r0[a]);
                            } else {
                                assert(s == sv);
                                let c = choose|c: int| 0 <= c < v@.len() && v@[c].0@ == d;
                                assert(r@[r0.len() + c].1@ == v@[c].0@);
                            }
                        }
                    }
                },
                None => {
                    proof {
                        assert forall|s: Seq<char>, d: Seq<char>|
                            #[trigger] self.links_map().contains_key((s, d)) && iv.take(k + 1).contains(s) implies exists|a: int|
                                0 <= a < r@.len() && r@[a].0@ == s && r@[a].1@ == d by {
                            let t1 = iv.take(k + 1);
                            let x = choose|x: int| 0 <= x < t1.len() && t1[x] == s;
                            if x < k {
                                assert(iv.take(k as int)[x] == s);
                            } else {
                                assert(s == sv);
                                self.lemma_links_backlinks(s, d);
                            }
                        }
                    }
                },
            }
            k += 1;
        }
        proof {
            assert(iv.take(k as int) =~= iv);
            assert forall|s: Seq<char>, d: Seq<char>|
                #[trigger] self.links_map().contains_key((s, d)) && self.dirty_set().contains(s) implies exists|a: int|
                    0 <= a < r@.len() && r@[a].0@ == s && r@[a].1@ == d by {
                assert(iv.to_set().contains(s));
            }
        }
        r
    }

    /// Forget which nodes are dirty (after their links were written out).
    pub fn clear_dirty(&mut self)
        requires
            old(self).wf(),
        ensures
            final(self).wf(),
            final(self).nodes() == old(self).nodes(),
            final(self).links_map() == old(self).links_map(),
            final(self).dirty_set() == Set::<Seq<char>>::empty(),
    {
        self.dirty_ids = StringHashSet::new();
    }

    /// The transposed adjacency matrix: row `i` lists the links into node `i`.
    pub fn transpose(&self) -> (t: Adjacency)
        requires
            self.wf(),
        ensures
            adjacency_shape(t) == (adjacency_shape(self.matrix()).1, adjacency_shape(self.matrix()).0),
            forall|i: usize, j: usize|
                #[trigger] adjacency_entries(t).contains_key((i, j)) == self.edges().contains_key((j, i)),
            forall|i: usize, j: usize|
                #[trigger] adjacency_entries(t).contains_key((i, j)) ==> adjacency_entries(t)[(i, j)]
                    == self.edges()[(j, i)],
    {
        self.adjacency.transposed()
    }
}

} // verus!
