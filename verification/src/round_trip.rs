//! What reading a property drawer gives back of one the library wrote.
use crate::org_file::{
    drawer_close, drawer_key_order, drawer_open, drawer_properties, drawer_text,
    first_file_drawer, is_drawer_order, key_before, lemma_key_order, line_entry, props_of_lines,
    render_drawer, render_lines, updated_text, OrgNode,
};
use crate::text::{
    find_char, has_prefix, is_ws, join_lines, lemma_find_char_at, lemma_join_push,
    lemma_lines_join, lemma_trim_fixed, lemma_trim_space_after, lemma_trim_space_before,
    lemma_trimmed_ends, lines, no_cr_end, trim, trim_end, trim_start, uppercase_of,
};
use crate::props::PropertyMap;
use vstd::prelude::*;

verus! {

/// A key that a drawer line carries unchanged: not empty, already upper
/// case and trimmed, without colons or line breaks, and not `PROPERTIES` or
/// `END`, which would read as the drawer's opening or closing line.
pub open spec fn drawer_key(k: Seq<char>) -> bool {
    &&& k.len() > 0
    &&& trim(k) == k
    &&& uppercase_of(k) == k
    &&& !k.contains(':')
    &&& !k.contains('\n')
    &&& k != "PROPERTIES"@
    &&& k != "END"@
}

/// A value that a drawer line carries unchanged: trimmed, without line
/// breaks.
pub open spec fn drawer_value(v: Seq<char>) -> bool {
    trim(v) == v && !v.contains('\n')
}

/// The drawer line for key `k` and value `v`.
pub open spec fn entry_line(k: Seq<char>, v: Seq<char>) -> Seq<char> {
    seq![':'] + k + seq![':', ' '] + v
}

/// The drawer lines for the keys `ks`, with values from `m`.
pub open spec fn entry_lines(ks: Seq<Seq<char>>, m: Map<Seq<char>, Seq<char>>) -> Seq<Seq<char>> {
    ks.map_values(|k: Seq<char>| entry_line(k, m[k]))
}

proof fn lemma_colon_not_ws()
    ensures
        !is_ws(':'),
        is_ws(' '),
{
}

/// A line `:k:...` starts with `:w:` only when `k` is `w`, for colon-free
/// `k` and `w`.
proof fn lemma_colon_word_prefix(k: Seq<char>, w: Seq<char>, tail: Seq<char>)
    requires
        !k.contains(':'),
        !w.contains(':'),
        has_prefix(seq![':'] + k + seq![':'] + tail, seq![':'] + w + seq![':']),
    ensures
        k == w,
{
    let t = seq![':'] + k + seq![':'] + tail;
    let p = seq![':'] + w + seq![':'];
    assert forall|i: int| 0 <= i < p.len() implies t[i] == p[i] by {
        assert(t.subrange(0, p.len() as int)[i] == p[i]);
    }
    if k.len() < w.len() {
        assert(t[k.len() as int + 1] == ':');
        assert(p[k.len() as int + 1] == w[k.len() as int]);
    } else if k.len() > w.len() {
        assert(p[w.len() as int + 1] == ':');
        assert(t[w.len() as int + 1] == k[w.len() as int]);
    } else {
        assert forall|i: int| 0 <= i < k.len() implies k[i] == w[i] by {
            assert(t[i + 1] == k[i]);
            assert(p[i + 1] == w[i]);
        }
        assert(k =~= w);
    }
}

/// The drawer's opening and closing lines set nothing, and neither holds a
/// line break or ends in a carriage return.
proof fn lemma_open_close()
    ensures
        line_entry(drawer_open()) is None,
        line_entry(drawer_close()) is None,
        !drawer_open().contains('\n'),
        !drawer_close().contains('\n'),
        no_cr_end(drawer_open()),
        drawer_close().len() > 0,
        drawer_open() == seq![':'] + "PROPERTIES"@ + seq![':'],
        drawer_close() == seq![':'] + "END"@ + seq![':'],
        !"PROPERTIES"@.contains(':'),
        !"END"@.contains(':'),
{
    reveal_strlit(":PROPERTIES:");
    reveal_strlit(":END:");
    reveal_strlit("PROPERTIES");
    reveal_strlit("END");
    lemma_colon_not_ws();
    let o = drawer_open();
    let c = drawer_close();
    assert(o =~= seq![':'] + "PROPERTIES"@ + seq![':']);
    assert(c =~= seq![':'] + "END"@ + seq![':']);
    lemma_trim_fixed(o);
    lemma_trim_fixed(c);
    assert(o.subrange(0, o.len() as int) =~= o);
    assert(c.subrange(0, c.len() as int) =~= c);
    assert(has_prefix(o, o));
    assert(has_prefix(c, c));
}

/// A drawer line for a well-formed key and value sets exactly that key to
/// that value.
pub proof fn lemma_line_entry(k: Seq<char>, v: Seq<char>)
    requires
        drawer_key(k),
        drawer_value(v),
    ensures
        line_entry(entry_line(k, v)) == Some((k, v)),
{
    lemma_colon_not_ws();
    lemma_open_close();
    let line = entry_line(k, v);
    let tail = if v.len() == 0 { Seq::<char>::empty() } else { seq![' '] + v };
    let t = seq![':'] + k + seq![':'] + tail;
    if v.len() == 0 {
        let u = seq![':'] + k + seq![':'];
        assert(line =~= u + seq![' ']);
        assert(u[0] == ':' && u.last() == ':');
        lemma_trim_space_after(u);
        assert(t =~= u);
    } else {
        lemma_trimmed_ends(v);
        assert(line.last() == v.last());
        assert(line[0] == ':');
        lemma_trim_fixed(line);
        assert(t =~= line);
    }
    assert(trim(line) == t);
    assert(!has_prefix(t, drawer_open())) by {
        if has_prefix(t, drawer_open()) {
            lemma_colon_word_prefix(k, "PROPERTIES"@, tail);
        }
    }
    assert(!has_prefix(t, drawer_close())) by {
        if has_prefix(t, drawer_close()) {
            lemma_colon_word_prefix(k, "END"@, tail);
        }
    }
    let rest = t.drop_first();
    assert(rest =~= k + seq![':'] + tail);
    assert forall|j: int| 0 <= j < k.len() implies rest[j] != ':' by {
        assert(rest[j] == k[j]);
    }
    lemma_find_char_at(rest, ':', k.len() as int);
    assert(find_char(rest, ':') == Some(k.len() as int));
    assert(rest.subrange(0, k.len() as int) =~= k);
    assert(rest.subrange(k.len() as int + 1, rest.len() as int) =~= tail);
    if v.len() == 0 {
        assert(trim_start(tail) == tail);
        assert(trim_end(tail) == tail);
        assert(v =~= tail);
    } else {
        lemma_trim_space_before(v);
    }
    assert(trim(tail) == v);
}

/// Every element of the key list satisfies the round-trip conditions.
pub open spec fn all_drawer_entries(ks: Seq<Seq<char>>, m: Map<Seq<char>, Seq<char>>) -> bool {
    forall|i: int| 0 <= i < ks.len() ==> drawer_key(#[trigger] ks[i]) && drawer_value(m[ks[i]])
}

/// The opening line and the lines of `ks` set each key of `ks` to its value.
proof fn lemma_props_of_entry_lines(ks: Seq<Seq<char>>, m: Map<Seq<char>, Seq<char>>)
    requires
        all_drawer_entries(ks, m),
    ensures
        props_of_lines(seq![drawer_open()] + entry_lines(ks, m)) == Map::new(
            |k: Seq<char>| ks.contains(k),
            |k: Seq<char>| m[k],
        ),
    decreases ks.len(),
{
    lemma_open_close();
    let ls = seq![drawer_open()] + entry_lines(ks, m);
    if ks.len() == 0 {
        assert(ls =~= seq![drawer_open()]);
        assert(ls.drop_last() =~= Seq::<Seq<char>>::empty());
        assert(props_of_lines(ls) == props_of_lines(ls.drop_last()));
        assert(props_of_lines(Seq::<Seq<char>>::empty()) == Map::<Seq<char>, Seq<char>>::empty());
        assert forall|k: Seq<char>| !ks.contains(k) by {}
        assert(props_of_lines(ls) =~= Map::new(|k: Seq<char>| ks.contains(k), |k: Seq<char>| m[k]));
    } else {
        let ks2 = ks.drop_last();
        assert forall|i: int| 0 <= i < ks2.len() implies drawer_key(#[trigger] ks2[i]) && drawer_value(m[ks2[i]]) by {
            assert(ks2[i] == ks[i]);
        }
        lemma_props_of_entry_lines(ks2, m);
        let k = ks.last();
        assert(drawer_key(ks[ks.len() - 1]));
        lemma_line_entry(k, m[k]);
        assert(ls.drop_last() =~= seq![drawer_open()] + entry_lines(ks2, m));
        assert(ls.last() == entry_line(k, m[k]));
        assert forall|x: Seq<char>| ks.contains(x) <==> ks2.contains(x) || x == k by {
            if ks.contains(x) {
                let i = choose|i: int| 0 <= i < ks.len() && ks[i] == x;
                if i < ks.len() - 1 {
                    assert(ks2[i] == x);
                }
            }
            if ks2.contains(x) {
                let i = choose|i: int| 0 <= i < ks2.len() && ks2[i] == x;
                assert(ks[i] == x);
            }
            if x == k {
                assert(ks[ks.len() - 1] == x);
            }
        }
        assert(props_of_lines(ls) =~= Map::new(|x: Seq<char>| ks.contains(x), |x: Seq<char>| m[x]));
    }
}

/// The opening line and the property lines, joined: what the writer puts
/// before the closing line.
proof fn lemma_render_join(ks: Seq<Seq<char>>, m: Map<Seq<char>, Seq<char>>)
    ensures
        ":PROPERTIES:"@ + render_lines(ks, m) == join_lines(seq![drawer_open()] + entry_lines(ks, m)),
    decreases ks.len(),
{
    reveal_strlit("\n:");
    reveal_strlit(": ");
    let ls = seq![drawer_open()] + entry_lines(ks, m);
    if ks.len() == 0 {
        assert(ls =~= seq![drawer_open()]);
        assert(":PROPERTIES:"@ + render_lines(ks, m) =~= ":PROPERTIES:"@);
    } else {
        let ks2 = ks.drop_last();
        let k = ks.last();
        lemma_render_join(ks2, m);
        let ls2 = seq![drawer_open()] + entry_lines(ks2, m);
        assert(ls =~= ls2.push(entry_line(k, m[k])));
        lemma_join_push(ls2, entry_line(k, m[k]));
        assert("\n:"@ =~= seq!['\n', ':']);
        assert(": "@ =~= seq![':', ' ']);
        assert(":PROPERTIES:"@ + render_lines(ks, m) =~= join_lines(ls2) + seq!['\n'] + entry_line(k, m[k]));
    }
}

/// Every finite set of keys has a listing in drawer key order.
pub proof fn lemma_drawer_order_exists(s: Set<Seq<char>>)
    requires
        s.finite(),
    ensures
        is_drawer_order(drawer_key_order(s), s),
{
    lemma_key_order();
    let leq = |a: Seq<char>, b: Seq<char>| a == b || key_before(a, b);
    assert(vstd::relations::total_ordering(leq)) by {
        assert forall|x: Seq<char>, y: Seq<char>| #[trigger] leq(x, y) && #[trigger] leq(y, x) implies x == y by {}
        assert forall|x: Seq<char>, y: Seq<char>, z: Seq<char>| #[trigger] leq(x, y) && #[trigger] leq(y, z) implies leq(x, z) by {}
        assert forall|x: Seq<char>, y: Seq<char>| #[trigger] leq(x, y) || #[trigger] leq(y, x) by {}
    }
    let q = s.to_seq();
    lemma_to_seq_no_duplicates(s);
    s.lemma_to_seq_to_set_id();
    q.lemma_sort_by_ensures(leq);
    let ks = q.sort_by(leq);
    q.to_multiset_ensures();
    ks.to_multiset_ensures();
    q.lemma_multiset_has_no_duplicates();
    ks.lemma_multiset_has_no_duplicates_conv();
    assert forall|x: Seq<char>| ks.to_set().contains(x) <==> s.contains(x) by {
        assert(ks.contains(x) <==> ks.to_multiset().count(x) > 0);
        assert(q.contains(x) <==> q.to_multiset().count(x) > 0);
        assert(q.to_set().contains(x) <==> q.contains(x));
    }
    assert(ks.to_set() =~= s);
    assert forall|i: int, j: int| 0 <= i < j < ks.len() implies key_before(#[trigger] ks[i], #[trigger] ks[j]) by {
        assert(leq(ks[i], ks[j]));
    }
    assert(is_drawer_order(ks, s));
}

/// Listing a finite set gives each element once.
proof fn lemma_to_seq_no_duplicates(s: Set<Seq<char>>)
    requires
        s.finite(),
    ensures
        s.to_seq().no_duplicates(),
    decreases s.len(),
{
    broadcast use vstd::set::group_set_axioms;
    if s.len() > 0 {
        let x = s.choose();
        let rest = s.remove(x);
        lemma_to_seq_no_duplicates(rest);
        rest.lemma_to_seq_to_set_id();
        let t = rest.to_seq();
        assert(!t.contains(x)) by {
            if t.contains(x) {
                assert(t.to_set().contains(x));
            }
        }
        let q = Seq::<Seq<char>>::empty().push(x) + t;
        assert(s.to_seq() == q);
        assert forall|i: int, j: int| 0 <= i < q.len() && 0 <= j < q.len() && i != j implies q[i] != q[j] by {
            if i == 0 {
                assert(q[j] == t[j - 1]);
            } else if j == 0 {
                assert(q[i] == t[i - 1]);
            } else {
                assert(q[i] == t[i - 1] && q[j] == t[j - 1]);
            }
        }
    }
}

/// Reading the drawer written for a table gives the table back, when every
/// key is non-empty, already upper case and trimmed, without colons or line
/// breaks and not `PROPERTIES` or `END`, and every value is trimmed and
/// without line breaks.
pub proof fn lemma_read_written_drawer(m: Map<Seq<char>, Seq<char>>)
    requires
        m.dom().finite(),
        forall|k: Seq<char>| #[trigger] m.contains_key(k) ==> drawer_key(k) && drawer_value(m[k]),
    ensures
        drawer_properties(drawer_text(m)) == m,
{
    lemma_drawer_order_exists(m.dom());
    lemma_open_close();
    reveal_strlit("\n:END:");
    reveal_strlit(":END:");
    let ks = drawer_key_order(m.dom());
    assert forall|i: int| 0 <= i < ks.len() implies drawer_key(#[trigger] ks[i]) && drawer_value(m[ks[i]]) by {
        assert(ks.to_set().contains(ks[i]));
    }
    let body = seq![drawer_open()] + entry_lines(ks, m);
    let all = body.push(drawer_close());
    lemma_render_join(ks, m);
    lemma_join_push(body, drawer_close());
    assert("\n:END:"@ =~= seq!['\n'] + drawer_close());
    assert(render_drawer(ks, m) =~= join_lines(all));
    assert forall|i: int| 0 <= i < all.len() implies !(#[trigger] all[i]).contains('\n') by {
        if 1 <= i < all.len() - 1 {
            let k = ks[i - 1];
            let l = all[i];
            assert(l == entry_line(k, m[k]));
            assert forall|j: int| 0 <= j < l.len() implies l[j] != '\n' by {
                if 1 <= j < 1 + k.len() {
                    assert(l[j] == k[j - 1]);
                } else if j >= k.len() + 3 {
                    assert(l[j] == m[k][j - k.len() - 3]);
                }
            }
        }
    }
    assert forall|i: int| 0 <= i < all.len() - 1 implies no_cr_end(#[trigger] all[i]) by {
        if i >= 1 {
            let k = ks[i - 1];
            let v = m[k];
            assert(all[i] == entry_line(k, v));
            if v.len() > 0 {
                lemma_trimmed_ends(v);
                assert(entry_line(k, v).last() == v.last());
                assert(is_ws('\r'));
            }
        }
    }
    lemma_lines_join(all);
    assert(lines(drawer_text(m)) == all);
    assert(all.drop_last() =~= body);
    lemma_props_of_entry_lines(ks, m);
    assert(props_of_lines(all) == props_of_lines(body));
    assert forall|k: Seq<char>| ks.contains(k) <==> m.contains_key(k) by {
        assert(ks.to_set().contains(k) <==> ks.contains(k));
    }
    assert(props_of_lines(body) =~= m);
}

/// The properties any list of lines sets are finitely many.
pub proof fn lemma_props_of_lines_finite(ls: Seq<Seq<char>>)
    ensures
        props_of_lines(ls).dom().finite(),
    decreases ls.len(),
{
    if ls.len() > 0 {
        lemma_props_of_lines_finite(ls.drop_last());
    }
}

/// The table an update writes into the file-level drawer of `content`: the
/// drawer's properties with the updates over them, or the updates alone when
/// there is no drawer.
pub open spec fn written_table(
    content: Seq<char>,
    nodes: Seq<OrgNode>,
    updates: Map<Seq<char>, Seq<char>>,
) -> Map<Seq<char>, Seq<char>> {
    match first_file_drawer(nodes) {
        Some(r) => drawer_properties(content.subrange(r.0, r.1)).union_prefer_right(updates),
        None => updates,
    }
}

/// Where the drawer an update writes starts in the new text.
pub open spec fn written_at(nodes: Seq<OrgNode>) -> int {
    match first_file_drawer(nodes) {
        Some(r) => r.0,
        None => 0,
    }
}

/// After an update, the new text holds, where the file's drawer was (or at
/// its start), the drawer of the written table, and reading that drawer
/// gives the written table back: the old properties with the updates over
/// them. This holds when the written table meets the conditions of
/// `lemma_read_written_drawer`.
pub proof fn lemma_updated_drawer_reads_back(
    content: Seq<char>,
    nodes: Seq<OrgNode>,
    updates: Map<Seq<char>, Seq<char>>,
)
    requires
        updates.dom().finite(),
        updated_text(content, nodes, updates) is Ok,
        forall|k: Seq<char>| #[trigger] written_table(content, nodes, updates).contains_key(k)
            ==> drawer_key(k) && drawer_value(written_table(content, nodes, updates)[k]),
    ensures
        ({
            let t = updated_text(content, nodes, updates)->Ok_0;
            let d = drawer_text(written_table(content, nodes, updates));
            let a = written_at(nodes);
            &&& 0 <= a && a + d.len() <= t.len()
            &&& t.subrange(a, a + d.len()) == d
            &&& drawer_properties(t.subrange(a, a + d.len())) == written_table(content, nodes, updates)
        }),
{
    let m = written_table(content, nodes, updates);
    let t = updated_text(content, nodes, updates)->Ok_0;
    let d = drawer_text(m);
    match first_file_drawer(nodes) {
        Some(r) => {
            let old_props = drawer_properties(content.subrange(r.0, r.1));
            lemma_props_of_lines_finite(lines(content.subrange(r.0, r.1)));
            assert(m.dom() =~= old_props.dom().union(updates.dom()));
            vstd::set::axiom_set_union_finite(old_props.dom(), updates.dom());
            assert(t == content.subrange(0, r.0) + d + content.subrange(r.1, content.len() as int));
            assert(t.subrange(r.0, r.0 + d.len()) =~= d);
        },
        None => {
            assert(t == d + "\n"@ + content);
            assert(t.subrange(0, d.len() as int) =~= d);
        },
    }
    lemma_read_written_drawer(m);
}

/// Reading the drawer `format_property_drawer` writes for a property table
/// gives the table back, under the conditions of `lemma_read_written_drawer`.
pub proof fn lemma_read_written_table(p: PropertyMap)
    requires
        forall|k: Seq<char>| #[trigger] p@.contains_key(k) ==> drawer_key(k) && drawer_value(p@[k]),
    ensures
        drawer_properties(drawer_text(p@)) == p@,
{
    p.lemma_finite();
    lemma_read_written_drawer(p@);
}

} // verus!
