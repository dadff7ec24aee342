//! Reading and writing the file-level property drawer of an org file.
use crate::props::{string_views, PropertyMap};
use crate::text::{
    chars_of, find_char, find_char_in, has_prefix, lemma_find_char, lines, range_has_prefix,
    string_of_range, strip_cr, to_uppercase, trim, trim_bounds, uppercase_of,
};
use orgize::rowan::ast::AstNode;
use vstd::prelude::*;

verus! {

broadcast use vstd::string::group_string_axioms;

/// The line that opens a drawer.
pub open spec fn drawer_open() -> Seq<char> {
    ":PROPERTIES:"@
}

/// The line that closes a drawer.
pub open spec fn drawer_close() -> Seq<char> {
    ":END:"@
}

/// The `(KEY, value)` that one drawer line sets, if it sets one: a trimmed line
/// of the form `:key: value` that is not the opening or closing line. The key
/// is the trimmed text between the first two colons, upper-cased, and must not
/// be empty; the value is the rest of the line, trimmed.
pub open spec fn line_entry(line: Seq<char>) -> Option<(Seq<char>, Seq<char>)> {
    let t = trim(line);
    if t.len() > 0 && t[0] == ':' && !has_prefix(t, drawer_open()) && !has_prefix(t, drawer_close()) {
        let rest = t.drop_first();
        match find_char(rest, ':') {
            Some(k) => {
                let key = uppercase_of(trim(rest.subrange(0, k)));
                if key.len() > 0 {
                    Some((key, trim(rest.subrange(k + 1, rest.len() as int))))
                } else {
                    None
                }
            },
            None => None,
        }
    } else {
        None
    }
}

/// The properties set by a list of lines, later lines overriding earlier ones.
pub open spec fn props_of_lines(ls: Seq<Seq<char>>) -> Map<Seq<char>, Seq<char>>
    decreases ls.len(),
{
    if ls.len() == 0 {
        Map::empty()
    } else {
        let m = props_of_lines(ls.drop_last());
        match line_entry(ls.last()) {
            Some(kv) => m.insert(kv.0, kv.1),
            None => m,
        }
    }
}

/// The properties a drawer text sets.
pub open spec fn drawer_properties(s: Seq<char>) -> Map<Seq<char>, Seq<char>> {
    props_of_lines(lines(s))
}

/// The entry that the line `cs[lo..hi]` sets, as strings.
fn parse_line(cs: &Vec<char>, lo: usize, hi: usize, open: &Vec<char>, close: &Vec<char>) -> (r:
    Option<(String, String)>)
    requires
        lo <= hi <= cs@.len(),
        open@ == drawer_open(),
        close@ == drawer_close(),
    ensures
        match r {
            Some(kv) => line_entry(cs@.subrange(lo as int, hi as int)) == Some((kv.0@, kv.1@)),
            None => line_entry(cs@.subrange(lo as int, hi as int)) is None,
        },
{
    let ghost line = cs@.subrange(lo as int, hi as int);
    let (a, b) = trim_bounds(cs, lo, hi);
    let ghost t = cs@.subrange(a as int, b as int);
    if !(b > a && cs[a] == ':') {
        return None;
    }
    if range_has_prefix(cs, a, b, open) || range_has_prefix(cs, a, b, close) {
        return None;
    }
    let ghost rest = t.drop_first();
    assert(rest =~= cs@.subrange(a + 1, b as int));
    match find_char_in(cs, a + 1, b, ':') {
        None => None,
        Some(k) => {
            assert(cs@.subrange(a + 1, a + 1 + k) =~= rest.subrange(0, k as int));
            assert(cs@.subrange(a + 2 + k, b as int) =~= rest.subrange(k + 1, rest.len() as int));
            let (ka, kb) = trim_bounds(cs, a + 1, a + 1 + k);
            let raw_key = string_of_range(cs, ka, kb);
            let key = to_uppercase(raw_key.as_str());
            let (va, vb) = trim_bounds(cs, a + 2 + k, b);
            let value = string_of_range(cs, va, vb);
            if key.as_str().is_empty() {
                None
            } else {
                Some((key, value))
            }
        },
    }
}

/// Parse the `:KEY: value` lines of a property drawer into a table. Keys are
/// upper-cased; the `:PROPERTIES:` and `:END:` lines and lines of any other
/// shape are skipped; a later line for a key overrides an earlier one.
pub fn parse_property_drawer(drawer: &str) -> (r: PropertyMap)
    ensures
        r@ == drawer_properties(drawer@),
{
    let cs = chars_of(drawer);
    let open = chars_of(":PROPERTIES:");
    let close = chars_of(":END:");
    let mut props = PropertyMap::new();
    let ghost s = cs@;
    let ghost mut done: Seq<Seq<char>> = Seq::empty();
    let mut pos: usize = 0;
    let n = cs.len();
    assert(s.subrange(0, n as int) =~= s);
    assert(Seq::<Seq<char>>::empty() + lines(s) =~= lines(s));
    while pos < n
        invariant
            n == cs@.len(),
            s == cs@,
            pos <= n,
            lines(s) == done + lines(s.subrange(pos as int, n as int)),
            props@ == props_of_lines(done),
            open@ == drawer_open(),
            close@ == drawer_close(),
        decreases n - pos,
    {
        let ghost sub = s.subrange(pos as int, n as int);
        proof {
            lemma_find_char(sub, '\n');
        }
        let (line_end, next) = match find_char_in(&cs, pos, n, '\n') {
            Some(k) => {
                let e = if k > 0 && cs[pos + k - 1] == '\r' {
                    pos + k - 1
                } else {
                    pos + k
                };
                proof {
                    assert(sub.subrange(0, k as int) =~= s.subrange(pos as int, pos + k));
                    assert(sub.subrange(k + 1, sub.len() as int) =~= s.subrange(pos + k + 1, n as int));
                    assert(strip_cr(sub.subrange(0, k as int)) =~= s.subrange(pos as int, e as int));
                }
                (e, pos + k + 1)
            },
            None => {
                assert(sub =~= s.subrange(pos as int, n as int));
                assert(s.subrange(n as int, n as int) =~= Seq::<char>::empty());
                (n, n)
            },
        };
        let ghost line = s.subrange(pos as int, line_end as int);
        assert(lines(sub) == seq![line] + lines(s.subrange(next as int, n as int)));
        match parse_line(&cs, pos, line_end, &open, &close) {
            Some(kv) => {
                props.insert(kv.0, kv.1);
            },
            None => {},
        }
        proof {
            let nd = done.push(line);
            assert(nd.drop_last() =~= done);
            assert(done + lines(sub) =~= nd + lines(s.subrange(next as int, n as int)));
            done = nd;
        }
        pos = next;
    }
    assert(s.subrange(n as int, n as int) =~= Seq::<char>::empty());
    assert(done + Seq::<Seq<char>>::empty() =~= done);
    props
}

/// Merge `updates` into `existing`; where both set a key, `updates` wins.
pub fn merge_properties(existing: PropertyMap, updates: PropertyMap) -> (r: PropertyMap)
    ensures
        r@ == existing@.union_prefer_right(updates@),
{
    let mut merged = existing;
    let keys = updates.keys();
    let n = updates.len();
    let ghost ks = updates.key_seq();
    let mut i: usize = 0;
    while i < n
        invariant
            n == ks.len(),
            ks == updates.key_seq(),
            ks.no_duplicates(),
            ks.to_set() == updates@.dom(),
            string_views(keys@) == ks,
            i <= n,
            merged@ == existing@.union_prefer_right(updates@.restrict(ks.take(i as int).to_set())),
        decreases n - i,
    {
        let (k, v) = updates.entry(i);
        merged.insert(k.clone(), v.clone());
        proof {
            assert forall|x: Seq<char>|
                ks.take(i + 1).to_set().contains(x) <==> ks.take(i as int).to_set().insert(
                    ks[i as int],
                ).contains(x) by {
                let t1 = ks.take(i + 1);
                let t0 = ks.take(i as int);
                if t1.to_set().contains(x) {
                    let a = choose|a: int| 0 <= a < t1.len() && #[trigger] t1[a] == x;
                    if a < i {
                        assert(t0[a] == x);
                    }
                }
                if t0.to_set().contains(x) {
                    let a = choose|a: int| 0 <= a < t0.len() && #[trigger] t0[a] == x;
                    assert(t1[a] == x);
                }
                if x == ks[i as int] {
                    assert(ks.take(i + 1)[i as int] == x);
                }
            }
            assert(ks.take(i + 1).to_set() =~= ks.take(i as int).to_set().insert(ks[i as int]));
            assert(merged@ =~= existing@.union_prefer_right(
                updates@.restrict(ks.take(i + 1).to_set()),
            ));
        }
        i += 1;
    }
    assert(ks.take(n as int) =~= ks);
    assert(updates@.restrict(ks.to_set()) =~= updates@);
    merged
}

/// Strict lexicographic order on character sequences, by code point: the
/// order of `str`'s `Ord`.
pub open spec fn lex_lt(a: Seq<char>, b: Seq<char>) -> bool
    decreases a.len(),
{
    if a.len() == 0 {
        b.len() > 0
    } else if b.len() == 0 {
        false
    } else if a[0] != b[0] {
        (a[0] as u32) < (b[0] as u32)
    } else {
        lex_lt(a.drop_first(), b.drop_first())
    }
}

/// The key that leads a drawer.
pub open spec fn id_key() -> Seq<char> {
    "ID"@
}

/// Drawer key order: `ID` first, the other keys lexicographically.
pub open spec fn key_before(a: Seq<char>, b: Seq<char>) -> bool {
    if a == id_key() {
        b != id_key()
    } else if b == id_key() {
        false
    } else {
        lex_lt(a, b)
    }
}

pub proof fn lemma_lex_irreflexive(a: Seq<char>)
    ensures
        !lex_lt(a, a),
    decreases a.len(),
{
    if a.len() > 0 {
        lemma_lex_irreflexive(a.drop_first());
    }
}

pub proof fn lemma_lex_total(a: Seq<char>, b: Seq<char>)
    requires
        a != b,
    ensures
        lex_lt(a, b) || lex_lt(b, a),
    decreases a.len(),
{
    if a.len() == 0 || b.len() == 0 {
        if a.len() == 0 && b.len() == 0 {
            assert(a =~= b);
        }
    } else if a[0] != b[0] {
        vstd::utf8::char_u32_cast(a[0], a[0] as u32);
        vstd::utf8::char_u32_cast(b[0], b[0] as u32);
    } else {
        if a.drop_first() == b.drop_first() {
            assert(a =~= seq![a[0]] + a.drop_first());
            assert(b =~= seq![b[0]] + b.drop_first());
        }
        lemma_lex_total(a.drop_first(), b.drop_first());
    }
}

pub proof fn lemma_lex_transitive(a: Seq<char>, b: Seq<char>, c: Seq<char>)
    requires
        lex_lt(a, b),
        lex_lt(b, c),
    ensures
        lex_lt(a, c),
    decreases a.len(),
{
    if a.len() > 0 && b.len() > 0 && c.len() > 0 && a[0] == b[0] && b[0] == c[0] {
        lemma_lex_transitive(a.drop_first(), b.drop_first(), c.drop_first());
    }
}

pub proof fn lemma_lex_asymmetric(a: Seq<char>, b: Seq<char>)
    requires
        lex_lt(a, b),
    ensures
        !lex_lt(b, a),
{
    if lex_lt(b, a) {
        lemma_lex_transitive(a, b, a);
        lemma_lex_irreflexive(a);
    }
}

/// `key_before` is a strict total order.
pub proof fn lemma_key_order()
    ensures
        forall|a: Seq<char>| !key_before(a, a),
        forall|a: Seq<char>, b: Seq<char>|
            a != b ==> key_before(a, b) || key_before(b, a),
        forall|a: Seq<char>, b: Seq<char>, c: Seq<char>|
            #![trigger key_before(a, b), key_before(b, c)]
            key_before(a, b) && key_before(b, c) ==> key_before(a, c),
        forall|a: Seq<char>, b: Seq<char>| key_before(a, b) ==> !key_before(b, a),
{
    assert forall|a: Seq<char>| !key_before(a, a) by {
        lemma_lex_irreflexive(a);
    }
    assert forall|a: Seq<char>, b: Seq<char>| a != b implies key_before(a, b) || key_before(b, a) by {
        lemma_lex_total(a, b);
    }
    assert forall|a: Seq<char>, b: Seq<char>, c: Seq<char>|
        key_before(a, b) && key_before(b, c) implies key_before(a, c) by {
        if a != id_key() && b != id_key() && c != id_key() {
            lemma_lex_transitive(a, b, c);
        }
    }
    assert forall|a: Seq<char>, b: Seq<char>| key_before(a, b) implies !key_before(b, a) by {
        if a != id_key() && b != id_key() {
            lemma_lex_asymmetric(a, b);
        }
    }
}

/// `ks` lists the keys of `dom` once each, in drawer key order.
pub open spec fn is_drawer_order(ks: Seq<Seq<char>>, dom: Set<Seq<char>>) -> bool {
    &&& ks.no_duplicates()
    &&& ks.to_set() == dom
    &&& forall|i: int, j: int| 0 <= i < j < ks.len() ==> key_before(#[trigger] ks[i], #[trigger] ks[j])
}

/// Two listings of the same keys in drawer key order are the same listing:
/// the order a drawer's keys are written in is determined by the keys.
pub proof fn lemma_drawer_order_unique(ks1: Seq<Seq<char>>, ks2: Seq<Seq<char>>, dom: Set<Seq<char>>)
    requires
        is_drawer_order(ks1, dom),
        is_drawer_order(ks2, dom),
    ensures
        ks1 == ks2,
    decreases ks1.len(),
{
    lemma_key_order();
    ks1.unique_seq_to_set();
    ks2.unique_seq_to_set();
    if ks1.len() > 0 {
        let a = ks1[0];
        let b = ks2[0];
        assert(ks1.to_set().contains(b));
        assert(ks2.to_set().contains(a));
        if a != b {
            let j1 = choose|j: int| 0 <= j < ks1.len() && ks1[j] == b;
            let j2 = choose|j: int| 0 <= j < ks2.len() && ks2[j] == a;
            assert(j1 > 0);
            assert(j2 > 0);
            assert(key_before(ks1[0], ks1[j1]));
            assert(key_before(ks2[0], ks2[j2]));
        }
        let t1 = ks1.drop_first();
        let t2 = ks2.drop_first();
        let d = dom.remove(a);
        assert forall|x: Seq<char>| t1.to_set().contains(x) <==> d.contains(x) by {
            if t1.to_set().contains(x) {
                let j = choose|j: int| 0 <= j < t1.len() && #[trigger] t1[j] == x;
                assert(ks1[j + 1] == x);
                assert(ks1[0] != ks1[j + 1]);
            }
            if d.contains(x) {
                assert(ks1.to_set().contains(x));
                let j = choose|j: int| 0 <= j < ks1.len() && #[trigger] ks1[j] == x;
                assert(j != 0);
                assert(t1[j - 1] == x);
            }
        }
        assert forall|x: Seq<char>| t2.to_set().contains(x) <==> d.contains(x) by {
            if t2.to_set().contains(x) {
                let j = choose|j: int| 0 <= j < t2.len() && #[trigger] t2[j] == x;
                assert(ks2[j + 1] == x);
                assert(ks2[0] != ks2[j + 1]);
            }
            if d.contains(x) {
                assert(ks2.to_set().contains(x));
                let j = choose|j: int| 0 <= j < ks2.len() && #[trigger] ks2[j] == x;
                assert(j != 0);
                assert(t2[j - 1] == x);
            }
        }
        assert(t1.to_set() =~= d);
        assert(t2.to_set() =~= d);
        assert forall|i: int, j: int| 0 <= i < j < t1.len() implies key_before(#[trigger] t1[i], #[trigger] t1[j]) by {
            assert(t1[i] == ks1[i + 1] && t1[j] == ks1[j + 1]);
        }
        assert forall|i: int, j: int| 0 <= i < j < t2.len() implies key_before(#[trigger] t2[i], #[trigger] t2[j]) by {
            assert(t2[i] == ks2[i + 1] && t2[j] == ks2[j + 1]);
        }
        lemma_drawer_order_unique(t1, t2, d);
        assert(ks1 =~= seq![a] + t1);
        assert(ks2 =~= seq![b] + t2);
    } else {
        assert(ks2.len() == 0) by {
            assert(ks1.to_set().len() == 0);
        }
        assert(ks1 =~= ks2);
    }
}

/// The drawer key order of the keys `dom`.
pub open spec fn drawer_key_order(dom: Set<Seq<char>>) -> Seq<Seq<char>> {
    choose|ks: Seq<Seq<char>>| is_drawer_order(ks, dom)
}

/// The drawer that holds the properties `m`.
pub open spec fn drawer_text(m: Map<Seq<char>, Seq<char>>) -> Seq<char> {
    render_drawer(drawer_key_order(m.dom()), m)
}

/// The property lines of a drawer for keys `ks` and values `m`, each preceded
/// by a line break.
pub open spec fn render_lines(ks: Seq<Seq<char>>, m: Map<Seq<char>, Seq<char>>) -> Seq<char>
    decreases ks.len(),
{
    if ks.len() == 0 {
        Seq::empty()
    } else {
        render_lines(ks.drop_last(), m) + "\n:"@ + ks.last() + ": "@ + m[ks.last()]
    }
}

/// A drawer holding `m` with its keys in the order `ks`.
pub open spec fn render_drawer(ks: Seq<Seq<char>>, m: Map<Seq<char>, Seq<char>>) -> Seq<char> {
    ":PROPERTIES:"@ + render_lines(ks, m) + "\n:END:"@
}

/// Whether `a` comes before `b` in drawer key order.
pub fn key_less(a: &String, b: &String) -> (r: bool)
    ensures
        r == key_before(a@, b@),
{
    let id = String::from_str("ID");
    let a_id = *a == id;
    let b_id = *b == id;
    if a_id {
        return !b_id;
    }
    if b_id {
        return false;
    }
    let x = chars_of(a.as_str());
    let y = chars_of(b.as_str());
    let mut i: usize = 0;
    proof {
        assert(x@.subrange(0, x@.len() as int) =~= x@);
        assert(y@.subrange(0, y@.len() as int) =~= y@);
    }
    while i < x.len() && i < y.len() && x[i] == y[i]
        invariant
            i <= x@.len(),
            i <= y@.len(),
            x@ == a@,
            y@ == b@,
            lex_lt(a@, b@) == lex_lt(x@.subrange(i as int, x@.len() as int), y@.subrange(
                i as int,
                y@.len() as int,
            )),
        decreases x@.len() - i,
    {
        proof {
            let xs = x@.subrange(i as int, x@.len() as int);
            let ys = y@.subrange(i as int, y@.len() as int);
            assert(xs.drop_first() =~= x@.subrange(i + 1, x@.len() as int));
            assert(ys.drop_first() =~= y@.subrange(i + 1, y@.len() as int));
        }
        i += 1;
    }
    if i == x.len() {
        i < y.len()
    } else if i == y.len() {
        false
    } else {
        (x[i] as u32) < (y[i] as u32)
    }
}

/// Render a property table as a drawer: `:PROPERTIES:`, one `:KEY: value`
/// line per key with `ID` first and the rest in lexicographic order, then
/// `:END:`, the lines joined by line breaks.
pub fn format_property_drawer(properties: &PropertyMap) -> (r: String)
    ensures
        r@ == drawer_text(properties@),
        is_drawer_order(drawer_key_order(properties@.dom()), properties@.dom()),
{
    proof {
        lemma_key_order();
    }
    let keys = properties.keys();
    let n = keys.len();
    let ghost ks = properties.key_seq();
    // Insertion sort of key positions into drawer key order.
    let mut order: Vec<usize> = Vec::new();
    let mut i: usize = 0;
    while i < n
        invariant
            n == ks.len(),
            string_views(keys@) == ks,
            ks.no_duplicates(),
            i <= n,
            order@.len() == i,
            forall|p: int| 0 <= p < order@.len() ==> #[trigger] order@[p] < i,
            forall|p: int, q: int|
                0 <= p < order@.len() && 0 <= q < order@.len() && p != q ==> #[trigger] order@[p]
                    != #[trigger] order@[q],
            forall|p: int, q: int|
                0 <= p < q < order@.len() ==> key_before(
                    #[trigger] ks[order@[p] as int],
                    #[trigger] ks[order@[q] as int],
                ),
        decreases n - i,
    {
        let mut p: usize = 0;
        while p < order.len() && !key_less(&keys[i], &keys[order[p]])
            invariant
                n == ks.len(),
                string_views(keys@) == ks,
                i < n,
                p <= order@.len(),
                forall|q: int| 0 <= q < order@.len() ==> #[trigger] order@[q] < i,
                forall|q: int| 0 <= q < p ==> key_before(#[trigger] ks[order@[q] as int], ks[i as int]),
                ks.no_duplicates(),
            decreases order@.len() - p,
        {
            proof {
                lemma_key_order();
                let o = order@[p as int] as int;
                assert(ks[o] != ks[i as int]);
                assert(string_views(keys@)[o] == keys@[o]@);
                assert(string_views(keys@)[i as int] == keys@[i as int]@);
            }
            p += 1;
        }
        proof {
            if p < order@.len() {
                assert(string_views(keys@)[order@[p as int] as int] == keys@[order@[p as int] as int]@);
                assert(string_views(keys@)[i as int] == keys@[i as int]@);
            }
        }
        let ghost old_order = order@;
        order.insert(p, i);
        proof {
            lemma_key_order();
            assert forall|a: int, b: int| 0 <= a < b < order@.len() implies key_before(
                #[trigger] ks[order@[a] as int],
                #[trigger] ks[order@[b] as int],
            ) by {
                if b < p as int {
                    assert(order@[a] == old_order[a] && order@[b] == old_order[b]);
                } else if b == p as int {
                    assert(order@[a] == old_order[a]);
                } else if a == p as int {
                    assert(order@[b] == old_order[b - 1]);
                    if b - 1 > p as int {
                        assert(key_before(ks[old_order[p as int] as int], ks[old_order[b - 1] as int]));
                    }
                } else if a < p as int {
                    assert(order@[a] == old_order[a] && order@[b] == old_order[b - 1]);
                } else {
                    assert(order@[a] == old_order[a - 1] && order@[b] == old_order[b - 1]);
                }
            }
            assert forall|a: int, b: int|
                0 <= a < order@.len() && 0 <= b < order@.len() && a != b implies #[trigger] order@[a]
                != #[trigger] order@[b] by {
                if a != p as int && b != p as int {
                    let a2 = if a < p as int { a } else { a - 1 };
                    let b2 = if b < p as int { b } else { b - 1 };
                    assert(order@[a] == old_order[a2] && order@[b] == old_order[b2]);
                } else if a == p as int {
                    let b2 = if b < p as int { b } else { b - 1 };
                    assert(order@[b] == old_order[b2]);
                } else {
                    let a2 = if a < p as int { a } else { a - 1 };
                    assert(order@[a] == old_order[a2]);
                }
            }
            assert forall|q: int| 0 <= q < order@.len() implies #[trigger] order@[q] < i + 1 by {
                if q != p as int {
                    let q2 = if q < p as int { q } else { q - 1 };
                    assert(order@[q] == old_order[q2]);
                }
            }
        }
        i += 1;
    }
    // The sorted keys are a permutation of all keys.
    let ghost sorted = Seq::new(n as nat, |p: int| ks[order@[p] as int]);
    proof {
        lemma_key_order();
        assert(sorted.no_duplicates()) by {
            assert forall|a: int, b: int| 0 <= a < sorted.len() && 0 <= b < sorted.len() && a != b implies sorted[a] != sorted[b] by {
                assert(order@[a] != order@[b]);
            }
        }
        // Every position appears in `order`: `order` is an injection of n
        // positions below n.
        lemma_injection_onto(order@, n as int);
        assert(sorted.to_set() =~= properties@.dom()) by {
            assert forall|k: Seq<char>| sorted.to_set().contains(k) <==> properties@.dom().contains(k) by {
                if sorted.to_set().contains(k) {
                    let a = choose|a: int| 0 <= a < sorted.len() && sorted[a] == k;
                    assert(ks.to_set().contains(ks[order@[a] as int]));
                }
                if properties@.dom().contains(k) {
                    assert(ks.to_set().contains(k));
                    let j = choose|j: int| 0 <= j < ks.len() && ks[j] == k;
                    assert(seq_hits(order@, j));
                    let a = choose|a: int| 0 <= a < order@.len() && order@[a] == j;
                    assert(sorted[a] == k);
                }
            }
        }
        assert forall|a: int, b: int| 0 <= a < b < sorted.len() implies key_before(#[trigger] sorted[a], #[trigger] sorted[b]) by {}
    }
    let mut r = String::from_str(":PROPERTIES:");
    let mut p: usize = 0;
    while p < n
        invariant
            n == ks.len(),
            n == order@.len(),
            string_views(keys@) == ks,
            forall|q: int| 0 <= q < order@.len() ==> #[trigger] order@[q] < n,
            sorted == Seq::new(n as nat, |q: int| ks[order@[q] as int]),
            p <= n,
            ks.to_set() == properties@.dom(),
            r@ == ":PROPERTIES:"@ + render_lines(sorted.take(p as int), properties@),
        decreases n - p,
    {
        let o = order[p];
        let k = &keys[o];
        assert(string_views(keys@)[o as int] == k@);
        assert(ks.to_set().contains(ks[o as int]));
        let v = properties.get(k.as_str()).unwrap();
        r.append("\n:");
        r.append(k.as_str());
        r.append(": ");
        r.append(v.as_str());
        proof {
            let t = sorted.take(p + 1);
            assert(t.drop_last() =~= sorted.take(p as int));
            assert(t.last() == k@);
        }
        p += 1;
    }
    r.append("\n:END:");
    assert(sorted.take(n as int) =~= sorted);
    assert(is_drawer_order(sorted, properties@.dom()));
    assert(r@ == render_drawer(sorted, properties@));
    proof {
        let chosen = drawer_key_order(properties@.dom());
        lemma_drawer_order_unique(sorted, chosen, properties@.dom());
    }
    r
}

/// Some position of `s` holds `j`.
pub open spec fn seq_hits(s: Seq<usize>, j: int) -> bool {
    exists|a: int| 0 <= a < s.len() && s[a] == j
}

/// An injective list of `n` naturals below `n` hits every one of them.
pub proof fn lemma_injection_onto(s: Seq<usize>, n: int)
    requires
        s.len() == n,
        forall|p: int| 0 <= p < s.len() ==> #[trigger] s[p] < n,
        forall|p: int, q: int| 0 <= p < s.len() && 0 <= q < s.len() && p != q ==> #[trigger] s[p] != #[trigger] s[q],
    ensures
        forall|j: int| 0 <= j < n ==> #[trigger] seq_hits(s, j),
{
    let full = Set::new(|j: int| 0 <= j < n);
    assert(s.no_duplicates()) by {
        assert forall|a: int, b: int| 0 <= a < s.len() && 0 <= b < s.len() && a != b implies s[a] != s[b] by {}
    }
    s.unique_seq_to_set();
    let ints = s.map_values(|x: usize| x as int);
    assert(ints.no_duplicates()) by {
        assert forall|a: int, b: int| 0 <= a < ints.len() && 0 <= b < ints.len() && a != b implies ints[a] != ints[b] by {
            assert(s[a] != s[b]);
        }
    }
    ints.unique_seq_to_set();
    vstd::set_lib::lemma_int_range(0, n);
    assert(ints.to_set().subset_of(full)) by {
        assert forall|x: int| ints.to_set().contains(x) implies full.contains(x) by {
            let a = choose|a: int| 0 <= a < ints.len() && ints[a] == x;
        }
    }
    assert(full =~= vstd::set_lib::set_int_range(0, n));
    vstd::set_lib::lemma_subset_equality(ints.to_set(), full);
    assert forall|j: int| 0 <= j < n implies #[trigger] seq_hits(s, j) by {
        assert(full.contains(j));
        assert(ints.to_set().contains(j));
        let a = choose|a: int| 0 <= a < ints.len() && ints[a] == j;
        assert(s[a] == j);
    }
}

/// What an element of a parsed org document is, as far as drawer placement
/// is concerned.
#[derive(Clone, Copy, PartialEq, Eq, Debug)]
pub enum OrgNodeKind {
    Headline,
    PropertyDrawer,
    Other,
}

/// An element of a parsed org document and the characters it spans,
/// `start..end`, counted in characters of the document text.
#[derive(Clone, Copy, PartialEq, Eq, Debug)]
pub struct OrgNode {
    pub kind: OrgNodeKind,
    pub start: usize,
    pub end: usize,
}

/// The elements that orgize finds in `content`, in document order (a
/// depth-first walk from the document node).
pub uninterp spec fn org_nodes_of(content: Seq<char>) -> Seq<OrgNode>;

/// Calls `orgize::Org::parse` and walks the syntax tree of the document with
/// `descendants`, reporting each node's kind and text range. Claimed: the
/// result depends on the text alone and is named `org_nodes_of` of it, and
/// every range, counted in characters, lies within the text (orgize's syntax
/// tree covers exactly the text it parsed).
#[verifier::external_body]
fn org_nodes(content: &str) -> (r: Vec<OrgNode>)
    ensures
        r@ == org_nodes_of(content@),
        nodes_within(r@, content@.len()),
{
    let chars_before = |b: usize| content[..b].chars().count();
    orgize::Org::parse(content).document().syntax().descendants().map(|n| {
        let range = n.text_range();
        let kind = match n.kind() {
            orgize::SyntaxKind::HEADLINE => OrgNodeKind::Headline,
            orgize::SyntaxKind::PROPERTY_DRAWER => OrgNodeKind::PropertyDrawer,
            _ => OrgNodeKind::Other,
        };
        OrgNode { kind, start: chars_before(range.start().into()), end: chars_before(range.end().into()) }
    }).collect()
}

/// Every element spans a range `start..end` within a text of `len` characters.
pub open spec fn nodes_within(nodes: Seq<OrgNode>, len: nat) -> bool {
    forall|i: int| 0 <= i < nodes.len() ==> (#[trigger] nodes[i]).start <= nodes[i].end && nodes[i].end <= len
}

/// The file-level drawer of elements within a text lies within the text.
pub proof fn lemma_file_drawer_within(nodes: Seq<OrgNode>, len: nat)
    requires
        nodes_within(nodes, len),
    ensures
        first_file_drawer(nodes) matches Some(r) ==> 0 <= r.0 <= r.1 <= len,
    decreases nodes.len(),
{
    if nodes.len() > 0 {
        let t = nodes.drop_first();
        assert forall|i: int| 0 <= i < t.len() implies (#[trigger] t[i]).start <= t[i].end && t[i].end <= len by {
            assert(t[i] == nodes[i + 1]);
        }
        assert(nodes[0].start <= nodes[0].end && nodes[0].end <= len);
        lemma_file_drawer_within(t, len);
    }
}

/// The range of the file-level property drawer: the first drawer met before
/// any headline.
pub open spec fn first_file_drawer(nodes: Seq<OrgNode>) -> Option<(int, int)>
    decreases nodes.len(),
{
    if nodes.len() == 0 {
        None
    } else {
        match nodes[0].kind {
            OrgNodeKind::Headline => None,
            OrgNodeKind::PropertyDrawer => Some((nodes[0].start as int, nodes[0].end as int)),
            OrgNodeKind::Other => first_file_drawer(nodes.drop_first()),
        }
    }
}

/// Why a drawer could not be rewritten.
#[derive(Clone, Copy, PartialEq, Eq, Debug)]
pub enum OrgFileError {
    /// The parser reported a drawer outside the text.
    DrawerOutOfBounds,
}

/// What `update_properties` gives for `content`, whose parsed elements are
/// `nodes`, and a non-empty table of updates.
pub open spec fn updated_text(
    content: Seq<char>,
    nodes: Seq<OrgNode>,
    updates: Map<Seq<char>, Seq<char>>,
) -> Result<Seq<char>, OrgFileError> {
    match first_file_drawer(nodes) {
        Some(range) => {
            let (s, e) = range;
            if 0 <= s <= e <= content.len() {
                let existing = drawer_properties(content.subrange(s, e));
                Ok(content.subrange(0, s) + drawer_text(existing.union_prefer_right(updates))
                    + content.subrange(e, content.len() as int))
            } else {
                Err(OrgFileError::DrawerOutOfBounds)
            }
        },
        None => Ok(drawer_text(updates) + "\n"@ + content),
    }
}

/// Index of the file-level drawer among `nodes`, if there is one.
fn find_file_drawer(nodes: &Vec<OrgNode>) -> (r: Option<usize>)
    ensures
        match r {
            Some(i) => i < nodes@.len() && first_file_drawer(nodes@) == Some(
                (nodes@[i as int].start as int, nodes@[i as int].end as int),
            ),
            None => first_file_drawer(nodes@) is None,
        },
{
    let mut i: usize = 0;
    assert(nodes@.subrange(0, nodes@.len() as int) =~= nodes@);
    while i < nodes.len()
        invariant
            i <= nodes@.len(),
            first_file_drawer(nodes@) == first_file_drawer(nodes@.subrange(i as int, nodes@.len() as int)),
        decreases nodes@.len() - i,
    {
        proof {
            assert(nodes@.subrange(i as int, nodes@.len() as int).drop_first() =~= nodes@.subrange(
                i + 1,
                nodes@.len() as int,
            ));
        }
        match nodes[i].kind {
            OrgNodeKind::Headline => {
                return None;
            },
            OrgNodeKind::PropertyDrawer => {
                return Some(i);
            },
            OrgNodeKind::Other => {},
        }
        i += 1;
    }
    None
}

/// Set properties in the file-level property drawer of an org text. An
/// existing drawer (the first one before any headline) keeps its properties
/// and takes the updates over them; without one, a new drawer holding the
/// updates is put at the start of the text. No updates leave the text as it is.
pub fn update_properties(content: &str, updates: &PropertyMap) -> (r: Result<String, OrgFileError>)
    ensures
        updates@.len() == 0 ==> r is Ok && r->Ok_0@ == content@,
        updates@.len() != 0 ==> (r matches Ok(text) && updated_text(content@, org_nodes_of(content@), updates@)
            == Ok::<Seq<char>, OrgFileError>(text@)),
{
    let nodes = org_nodes(content);
    proof {
        lemma_file_drawer_within(nodes@, content@.len());
    }
    update_properties_with_nodes(content, &nodes, updates)
}

/// The text `content`, whose parsed elements are `nodes`, with its
/// file-level property drawer updated as `update_properties` does; an error
/// when the file-level drawer of `nodes` lies outside the text.
pub fn update_properties_with_nodes(
    content: &str,
    nodes: &Vec<OrgNode>,
    updates: &PropertyMap,
) -> (r: Result<String, OrgFileError>)
    ensures
        updates@.len() == 0 ==> r is Ok && r->Ok_0@ == content@,
        updates@.len() != 0 ==> match r {
            Ok(text) => updated_text(content@, nodes@, updates@) == Ok::<
                Seq<char>,
                OrgFileError,
            >(text@),
            Err(e) => updated_text(content@, nodes@, updates@) == Err::<
                Seq<char>,
                OrgFileError,
            >(e),
        },
{
    if updates.is_empty() {
        return Ok(String::from_str(content));
    }
    match find_file_drawer(nodes) {
        Some(i) => {
            let s = nodes[i].start;
            let e = nodes[i].end;
            let cs = chars_of(content);
            if !(s <= e && e <= cs.len()) {
                return Err(OrgFileError::DrawerOutOfBounds);
            }
            let drawer = string_of_range(&cs, s, e);
            let existing = parse_property_drawer(drawer.as_str());
            let merged = merge_properties(existing, clone_properties(updates));
            let new_drawer = format_property_drawer(&merged);
            let mut result = string_of_range(&cs, 0, s);
            result.append(new_drawer.as_str());
            let tail = string_of_range(&cs, e, cs.len());
            result.append(tail.as_str());
            Ok(result)
        },
        None => {
            let mut result = format_property_drawer(updates);
            result.append("\n");
            result.append(content);
            Ok(result)
        },
    }
}

/// A copy of a property table.
pub fn clone_properties(m: &PropertyMap) -> (r: PropertyMap)
    ensures
        r@ == m@,
{
    let mut r = PropertyMap::new();
    let n = m.len();
    let ghost ks = m.key_seq();
    let mut i: usize = 0;
    while i < n
        invariant
            n == ks.len(),
            ks == m.key_seq(),
            i <= n,
            r@ == m@.restrict(ks.take(i as int).to_set()),
        decreases n - i,
    {
        let (k, v) = m.entry(i);
        r.insert(k.clone(), v.clone());
        proof {
            let t1 = ks.take(i + 1);
            let t0 = ks.take(i as int);
            assert forall|x: Seq<char>| t1.to_set().contains(x) <==> t0.to_set().insert(ks[i as int]).contains(x) by {
                if t1.to_set().contains(x) {
                    let a = choose|a: int| 0 <= a < t1.len() && #[trigger] t1[a] == x;
                    if a < i {
                        assert(t0[a] == x);
                    }
                }
                if t0.to_set().contains(x) {
                    let a = choose|a: int| 0 <= a < t0.len() && #[trigger] t0[a] == x;
                    assert(t1[a] == x);
                }
                if x == ks[i as int] {
                    assert(t1[i as int] == x);
                }
            }
            assert(r@ =~= m@.restrict(t1.to_set()));
        }
        i += 1;
    }
    let _ = m.keys();
    assert(ks.take(n as int) =~= ks);
    assert(m@.restrict(ks.to_set()) =~= m@);
    r
}

} // verus!
