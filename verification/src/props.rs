//! A small string-to-string map, the property table of an org drawer.
use vstd::prelude::*;

verus! {

/// The map that a list of entries denotes: each entry sets its key, later
/// entries override earlier ones.
pub open spec fn entries_map(es: Seq<(String, String)>) -> Map<Seq<char>, Seq<char>>
    decreases es.len(),
{
    if es.len() == 0 {
        Map::empty()
    } else {
        entries_map(es.drop_last()).insert(es.last().0@, es.last().1@)
    }
}

/// The character sequences of a list of strings.
pub open spec fn string_views(v: Seq<String>) -> Seq<Seq<char>> {
    Seq::new(v.len(), |i: int| v[i]@)
}

/// No key occurs twice among the entries.
pub open spec fn keys_distinct(es: Seq<(String, String)>) -> bool {
    forall|i: int, j: int|
        0 <= i < es.len() && 0 <= j < es.len() && i != j ==> #[trigger] es[i].0@ != #[trigger] es[j].0@
}

/// The keys of the entries, in entry order.
pub open spec fn entry_keys(es: Seq<(String, String)>) -> Seq<Seq<char>> {
    Seq::new(es.len(), |i: int| es[i].0@)
}

/// With distinct keys, each entry is what the map holds for its key, and the
/// map holds exactly the entries' keys.
pub proof fn lemma_entries_map(es: Seq<(String, String)>)
    requires
        keys_distinct(es),
    ensures
        forall|i: int| 0 <= i < es.len() ==> #[trigger] entries_map(es).contains_key(es[i].0@)
            && entries_map(es)[es[i].0@] == es[i].1@,
        forall|k: Seq<char>| #[trigger]
            entries_map(es).contains_key(k) ==> exists|i: int| 0 <= i < es.len() && es[i].0@ == k,
        entries_map(es).dom().finite(),
        entries_map(es).dom().len() == es.len(),
    decreases es.len(),
{
    if es.len() > 0 {
        let p = es.drop_last();
        assert forall|i: int, j: int|
            0 <= i < p.len() && 0 <= j < p.len() && i != j implies #[trigger] p[i].0@ != #[trigger] p[j].0@ by {
            assert(p[i] == es[i] && p[j] == es[j]);
        }
        lemma_entries_map(p);
        assert forall|i: int| 0 <= i < es.len() implies #[trigger] entries_map(es).contains_key(es[i].0@)
            && entries_map(es)[es[i].0@] == es[i].1@ by {
            if i < es.len() - 1 {
                assert(p[i] == es[i]);
                assert(es[i].0@ != es.last().0@);
            }
        }
        assert forall|k: Seq<char>| #[trigger] entries_map(es).contains_key(k) implies exists|i: int|
            0 <= i < es.len() && es[i].0@ == k by {
            if k != es.last().0@ {
                let i = choose|i: int| 0 <= i < p.len() && p[i].0@ == k;
                assert(es[i] == p[i]);
            } else {
                assert(es[es.len() - 1].0@ == k);
            }
        }
        assert(!entries_map(p).contains_key(es.last().0@)) by {
            if entries_map(p).contains_key(es.last().0@) {
                let i = choose|i: int| 0 <= i < p.len() && p[i].0@ == es.last().0@;
                assert(es[i] == p[i]);
            }
        }
    }
}

/// Replacing the value of an existing key changes only that key.
pub proof fn lemma_entries_map_update(es: Seq<(String, String)>, i: int, e: (String, String))
    requires
        keys_distinct(es),
        0 <= i < es.len(),
        e.0@ == es[i].0@,
    ensures
        entries_map(es.update(i, e)) == entries_map(es).insert(e.0@, e.1@),
        keys_distinct(es.update(i, e)),
    decreases es.len(),
{
    let u = es.update(i, e);
    assert forall|a: int, b: int|
        0 <= a < u.len() && 0 <= b < u.len() && a != b implies #[trigger] u[a].0@ != #[trigger] u[b].0@ by {
        assert(u[a].0@ == es[a].0@ && u[b].0@ == es[b].0@);
    }
    if i == es.len() - 1 {
        assert(u.drop_last() =~= es.drop_last());
        assert(entries_map(u) =~= entries_map(es).insert(e.0@, e.1@));
    } else {
        let p = es.drop_last();
        assert forall|a: int, b: int|
            0 <= a < p.len() && 0 <= b < p.len() && a != b implies #[trigger] p[a].0@ != #[trigger] p[b].0@ by {
            assert(p[a] == es[a] && p[b] == es[b]);
        }
        lemma_entries_map_update(p, i, e);
        assert(u.drop_last() =~= p.update(i, e));
        assert(es.last().0@ != e.0@);
        assert(entries_map(u) =~= entries_map(es).insert(e.0@, e.1@));
    }
}

/// The map that a list of entries denotes has finitely many keys.
pub proof fn lemma_entries_map_finite(es: Seq<(String, String)>)
    ensures
        entries_map(es).dom().finite(),
    decreases es.len(),
{
    if es.len() > 0 {
        lemma_entries_map_finite(es.drop_last());
    }
}

/// The keys of distinct entries are the map's keys, each once.
pub proof fn lemma_entry_keys(es: Seq<(String, String)>)
    requires
        keys_distinct(es),
    ensures
        entry_keys(es).no_duplicates(),
        entry_keys(es).to_set() == entries_map(es).dom(),
        entry_keys(es).len() == entries_map(es).dom().len(),
        entries_map(es).dom().finite(),
{
    lemma_entries_map(es);
    let ks = entry_keys(es);
    assert forall|k: Seq<char>| ks.to_set().contains(k) <==> entries_map(es).dom().contains(k) by {
        if ks.to_set().contains(k) {
            let i = choose|i: int| 0 <= i < ks.len() && ks[i] == k;
            assert(es[i].0@ == k);
        }
        if entries_map(es).dom().contains(k) {
            let i = choose|i: int| 0 <= i < es.len() && es[i].0@ == k;
            assert(ks[i] == k);
        }
    }
    assert(ks.to_set() =~= entries_map(es).dom());
    assert forall|i: int, j: int| 0 <= i < ks.len() && 0 <= j < ks.len() && i != j implies ks[i] != ks[j] by {
        assert(ks[i] == es[i].0@ && ks[j] == es[j].0@);
    }
}

/// A table of string properties keyed by name; each key occurs once.
pub struct PropertyMap {
    entries: Vec<(String, String)>,
}

impl View for PropertyMap {
    type V = Map<Seq<char>, Seq<char>>;

    closed spec fn view(&self) -> Map<Seq<char>, Seq<char>> {
        entries_map(self.entries@)
    }
}

impl PropertyMap {
    #[verifier::type_invariant]
    closed spec fn inv(self) -> bool {
        keys_distinct(self.entries@)
    }

    /// The keys in the order they were first inserted.
    pub closed spec fn key_seq(self) -> Seq<Seq<char>> {
        entry_keys(self.entries@)
    }

    /// A table has finitely many keys.
    pub proof fn lemma_finite(&self)
        ensures
            self@.dom().finite(),
    {
        lemma_entries_map_finite(self.entries@);
    }

    /// An empty table.
    pub fn new() -> (m: Self)
        ensures
            m@ == Map::<Seq<char>, Seq<char>>::empty(),
            m.key_seq() == Seq::<Seq<char>>::empty(),
    {
        let m = PropertyMap { entries: Vec::new() };
        assert(m.key_seq() =~= Seq::<Seq<char>>::empty());
        m
    }

    /// Position of `key` among the entries.
    fn position(&self, key: &String) -> (r: Option<usize>)
        ensures
            match r {
                Some(i) => i < self.entries@.len() && self.entries@[i as int].0@ == key@,
                None => forall|i: int| 0 <= i < self.entries@.len() ==> self.entries@[i].0@ != key@,
            },
    {
        let mut i: usize = 0;
        while i < self.entries.len()
            invariant
                i <= self.entries@.len(),
                forall|j: int| 0 <= j < i ==> self.entries@[j].0@ != key@,
            decreases self.entries@.len() - i,
        {
            if self.entries[i].0 == *key {
                return Some(i);
            }
            i += 1;
        }
        None
    }

    /// Set `key` to `value`, replacing any value it had. A new key goes after
    /// the others.
    pub fn insert(&mut self, key: String, value: String)
        ensures
            final(self)@ == old(self)@.insert(key@, value@),
            old(self)@.contains_key(key@) ==> final(self).key_seq() == old(self).key_seq(),
            !old(self)@.contains_key(key@) ==> final(self).key_seq() == old(self).key_seq().push(
                key@,
            ),
    {
        proof {
            use_type_invariant(&*self);
            lemma_entries_map(self.entries@);
        }
        let pos = self.position(&key);
        let mut es: Vec<(String, String)> = Vec::new();
        std::mem::swap(&mut es, &mut self.entries);
        let ghost old_es = es@;
        match pos {
            Some(i) => {
                proof {
                    lemma_entries_map_update(old_es, i as int, (key, value));
                }
                es.set(i, (key, value));
                assert(entry_keys(es@) =~= entry_keys(old_es));
            },
            None => {
                assert(!entries_map(old_es).contains_key(key@)) by {
                    if entries_map(old_es).contains_key(key@) {
                        let j = choose|j: int| 0 <= j < old_es.len() && old_es[j].0@ == key@;
                    }
                }
                es.push((key, value));
                assert(es@.drop_last() =~= old_es);
                assert(entry_keys(es@) =~= entry_keys(old_es).push(key@));
                assert(keys_distinct(es@)) by {
                    assert forall|a: int, b: int|
                        0 <= a < es@.len() && 0 <= b < es@.len() && a != b implies #[trigger] es@[a].0@
                        != #[trigger] es@[b].0@ by {
                        if a < old_es.len() && b < old_es.len() {
                            assert(es@[a] == old_es[a] && es@[b] == old_es[b]);
                        } else if a < old_es.len() {
                            assert(es@[a] == old_es[a]);
                        } else {
                            assert(es@[b] == old_es[b]);
                        }
                    }
                }
            },
        }
        self.entries = es;
    }

    /// The value stored for `key`, if any.
    pub fn get(&self, key: &str) -> (r: Option<&String>)
        ensures
            match r {
                Some(v) => self@.contains_key(key@) && v@ == self@[key@],
                None => !self@.contains_key(key@),
            },
    {
        proof {
            use_type_invariant(self);
            lemma_entries_map(self.entries@);
        }
        let k = String::from_str(key);
        match self.position(&k) {
            Some(i) => {
                assert(entries_map(self.entries@).contains_key(self.entries@[i as int].0@));
                Some(&self.entries[i].1)
            },
            None => {
                assert(!self@.contains_key(key@)) by {
                    if self@.contains_key(key@) {
                        let j = choose|j: int|
                            0 <= j < self.entries@.len() && self.entries@[j].0@ == key@;
                    }
                }
                None
            },
        }
    }

    /// Whether `key` has a value.
    pub fn contains_key(&self, key: &str) -> (b: bool)
        ensures
            b == self@.contains_key(key@),
    {
        self.get(key).is_some()
    }

    /// Number of keys.
    pub fn len(&self) -> (n: usize)
        ensures
            n == self@.len(),
            n == self.key_seq().len(),
    {
        proof {
            use_type_invariant(self);
            lemma_entries_map(self.entries@);
        }
        self.entries.len()
    }

    /// Whether the table has no keys.
    pub fn is_empty(&self) -> (b: bool)
        ensures
            b == (self@.len() == 0),
    {
        self.len() == 0
    }

    /// The keys, in the order they were first inserted.
    pub fn keys(&self) -> (r: Vec<String>)
        ensures
            string_views(r@) == self.key_seq(),
            self.key_seq().no_duplicates(),
            self.key_seq().to_set() == self@.dom(),
            self.key_seq().len() == self@.len(),
    {
        proof {
            use_type_invariant(self);
            lemma_entry_keys(self.entries@);
        }
        let mut r: Vec<String> = Vec::new();
        let mut i: usize = 0;
        while i < self.entries.len()
            invariant
                i <= self.entries@.len(),
                r@.len() == i,
                forall|j: int| 0 <= j < i ==> #[trigger] r@[j]@ == self.entries@[j].0@,
            decreases self.entries@.len() - i,
        {
            let c = self.entries[i].0.clone();
            r.push(c);
            i += 1;
        }
        assert(string_views(r@) =~= entry_keys(self.entries@));
        r
    }

    /// The `i`-th key and its value, in key order.
    pub fn entry(&self, i: usize) -> (r: (&String, &String))
        requires
            i < self.key_seq().len(),
        ensures
            r.0@ == self.key_seq()[i as int],
            self@.contains_key(r.0@),
            r.1@ == self@[r.0@],
    {
        proof {
            use_type_invariant(self);
            lemma_entries_map(self.entries@);
        }
        (&self.entries[i].0, &self.entries[i].1)
    }
}

} // verus!
