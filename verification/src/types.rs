//! Notes, their identifiers, the note store with its change tracking, and
//! feeds: ordered views of the store.
use crate::org_file::{lemma_injection_onto, seq_hits};
use crate::props::string_views;
use vstd::hash_map::StringHashMap;
use vstd::hash_set::StringHashSet;
use vstd::prelude::*;

verus! {

broadcast use vstd::string::group_string_axioms;

/// The identifier of a note.
#[derive(Debug, Hash)]
pub struct ID(pub String);

impl View for ID {
    type V = Seq<char>;

    open spec fn view(&self) -> Seq<char> {
        self.0@
    }
}

impl Clone for ID {
    fn clone(&self) -> (r: Self)
        ensures
            r == *self,
    {
        ID(self.0.clone())
    }
}

impl PartialEq for ID {
    fn eq(&self, other: &Self) -> (r: bool) {
        self.0 == other.0
    }
}

impl vstd::std_specs::cmp::PartialEqSpecImpl for ID {
    open spec fn obeys_eq_spec() -> bool {
        true
    }

    open spec fn eq_spec(&self, other: &Self) -> bool {
        self.0@ == other.0@
    }
}

impl Eq for ID {}

impl From<String> for ID {
    fn from(s: String) -> (r: Self) {
        ID(s)
    }
}

impl vstd::std_specs::convert::FromSpecImpl<String> for ID {
    open spec fn obeys_from_spec() -> bool {
        true
    }

    open spec fn from_spec(s: String) -> Self {
        ID(s)
    }
}

impl Default for ID {
    fn default() -> (r: Self)
        ensures
            r@ == Seq::<char>::empty(),
    {
        ID(String::new())
    }
}

impl ID {
    /// An identifier with the characters of `s`.
    pub fn new(s: &str) -> (r: Self)
        ensures
            r@ == s@,
    {
        ID(String::from_str(s))
    }

    /// The identifier's text.
    pub fn as_str(&self) -> (r: &str)
        ensures
            r@ == self@,
    {
        self.0.as_str()
    }

    /// The identifier's text, as an owned string (how an ID is displayed).
    pub fn to_string(&self) -> (r: String)
        ensures
            r@ == self@,
    {
        self.0.clone()
    }
}

/// The views of a list of identifiers.
pub open spec fn id_views(ids: Seq<ID>) -> Seq<Seq<char>> {
    Seq::new(ids.len(), |i: int| ids[i]@)
}

/// An ordered view into a note store: just identifiers, to be looked up in
/// the store when shown.
pub struct Feed(pub Vec<ID>);

impl Feed {
    /// The items `offset..offset + count` of the feed, cut off at its end.
    pub fn page(&self, offset: usize, count: usize) -> (r: &[ID])
        ensures
            r@ == self.0@.subrange(
                if offset <= self.0@.len() { offset as int } else { self.0@.len() as int },
                if offset + count <= self.0@.len() { offset + count } else { self.0@.len() as int },
            ),
    {
        let n = self.0.len();
        let start = if offset <= n { offset } else { n };
        let end = if offset <= n && count <= n - offset { offset + count } else { n };
        let s = self.0.as_slice();
        &s[start..end]
    }

    /// Number of items in the feed.
    pub fn len(&self) -> (n: usize)
        ensures
            n == self.0@.len(),
    {
        self.0.len()
    }
}

/// A point in time: whole seconds since the Unix epoch (UTC) and the
/// nanoseconds past that second.
#[derive(Clone, Copy, PartialEq, Eq, Structural, Debug)]
pub struct Timestamp {
    pub secs: i64,
    pub nanos: u32,
}

/// `a` is no later than `b`.
pub open spec fn ts_le(a: Timestamp, b: Timestamp) -> bool {
    a.secs < b.secs || (a.secs == b.secs && a.nanos <= b.nanos)
}

/// A note and the review state kept for it. `stability` and `score` hold the
/// bit patterns of the floating-point values (as `f64::to_bits` gives them).
#[derive(Clone, Debug)]
pub struct Note {
    pub id: ID,
    pub file: Option<String>,
    pub mtimes: Vec<Timestamp>,
    pub stability: u64,
    pub score: u64,
}

/// Bit pattern of the floating-point 1.0.
pub const ONE_BITS: u64 = 0x3ff0_0000_0000_0000;

impl Default for Note {
    fn default() -> (n: Self)
        ensures
            n.id@ == Seq::<char>::empty(),
            n.file is None,
            n.mtimes@ == Seq::<Timestamp>::empty(),
            n.stability == ONE_BITS,
            n.score == 0,
    {
        Note { id: ID(String::new()), file: None, mtimes: Vec::new(), stability: ONE_BITS, score: 0 }
    }
}

/// A batch of notes to load, keyed by identifier; a later entry for an
/// identifier replaces an earlier one.
pub type NoteMap = Vec<(ID, Note)>;

/// The notes a batch denotes.
pub open spec fn pairs_map(ps: Seq<(ID, Note)>) -> Map<Seq<char>, Note>
    decreases ps.len(),
{
    if ps.len() == 0 {
        Map::empty()
    } else {
        pairs_map(ps.drop_last()).insert(ps.last().0@, ps.last().1)
    }
}

/// The identifiers a batch names.
pub open spec fn pairs_keys(ps: Seq<(ID, Note)>) -> Set<Seq<char>> {
    Set::new(|k: Seq<char>| exists|i: int| 0 <= i < ps.len() && ps[i].0@ == k)
}

/// Filtering a list without repeats keeps no repeats and exactly the
/// elements that pass.
pub proof fn lemma_filter_facts(s: Seq<Seq<char>>, p: spec_fn(Seq<char>) -> bool)
    requires
        s.no_duplicates(),
    ensures
        s.filter(p).no_duplicates(),
        forall|x: Seq<char>| s.filter(p).contains(x) <==> s.contains(x) && p(x),
    decreases s.len(),
{
    reveal(Seq::filter);
    if s.len() > 0 {
        let t = s.drop_last();
        assert(t.no_duplicates()) by {
            assert forall|i: int, j: int| 0 <= i < t.len() && 0 <= j < t.len() && i != j implies t[i] != t[j] by {
                assert(t[i] == s[i] && t[j] == s[j]);
            }
        }
        lemma_filter_facts(t, p);
        let f = t.filter(p);
        assert(!t.contains(s.last())) by {
            if t.contains(s.last()) {
                let i = choose|i: int| 0 <= i < t.len() && t[i] == s.last();
                assert(s[i] == s[s.len() - 1]);
            }
        }
        assert forall|x: Seq<char>| s.filter(p).contains(x) <==> s.contains(x) && p(x) by {
            if s.contains(x) && x != s.last() {
                let i = choose|i: int| 0 <= i < s.len() && s[i] == x;
                assert(t[i] == x);
            }
            if t.contains(x) {
                let i = choose|i: int| 0 <= i < t.len() && t[i] == x;
                assert(s[i] == x);
            }
            if p(s.last()) {
                let g = f.push(s.last());
                if g.contains(x) {
                    let i = choose|i: int| 0 <= i < g.len() && g[i] == x;
                    if i < f.len() {
                        assert(f[i] == x);
                    }
                }
                if f.contains(x) {
                    let i = choose|i: int| 0 <= i < f.len() && f[i] == x;
                    assert(g[i] == x);
                }
                if x == s.last() {
                    assert(g[f.len() as int] == x);
                }
            }
        }
        if p(s.last()) {
            let g = f.push(s.last());
            assert forall|i: int, j: int| 0 <= i < g.len() && 0 <= j < g.len() && i != j implies g[i] != g[j] by {
                if i < f.len() && j < f.len() {
                    assert(g[i] == f[i] && g[j] == f[j]);
                } else if i < f.len() {
                    assert(f.contains(g[i]));
                } else {
                    assert(f.contains(g[j]));
                }
            }
        }
    }
}

/// Notes keyed by identifier, with change tracking: the store remembers which
/// notes were written since the flags were last cleared.
pub struct NoteStore {
    keys: Vec<String>,
    slots: Vec<Note>,
    index: StringHashMap<usize>,
    dirty: StringHashSet,
}

impl NoteStore {
    /// The store's internal bookkeeping is consistent.
    pub closed spec fn wf(&self) -> bool {
        &&& self.keys@.len() == self.slots@.len()
        &&& string_views(self.keys@).no_duplicates()
        &&& self.index@.dom() == string_views(self.keys@).to_set()
        &&& forall|i: int| 0 <= i < self.keys@.len() ==> #[trigger] self.index@[self.keys@[i]@] == i
        &&& self.dirty@.subset_of(self.index@.dom())
    }

    /// The notes, by identifier.
    pub closed spec fn note_map(&self) -> Map<Seq<char>, Note> {
        Map::new(
            |k: Seq<char>| self.index@.contains_key(k),
            |k: Seq<char>| self.slots@[self.index@[k] as int],
        )
    }

    /// The identifiers of the notes written since the flags were last cleared.
    pub closed spec fn dirty_set(&self) -> Set<Seq<char>> {
        self.dirty@
    }

    /// The identifiers in the order they were first stored.
    pub closed spec fn key_order(&self) -> Seq<Seq<char>> {
        string_views(self.keys@)
    }

    /// The dirty identifiers in the order they were first stored.
    pub closed spec fn dirty_order(&self) -> Seq<Seq<char>> {
        string_views(self.keys@).filter(|k: Seq<char>| self.dirty@.contains(k))
    }

    /// Facts that hold of every consistent store: every dirty identifier
    /// names a stored note, and the key order lists each stored identifier once.
    pub proof fn lemma_wf(&self)
        requires
            self.wf(),
        ensures
            self.dirty_set().subset_of(self.note_map().dom()),
            self.key_order().no_duplicates(),
            self.key_order().to_set() == self.note_map().dom(),
            self.note_map().dom().finite(),
            self.note_map().len() == self.key_order().len(),
            self.dirty_set().finite(),
            self.dirty_order().no_duplicates(),
            self.dirty_order().to_set() == self.dirty_set(),
            self.dirty_order().len() == self.dirty_set().len(),
    {
        let ks = string_views(self.keys@);
        assert(self.note_map().dom() =~= self.index@.dom());
        ks.unique_seq_to_set();
        let ds = self.dirty_order();
        let pred = |k: Seq<char>| self.dirty@.contains(k);
        assert(ds == ks.filter(pred));
        lemma_filter_facts(ks, pred);
        assert forall|k: Seq<char>| ds.to_set().contains(k) <==> self.dirty@.contains(k) by {
            if self.dirty@.contains(k) {
                assert(ks.to_set().contains(k));
            }
        }
        assert(ds.to_set() =~= self.dirty@);
        ds.unique_seq_to_set();
        vstd::set_lib::lemma_len_subset(self.dirty@, self.index@.dom());
    }

    /// An empty store.
    pub fn new() -> (s: Self)
        ensures
            s.wf(),
            s.note_map() == Map::<Seq<char>, Note>::empty(),
            s.dirty_set() == Set::<Seq<char>>::empty(),
    {
        let s = NoteStore {
            keys: Vec::new(),
            slots: Vec::new(),
            index: StringHashMap::new(),
            dirty: StringHashSet::new(),
        };
        assert(string_views(s.keys@).to_set() =~= Set::<Seq<char>>::empty());
        assert(s.note_map() =~= Map::<Seq<char>, Note>::empty());
        s
    }

    /// Store `note` under `key`, replacing what was there; the dirty flags are
    /// not touched.
    fn put(&mut self, key: String, note: Note)
        requires
            old(self).wf(),
        ensures
            final(self).wf(),
            final(self).note_map() == old(self).note_map().insert(key@, note),
            final(self).dirty_set() == old(self).dirty_set(),
    {
        let ghost ks = string_views(self.keys@);
        match self.index.get(key.as_str()) {
            Some(i) => {
                let i = *i;
                assert(ks.to_set().contains(key@));
                let ghost j = choose|j: int| 0 <= j < ks.len() && ks[j] == key@;
                assert(self.index@[self.keys@[j]@] == j);
                self.slots.set(i, note);
                assert(self.note_map() =~= old(self).note_map().insert(key@, note));
            },
            None => {
                let n = self.keys.len();
                let k2 = key.clone();
                self.keys.push(key);
                self.slots.push(note);
                self.index.insert(k2, n);
                proof {
                    let nks = string_views(self.keys@);
                    assert(nks =~= ks.push(key@));
                    assert(!ks.contains(key@));
                    assert(nks.no_duplicates());
                    assert forall|x: Seq<char>| nks.to_set().contains(x) <==> ks.to_set().insert(key@).contains(x) by {
                        if nks.to_set().contains(x) {
                            let j = choose|j: int| 0 <= j < nks.len() && nks[j] == x;
                            if j < ks.len() {
                                assert(ks[j] == x);
                            }
                        }
                        if ks.to_set().contains(x) {
                            let j = choose|j: int| 0 <= j < ks.len() && ks[j] == x;
                            assert(nks[j] == x);
                        }
                        if x == key@ {
                            assert(nks[ks.len() as int] == x);
                        }
                    }
                    assert(nks.to_set() =~= ks.to_set().insert(key@));
                    assert forall|i: int| 0 <= i < self.keys@.len() implies #[trigger] self.index@[self.keys@[i]@] == i by {
                        if i < n {
                            assert(self.keys@[i]@ == ks[i]);
                            assert(ks[i] != key@);
                        }
                    }
                    assert forall|k: Seq<char>| self.index@.contains_key(k) implies self.note_map()[k] == old(self).note_map().insert(key@, note)[k] by {
                        if k != key@ {
                            assert(ks.to_set().contains(k));
                            let j = choose|j: int| 0 <= j < ks.len() && ks[j] == k;
                            assert(old(self).index@[old(self).keys@[j]@] == j);
                        }
                    }
                    assert(self.note_map() =~= old(self).note_map().insert(key@, note));
                }
            },
        }
    }

    /// A store holding the batch `notes`; no note is dirty.
    pub fn from_notes(notes: NoteMap) -> (s: Self)
        ensures
            s.wf(),
            s.note_map() == pairs_map(notes@),
            s.dirty_set() == Set::<Seq<char>>::empty(),
    {
        let mut s = NoteStore::new();
        let mut notes = notes;
        let ghost all = notes@;
        let mut rest: Vec<(ID, Note)> = Vec::new();
        // Move the batch out back to front, then store it front to back.
        while notes.len() > 0
            invariant
                all == notes@ + rest@.reverse(),
            decreases notes@.len(),
        {
            let e = notes.pop().unwrap();
            proof {
                assert(notes@ + rest@.push(e).reverse() =~= all);
            }
            rest.push(e);
        }
        assert(rest@.reverse() =~= all);
        let ghost mut done: Seq<(ID, Note)> = Seq::empty();
        while rest.len() > 0
            invariant
                s.wf(),
                all == done + rest@.reverse(),
                s.note_map() == pairs_map(done),
                s.dirty_set() == Set::<Seq<char>>::empty(),
            decreases rest@.len(),
        {
            let (id, note) = rest.pop().unwrap();
            let ghost e = (id, note);
            s.put(id.0, note);
            proof {
                let nd = done.push(e);
                assert(nd.drop_last() =~= done);
                assert(nd + rest@.reverse() =~= all);
                done = nd;
            }
        }
        assert(done =~= all);
        s
    }

    /// Add a batch of notes, replacing stored notes with the same identifier,
    /// and mark every identifier of the batch dirty.
    pub fn upsert_from_notes(&mut self, notes: NoteMap)
        requires
            old(self).wf(),
        ensures
            final(self).wf(),
            final(self).note_map() == old(self).note_map().union_prefer_right(pairs_map(notes@)),
            final(self).dirty_set() == old(self).dirty_set().union(pairs_keys(notes@)),
    {
        let mut i: usize = 0;
        let n = notes.len();
        let mut notes = notes;
        let ghost all = notes@;
        let mut rest: Vec<(ID, Note)> = Vec::new();
        while notes.len() > 0
            invariant
                all == notes@ + rest@.reverse(),
            decreases notes@.len(),
        {
            let e = notes.pop().unwrap();
            proof {
                assert(notes@ + rest@.push(e).reverse() =~= all);
            }
            rest.push(e);
        }
        assert(rest@.reverse() =~= all);
        let ghost mut done: Seq<(ID, Note)> = Seq::empty();
        assert(old(self).note_map().union_prefer_right(pairs_map(done)) =~= old(self).note_map());
        assert(old(self).dirty_set().union(pairs_keys(done)) =~= old(self).dirty_set());
        while rest.len() > 0
            invariant
                self.wf(),
                all == done + rest@.reverse(),
                self.note_map() == old(self).note_map().union_prefer_right(pairs_map(done)),
                self.dirty_set() == old(self).dirty_set().union(pairs_keys(done)),
            decreases rest@.len(),
        {
            let (id, note) = rest.pop().unwrap();
            let ghost e = (id, note);
            let k = id.0.clone();
            self.put(id.0, note);
            assert(self.note_map().contains_key(k@));
            assert(self.index@.contains_key(k@));
            self.dirty.insert(k);
            proof {
                let nd = done.push(e);
                assert(nd.drop_last() =~= done);
                assert(nd + rest@.reverse() =~= all);
                assert(self.note_map() =~= old(self).note_map().union_prefer_right(pairs_map(nd)));
                assert forall|x: Seq<char>| pairs_keys(nd).contains(x) <==> pairs_keys(done).contains(x) || x == e.0@ by {
                    if pairs_keys(nd).contains(x) {
                        let j = choose|j: int| 0 <= j < nd.len() && nd[j].0@ == x;
                        if j < done.len() {
                            assert(done[j] == nd[j]);
                        }
                    }
                    if pairs_keys(done).contains(x) {
                        let j = choose|j: int| 0 <= j < done.len() && done[j].0@ == x;
                        assert(nd[j] == done[j]);
                    }
                    if x == e.0@ {
                        assert(nd[done.len() as int] == e);
                    }
                }
                assert(self.dirty_set() =~= old(self).dirty_set().union(pairs_keys(nd)));
                done = nd;
            }
        }
        assert(done =~= all);
    }

    /// The note stored under `id`, if any.
    pub fn get(&self, id: &ID) -> (r: Option<&Note>)
        requires
            self.wf(),
        ensures
            match r {
                Some(n) => self.note_map().contains_key(id@) && *n == self.note_map()[id@],
                None => !self.note_map().contains_key(id@),
            },
    {
        match self.index.get(id.0.as_str()) {
            Some(i) => {
                let ghost ks = string_views(self.keys@);
                assert(ks.to_set().contains(id@));
                let ghost j = choose|j: int| 0 <= j < ks.len() && ks[j] == id@;
                assert(self.index@[self.keys@[j]@] == j);
                Some(&self.slots[*i])
            },
            None => None,
        }
    }

    /// A mutable reference to the note stored under `id`, if any; a note
    /// handed out this way is marked dirty.
    pub fn get_mut(&mut self, id: &ID) -> (r: Option<&mut Note>)
        requires
            old(self).wf(),
        ensures
            final(self).wf(),
            match r {
                Some(n) => {
                    &&& old(self).note_map().contains_key(id@)
                    &&& *n == old(self).note_map()[id@]
                    &&& final(self).note_map() == old(self).note_map().insert(id@, *final(n))
                    &&& final(self).dirty_set() == old(self).dirty_set().insert(id@)
                    &&& final(self).key_order() == old(self).key_order()
                },
                None => {
                    &&& !old(self).note_map().contains_key(id@)
                    &&& final(self).note_map() == old(self).note_map()
                    &&& final(self).dirty_set() == old(self).dirty_set()
                    &&& final(self).key_order() == old(self).key_order()
                },
            },
    {
        let found = match self.index.get(id.0.as_str()) {
            Some(i) => Some(*i),
            None => None,
        };
        match found {
            Some(i) => {
                let ghost ks = string_views(self.keys@);
                assert(ks.to_set().contains(id@));
                let ghost j = choose|j: int| 0 <= j < ks.len() && ks[j] == id@;
                assert(self.index@[self.keys@[j]@] == j);
                self.dirty.insert(id.0.clone());
                Some(&mut self.slots[i])
            },
            None => None,
        }
    }

    /// Apply `f` to the note stored under `id`, if any, and mark it dirty.
    pub fn update<F: FnOnce(&mut Note)>(&mut self, id: &ID, f: F)
        requires
            old(self).wf(),
            forall|n: &mut Note| f.requires((n,)),
        ensures
            final(self).wf(),
            final(self).key_order() == old(self).key_order(),
            old(self).note_map().contains_key(id@) ==> {
                &&& final(self).note_map().dom() == old(self).note_map().dom()
                &&& final(self).dirty_set() == old(self).dirty_set().insert(id@)
                &&& forall|k: Seq<char>| k != id@ && #[trigger] old(self).note_map().contains_key(k)
                    ==> final(self).note_map()[k] == old(self).note_map()[k]
                &&& exists|n: &mut Note|
                    *n == old(self).note_map()[id@] && f.ensures((n,), ()) && *final(n)
                        == final(self).note_map()[id@]
            },
            !old(self).note_map().contains_key(id@) ==> {
                &&& final(self).note_map() == old(self).note_map()
                &&& final(self).dirty_set() == old(self).dirty_set()
            },
    {
        match self.get_mut(id) {
            Some(n) => f(n),
            None => {},
        }
    }

    /// Store `note` under its identifier, replacing what was there, and mark
    /// it dirty.
    pub fn insert(&mut self, note: Note)
        requires
            old(self).wf(),
        ensures
            final(self).wf(),
            final(self).note_map() == old(self).note_map().insert(note.id@, note),
            final(self).dirty_set() == old(self).dirty_set().insert(note.id@),
    {
        let k = note.id.0.clone();
        let k2 = note.id.0.clone();
        self.put(k, note);
        assert(self.note_map().contains_key(k2@));
        assert(self.index@.contains_key(k2@));
        self.dirty.insert(k2);
    }

    /// The identifiers of the dirty notes, in the order the notes were first
    /// stored.
    pub fn dirty_ids(&self) -> (r: Vec<ID>)
        requires
            self.wf(),
        ensures
            id_views(r@) == self.dirty_order(),
    {
        let mut r: Vec<ID> = Vec::new();
        let mut i: usize = 0;
        let ghost ks = string_views(self.keys@);
        let ghost pred = |k: Seq<char>| self.dirty@.contains(k);
        while i < self.keys.len()
            invariant
                self.wf(),
                ks == string_views(self.keys@),
                pred == (|k: Seq<char>| self.dirty@.contains(k)),
                i <= self.keys@.len(),
                id_views(r@) == ks.take(i as int).filter(pred),
            decreases self.keys@.len() - i,
        {
            proof {
                assert(ks.take(i + 1).drop_last() =~= ks.take(i as int));
                reveal_with_fuel(Seq::filter, 1);
            }
            if self.dirty.contains(self.keys[i].as_str()) {
                r.push(ID(self.keys[i].clone()));
                assert(id_views(r@) =~= ks.take(i + 1).filter(pred));
            } else {
                assert(id_views(r@) =~= ks.take(i + 1).filter(pred));
            }
            i += 1;
        }
        assert(ks.take(i as int) =~= ks);
        r
    }

    /// The dirty notes, in the order they were first stored.
    pub fn dirty_notes(&self) -> (r: Vec<&Note>)
        requires
            self.wf(),
        ensures
            r@.len() == self.dirty_order().len(),
            forall|i: int| 0 <= i < r@.len() ==> *#[trigger] r@[i] == self.note_map()[self.dirty_order()[i]],
    {
        let ids = self.dirty_ids();
        proof {
            self.lemma_wf();
        }
        let mut r: Vec<&Note> = Vec::new();
        let mut i: usize = 0;
        while i < ids.len()
            invariant
                self.wf(),
                id_views(ids@) == self.dirty_order(),
                self.dirty_order().to_set() == self.dirty_set(),
                self.dirty_set().subset_of(self.note_map().dom()),
                i <= ids@.len(),
                r@.len() == i,
                forall|j: int| 0 <= j < i ==> *#[trigger] r@[j] == self.note_map()[self.dirty_order()[j]],
            decreases ids@.len() - i,
        {
            assert(self.dirty_order().to_set().contains(self.dirty_order()[i as int]));
            assert(id_views(ids@)[i as int] == ids@[i as int]@);
            let n = self.get(&ids[i]).unwrap();
            r.push(n);
            i += 1;
        }
        r
    }

    /// Number of dirty notes.
    pub fn dirty_count(&self) -> (n: usize)
        requires
            self.wf(),
        ensures
            n == self.dirty_set().len(),
    {
        self.dirty.len()
    }

    /// Forget which notes are dirty (after they were written out).
    pub fn clear_dirty(&mut self)
        requires
            old(self).wf(),
        ensures
            final(self).wf(),
            final(self).note_map() == old(self).note_map(),
            final(self).key_order() == old(self).key_order(),
            final(self).dirty_set() == Set::<Seq<char>>::empty(),
    {
        self.dirty.clear();
    }

    /// Whether the note `id` is dirty.
    pub fn is_dirty(&self, id: &ID) -> (b: bool)
        requires
            self.wf(),
        ensures
            b == self.dirty_set().contains(id@),
    {
        self.dirty.contains(id.0.as_str())
    }

    /// Number of notes.
    pub fn len(&self) -> (n: usize)
        requires
            self.wf(),
        ensures
            n == self.note_map().len(),
    {
        proof {
            self.lemma_wf();
        }
        self.keys.len()
    }

    /// Whether the store holds no notes.
    pub fn is_empty(&self) -> (b: bool)
        requires
            self.wf(),
        ensures
            b == (self.note_map().len() == 0),
    {
        self.len() == 0
    }

    /// The identifiers of all notes, in the order they were first stored.
    pub fn ids(&self) -> (r: Vec<ID>)
        requires
            self.wf(),
        ensures
            id_views(r@) == self.key_order(),
    {
        let mut r: Vec<ID> = Vec::new();
        let mut i: usize = 0;
        while i < self.keys.len()
            invariant
                i <= self.keys@.len(),
                r@.len() == i,
                forall|j: int| 0 <= j < i ==> #[trigger] r@[j]@ == self.keys@[j]@,
            decreases self.keys@.len() - i,
        {
            r.push(ID(self.keys[i].clone()));
            i += 1;
        }
        assert(id_views(r@) =~= string_views(self.keys@));
        r
    }
}

/// How a feed is ordered.
#[derive(Clone, Copy, PartialEq, Eq, Structural, Debug)]
pub enum SortOrder {
    /// Ascending by score: the notes most due for review first.
    ByScore,
    /// Most recently edited first.
    ByRecent,
}

impl Default for SortOrder {
    fn default() -> (r: Self)
        ensures
            r == SortOrder::ByScore,
    {
        SortOrder::ByScore
    }
}

impl SortOrder {
    /// The order's name, as it is written on the command line.
    pub fn label(&self) -> (r: String)
        ensures
            r@ == match self {
                SortOrder::ByScore => "by-score"@,
                SortOrder::ByRecent => "by-recent"@,
            },
    {
        match self {
            SortOrder::ByScore => String::from_str("by-score"),
            SortOrder::ByRecent => String::from_str("by-recent"),
        }
    }
}

/// What a feed request asks for: the order, how many notes, and how many to
/// skip.
#[derive(Clone, Debug)]
pub struct FeedRequest {
    pub sort: SortOrder,
    pub count: usize,
    pub offset: usize,
}

impl Default for FeedRequest {
    fn default() -> (r: Self)
        ensures
            r.sort == SortOrder::ByScore,
            r.count == 20,
            r.offset == 0,
    {
        FeedRequest { sort: SortOrder::ByScore, count: 20, offset: 0 }
    }
}

/// The rank of a score bit pattern: ranks compare as `f64::partial_cmp`
/// compares scores that are not NaN (`-0.0` ranks with `0.0`); a NaN ranks
/// above every number when its sign bit is clear, below when it is set.
pub open spec fn score_rank(bits: u64) -> u64 {
    if bits == 0x8000_0000_0000_0000 {
        0x8000_0000_0000_0000
    } else if bits > 0x8000_0000_0000_0000 {
        !bits
    } else {
        bits | 0x8000_0000_0000_0000
    }
}

/// The time of the last edit of a note, if it has one.
pub open spec fn last_mtime(n: Note) -> Option<Timestamp> {
    if n.mtimes@.len() == 0 {
        None
    } else {
        Some(n.mtimes@.last())
    }
}

/// `a` is no later than `b`, no time counting as earliest.
pub open spec fn opt_ts_le(a: Option<Timestamp>, b: Option<Timestamp>) -> bool {
    match a {
        None => true,
        Some(x) => match b {
            None => false,
            Some(y) => ts_le(x, y),
        },
    }
}

/// In a feed of order `order`, note `a` may stand before note `b`.
pub open spec fn feed_le(order: SortOrder, a: Note, b: Note) -> bool {
    match order {
        SortOrder::ByScore => score_rank(a.score) <= score_rank(b.score),
        SortOrder::ByRecent => opt_ts_le(last_mtime(b), last_mtime(a)),
    }
}

/// `feed_le` is a total preorder.
pub proof fn lemma_feed_le(order: SortOrder)
    ensures
        forall|a: Note, b: Note| feed_le(order, a, b) || feed_le(order, b, a),
        forall|a: Note, b: Note, c: Note|
            #![trigger feed_le(order, a, b), feed_le(order, b, c)]
            feed_le(order, a, b) && feed_le(order, b, c) ==> feed_le(order, a, c),
{
}

/// A by-score feed is ascending in the scores' floating-point values, read
/// off their bit patterns: of two non-negative numbers the one with the
/// smaller pattern is smaller; of two negative numbers the one with the
/// larger pattern is smaller; a negative number is smaller than any
/// non-negative one; and `-0.0` ranks with `0.0`. A strictly smaller score
/// stands strictly before (NaNs, which `partial_cmp` leaves unordered, are
/// left out).
pub proof fn lemma_by_score_ascending(a: Note, b: Note)
    ensures
        a.score < b.score && b.score <= 0x7ff0_0000_0000_0000 ==> feed_le(SortOrder::ByScore, a, b)
            && !feed_le(SortOrder::ByScore, b, a),
        0x8000_0000_0000_0000 < b.score && b.score < a.score && a.score <= 0xfff0_0000_0000_0000 ==> feed_le(
            SortOrder::ByScore,
            a,
            b,
        ) && !feed_le(SortOrder::ByScore, b, a),
        0x8000_0000_0000_0000 < a.score && a.score <= 0xfff0_0000_0000_0000 && (b.score
            <= 0x7ff0_0000_0000_0000 || b.score == 0x8000_0000_0000_0000) ==> feed_le(SortOrder::ByScore, a, b)
            && !feed_le(SortOrder::ByScore, b, a),
        (a.score == 0 || a.score == 0x8000_0000_0000_0000) && (b.score == 0 || b.score
            == 0x8000_0000_0000_0000) ==> feed_le(SortOrder::ByScore, a, b) && feed_le(SortOrder::ByScore, b, a),
{
    let x = a.score;
    let y = b.score;
    if x < y && y <= 0x7ff0_0000_0000_0000 {
        assert((x | 0x8000_0000_0000_0000u64) < (y | 0x8000_0000_0000_0000u64)) by (bit_vector)
            requires
                x < y,
                y <= 0x7ff0_0000_0000_0000u64,
        ;
    }
    if 0x8000_0000_0000_0000 < y && y < x && x <= 0xfff0_0000_0000_0000 {
        assert(!x < !y) by (bit_vector)
            requires
                y < x,
        ;
    }
    if 0x8000_0000_0000_0000 < x && x <= 0xfff0_0000_0000_0000 {
        assert(!x < 0x8000_0000_0000_0000u64) by (bit_vector)
            requires
                0x8000_0000_0000_0000u64 < x,
        ;
        assert((y | 0x8000_0000_0000_0000u64) >= 0x8000_0000_0000_0000u64) by (bit_vector);
    }
    assert((0u64 | 0x8000_0000_0000_0000u64) == 0x8000_0000_0000_0000u64) by (bit_vector);
}

/// A by-recent feed puts the note last edited at the later instant first,
/// comparing whole timestamps (seconds, then nanoseconds); a note never
/// edited comes after every edited one.
pub proof fn lemma_by_recent_descending(a: Note, b: Note)
    ensures
        a.mtimes@.len() > 0 && b.mtimes@.len() > 0 ==> (feed_le(SortOrder::ByRecent, a, b) <==> (
        b.mtimes@.last().secs < a.mtimes@.last().secs || (b.mtimes@.last().secs
            == a.mtimes@.last().secs && b.mtimes@.last().nanos <= a.mtimes@.last().nanos))),
        a.mtimes@.len() > 0 && b.mtimes@.len() > 0 && b.mtimes@.last().secs < a.mtimes@.last().secs
            ==> feed_le(SortOrder::ByRecent, a, b) && !feed_le(SortOrder::ByRecent, b, a),
        a.mtimes@.len() > 0 && b.mtimes@.len() == 0 ==> feed_le(SortOrder::ByRecent, a, b) && !feed_le(
            SortOrder::ByRecent,
            b,
            a,
        ),
{
}

/// The rank of a score bit pattern.
pub fn score_rank_of(bits: u64) -> (r: u64)
    ensures
        r == score_rank(bits),
{
    if bits == 0x8000_0000_0000_0000 {
        0x8000_0000_0000_0000
    } else if bits > 0x8000_0000_0000_0000 {
        !bits
    } else {
        bits | 0x8000_0000_0000_0000
    }
}

/// Whether `a` may stand before `b` in a feed of order `order`.
pub fn feed_le_exec(order: SortOrder, a: &Note, b: &Note) -> (r: bool)
    ensures
        r == feed_le(order, *a, *b),
{
    match order {
        SortOrder::ByScore => score_rank_of(a.score) <= score_rank_of(b.score),
        SortOrder::ByRecent => {
            let la = a.mtimes.len();
            let lb = b.mtimes.len();
            if lb == 0 {
                true
            } else if la == 0 {
                false
            } else {
                let x = a.mtimes[la - 1];
                let y = b.mtimes[lb - 1];
                y.secs < x.secs || (y.secs == x.secs && y.nanos <= x.nanos)
            }
        },
    }
}

impl Feed {
    /// A feed of all notes of the store, sorted by `order`; notes that rank
    /// the same keep the order the store lists them in.
    pub fn build(store: &NoteStore, order: &SortOrder) -> (f: Feed)
        requires
            store.wf(),
        ensures
            id_views(f.0@).no_duplicates(),
            id_views(f.0@).to_set() == store.note_map().dom(),
            id_views(f.0@).len() == store.note_map().len(),
            forall|i: int, j: int|
                0 <= i < j < f.0@.len() ==> feed_le(
                    *order,
                    store.note_map()[#[trigger] f.0@[i]@],
                    store.note_map()[#[trigger] f.0@[j]@],
                ),
            forall|i: int, j: int|
                0 <= i < j < f.0@.len() && feed_le(
                    *order,
                    store.note_map()[#[trigger] f.0@[j]@],
                    store.note_map()[#[trigger] f.0@[i]@],
                ) ==> exists|a: int, b: int|
                    0 <= a < b < store.key_order().len() && #[trigger] store.key_order()[a] == f.0@[i]@
                        && #[trigger] store.key_order()[b] == f.0@[j]@,
    {
        let order = *order;
        proof {
            store.lemma_wf();
            lemma_feed_le(order);
        }
        let ids = store.ids();
        let n = ids.len();
        let ghost ks = id_views(ids@);
        let ghost m = store.note_map();
        let mut notes: Vec<&Note> = Vec::new();
        let mut i: usize = 0;
        while i < n
            invariant
                store.wf(),
                n == ids@.len(),
                ks == id_views(ids@),
                ks == store.key_order(),
                m == store.note_map(),
                ks.to_set() == m.dom(),
                i <= n,
                notes@.len() == i,
                forall|j: int| 0 <= j < i ==> *#[trigger] notes@[j] == m[ks[j]],
            decreases n - i,
        {
            assert(ks.to_set().contains(ks[i as int]));
            assert(ks[i as int] == ids@[i as int]@);
            let note = store.get(&ids[i]).unwrap();
            notes.push(note);
            i += 1;
        }
        // Stable insertion sort of positions.
        let mut sorted: Vec<usize> = Vec::new();
        let mut i: usize = 0;
        while i < n
            invariant
                n == notes@.len(),
                i <= n,
                sorted@.len() == i,
                forall|p: int| 0 <= p < sorted@.len() ==> #[trigger] sorted@[p] < i,
                forall|p: int, q: int|
                    0 <= p < sorted@.len() && 0 <= q < sorted@.len() && p != q ==> #[trigger] sorted@[p]
                        != #[trigger] sorted@[q],
                forall|p: int, q: int|
                    0 <= p < q < sorted@.len() ==> feed_le(
                        order,
                        *notes@[#[trigger] sorted@[p] as int],
                        *notes@[#[trigger] sorted@[q] as int],
                    ),
                forall|p: int, q: int|
                    0 <= p < q < sorted@.len() && feed_le(
                        order,
                        *notes@[#[trigger] sorted@[q] as int],
                        *notes@[#[trigger] sorted@[p] as int],
                    ) ==> sorted@[p] < sorted@[q],
            decreases n - i,
        {
            let mut p: usize = 0;
            while p < sorted.len() && feed_le_exec(order, notes[sorted[p]], notes[i])
                invariant
                    n == notes@.len(),
                    i < n,
                    p <= sorted@.len(),
                    forall|q: int| 0 <= q < sorted@.len() ==> #[trigger] sorted@[q] < i,
                    forall|q: int|
                        0 <= q < p ==> feed_le(order, *notes@[#[trigger] sorted@[q] as int], *notes@[i as int]),
                decreases sorted@.len() - p,
            {
                p += 1;
            }
            let ghost old_sorted = sorted@;
            sorted.insert(p, i);
            proof {
                lemma_feed_le(order);
                assert forall|a: int, b: int| 0 <= a < b < sorted@.len() implies feed_le(
                    order,
                    *notes@[#[trigger] sorted@[a] as int],
                    *notes@[#[trigger] sorted@[b] as int],
                ) by {
                    if b < p as int {
                        assert(sorted@[a] == old_sorted[a] && sorted@[b] == old_sorted[b]);
                    } else if b == p as int {
                        assert(sorted@[a] == old_sorted[a]);
                    } else if a == p as int {
                        assert(sorted@[b] == old_sorted[b - 1]);
                        if b - 1 > p as int {
                            assert(feed_le(
                                order,
                                *notes@[old_sorted[p as int] as int],
                                *notes@[old_sorted[b - 1] as int],
                            ));
                        }
                    } else if a < p as int {
                        assert(sorted@[a] == old_sorted[a] && sorted@[b] == old_sorted[b - 1]);
                    } else {
                        assert(sorted@[a] == old_sorted[a - 1] && sorted@[b] == old_sorted[b - 1]);
                    }
                }
                assert forall|a: int, b: int|
                    0 <= a < sorted@.len() && 0 <= b < sorted@.len() && a != b implies #[trigger] sorted@[a]
                    != #[trigger] sorted@[b] by {
                    if a != p as int && b != p as int {
                        let a2 = if a < p as int { a } else { a - 1 };
                        let b2 = if b < p as int { b } else { b - 1 };
                        assert(sorted@[a] == old_sorted[a2] && sorted@[b] == old_sorted[b2]);
                    } else if a == p as int {
                        let b2 = if b < p as int { b } else { b - 1 };
                        assert(sorted@[b] == old_sorted[b2]);
                    } else {
                        let a2 = if a < p as int { a } else { a - 1 };
                        assert(sorted@[a] == old_sorted[a2]);
                    }
                }
                assert forall|q: int| 0 <= q < sorted@.len() implies #[trigger] sorted@[q] < i + 1 by {
                    if q != p as int {
                        let q2 = if q < p as int { q } else { q - 1 };
                        assert(sorted@[q] == old_sorted[q2]);
                    }
                }
                assert forall|a: int, b: int|
                    0 <= a < b < sorted@.len() && feed_le(
                        order,
                        *notes@[#[trigger] sorted@[b] as int],
                        *notes@[#[trigger] sorted@[a] as int],
                    ) implies sorted@[a] < sorted@[b] by {
                    if b < p as int {
                        assert(sorted@[a] == old_sorted[a] && sorted@[b] == old_sorted[b]);
                    } else if b == p as int {
                        assert(sorted@[a] == old_sorted[a]);
                    } else if a == p as int {
                        let e = old_sorted[b - 1];
                        assert(sorted@[b] == e);
                        assert(p < old_sorted.len());
                        assert(!feed_le(order, *notes@[old_sorted[p as int] as int], *notes@[i as int]));
                        if b - 1 > p as int {
                            assert(feed_le(
                                order,
                                *notes@[old_sorted[p as int] as int],
                                *notes@[old_sorted[b - 1] as int],
                            ));
                        }
                        assert(false);
                    } else if a < p as int {
                        assert(sorted@[a] == old_sorted[a] && sorted@[b] == old_sorted[b - 1]);
                    } else {
                        assert(sorted@[a] == old_sorted[a - 1] && sorted@[b] == old_sorted[b - 1]);
                    }
                }
            }
            i += 1;
        }
        let mut out: Vec<ID> = Vec::new();
        let mut p: usize = 0;
        while p < n
            invariant
                n == ids@.len(),
                n == sorted@.len(),
                forall|q: int| 0 <= q < sorted@.len() ==> #[trigger] sorted@[q] < n,
                p <= n,
                out@.len() == p,
                forall|q: int| 0 <= q < p ==> #[trigger] out@[q] == ids@[sorted@[q] as int],
            decreases n - p,
        {
            out.push(ids[sorted[p]].clone());
            p += 1;
        }
        proof {
            lemma_injection_onto(sorted@, n as int);
            let vs = id_views(out@);
            assert forall|a: int, b: int| 0 <= a < vs.len() && 0 <= b < vs.len() && a != b implies vs[a] != vs[b] by {
                assert(vs[a] == ks[sorted@[a] as int]);
                assert(vs[b] == ks[sorted@[b] as int]);
            }
            assert forall|k: Seq<char>| vs.to_set().contains(k) <==> m.dom().contains(k) by {
                if vs.to_set().contains(k) {
                    let a = choose|a: int| 0 <= a < vs.len() && vs[a] == k;
                    assert(vs[a] == ks[sorted@[a] as int]);
                    assert(ks.to_set().contains(ks[sorted@[a] as int]));
                }
                if m.dom().contains(k) {
                    assert(ks.to_set().contains(k));
                    let j = choose|j: int| 0 <= j < ks.len() && ks[j] == k;
                    assert(seq_hits(sorted@, j));
                    let a = choose|a: int| 0 <= a < sorted@.len() && sorted@[a] == j;
                    assert(vs[a] == k);
                }
            }
            assert(vs.to_set() =~= m.dom());
            assert forall|a: int, b: int| 0 <= a < b < out@.len() implies feed_le(
                order,
                m[#[trigger] out@[a]@],
                m[#[trigger] out@[b]@],
            ) by {
                assert(out@[a]@ == ks[sorted@[a] as int]);
                assert(out@[b]@ == ks[sorted@[b] as int]);
            }
            assert forall|a: int, b: int|
                0 <= a < b < out@.len() && feed_le(order, m[#[trigger] out@[b]@], m[#[trigger] out@[a]@])
                implies exists|x: int, y: int|
                0 <= x < y < ks.len() && #[trigger] ks[x] == out@[a]@ && #[trigger] ks[y] == out@[b]@ by {
                assert(out@[a]@ == ks[sorted@[a] as int]);
                assert(out@[b]@ == ks[sorted@[b] as int]);
                assert(sorted@[a] < sorted@[b]);
            }
        }
        Feed(out)
    }
}

} // verus!
