//! Reading notes and links out of the rows of an org-roam database: the
//! Emacs Lisp property lists org-roam keeps for each node, the timestamps in
//! them, and the links between nodes.
use crate::props::string_views;
use crate::text::{contains_char, split_char, split_on, strip_char, trim_matches_char};
use crate::graph::{distinct_pairs, lemma_distinct_pairs, occurrences};
use crate::types::{Note, NoteMap, Timestamp, ID, ONE_BITS};
use vstd::hash_map::StringHashMap;
use vstd::prelude::*;

verus! {

broadcast use vstd::string::group_string_axioms;

/// Seconds east of UTC of the zone org-roam timestamps are read in.
pub const ORG_UTC_OFFSET_SECS: i64 = 19800;

/// The format org-roam writes timestamps in.
pub open spec fn date_format() -> Seq<char> {
    "[%Y-%m-%d %a %H:%M]"@
}

/// What `chrono::NaiveDateTime::parse_from_str` gives for a text and a format:
/// the parsed wall-clock time as seconds since the epoch, read as UTC, with its
/// nanoseconds; `None` when the text does not match the format.
pub uninterp spec fn naive_datetime_parse(s: Seq<char>, fmt: Seq<char>) -> Option<(i64, u32)>;

/// Calls `chrono::NaiveDateTime::parse_from_str`, then `and_utc` with
/// `timestamp` and `timestamp_subsec_nanos`. Claimed: the result is named
/// `naive_datetime_parse` of the text and the format, and its seconds lie
/// within 2^48 of the epoch (chrono computes them as a day number held in an
/// `i32`, times 86 400, plus the seconds of the day).
#[verifier::external_body]
fn parse_naive_datetime(s: &str, fmt: &str) -> (r: Option<(i64, u32)>)
    ensures
        r == naive_datetime_parse(s@, fmt@),
        r matches Some(p) ==> -0x1_0000_0000_0000 < p.0 < 0x1_0000_0000_0000,
{
    chrono::NaiveDateTime::parse_from_str(s, fmt).ok().map(
        |t| (t.and_utc().timestamp(), t.and_utc().timestamp_subsec_nanos()),
    )
}

/// The instant an org-roam timestamp denotes, read in the zone
/// `ORG_UTC_OFFSET_SECS` east of UTC; `None` when the text is no timestamp.
pub open spec fn date_of(s: Seq<char>) -> Option<Timestamp> {
    match naive_datetime_parse(s, date_format()) {
        Some(p) => Some(Timestamp { secs: (p.0 - ORG_UTC_OFFSET_SECS) as i64, nanos: p.1 }),
        None => None,
    }
}

/// Parse an org-roam timestamp such as `[2024-03-01 Fri 14:30]`.
pub fn parse_date(d: &str) -> (r: Option<Timestamp>)
    ensures
        r == date_of(d@),
{
    match parse_naive_datetime(d, "[%Y-%m-%d %a %H:%M]") {
        Some((secs, nanos)) => Some(Timestamp { secs: secs - ORG_UTC_OFFSET_SECS, nanos }),
        None => None,
    }
}

/// A property value as read from its Emacs Lisp text: how it prints, and,
/// when it is a proper list, its elements, each as its string contents
/// (`None` for an element that is not a string).
pub struct ElispValue {
    pub text: String,
    pub items: Option<Vec<Option<String>>>,
}

/// An `ElispValue` by characters.
pub type ElispView = (Seq<char>, Option<Seq<Option<Seq<char>>>>);

impl DeepView for ElispValue {
    type V = (Seq<char>, Option<Seq<Option<Seq<char>>>>);

    open spec fn deep_view(&self) -> (Seq<char>, Option<Seq<Option<Seq<char>>>>) {
        (self.text@, self.items.deep_view())
    }
}

/// What `lexpr::parse::from_str_elisp` reads from a text, taken as a proper
/// list of pairs: for each element, `None` when it is no pair, else the
/// printed head and the tail as an `ElispValue`. `None` when the text cannot
/// be read or is not a proper list.
pub uninterp spec fn elisp_alist(text: Seq<char>) -> Option<
    Seq<Option<(Seq<char>, (Seq<char>, Option<Seq<Option<Seq<char>>>>))>>,
>;

/// Calls `lexpr::parse::from_str_elisp`, then `Value::to_vec` on the result;
/// of each element `Value::as_pair`, its head printed by `Display`, its tail
/// printed and, through `to_vec`, its elements by `Value::as_str`. Claimed:
/// the result depends on the text alone and is named `elisp_alist` of it.
#[verifier::external_body]
fn read_elisp_alist(text: &str) -> (r: Option<Vec<Option<(String, ElispValue)>>>)
    ensures
        r.deep_view() == elisp_alist(text@),
{
    lexpr::parse::from_str_elisp(text).ok().and_then(|v| v.to_vec()).map(|xs| {
        xs.iter().map(|x| x.as_pair().map(|(k, v)| (k.to_string(), ElispValue {
            text: v.to_string(),
            items: v.to_vec().map(|ys| ys.iter().map(|y| y.as_str().map(|t| t.to_string())).collect()),
        }))).collect()
    })
}

/// A text without its surrounding double quotes.
pub open spec fn unquote(s: Seq<char>) -> Seq<char> {
    strip_char(s, '"')
}

/// The string elements of a list, unquoted, in order.
pub open spec fn string_items(xs: Seq<Option<Seq<char>>>) -> Seq<Seq<char>>
    decreases xs.len(),
{
    if xs.len() == 0 {
        Seq::empty()
    } else {
        let rest = string_items(xs.drop_last());
        match xs.last() {
            Some(s) => rest.push(unquote(s)),
            None => rest,
        }
    }
}

/// The items a property value lists: the string elements of a list, or the
/// unquoted comma-separated pieces of a text that holds a comma.
pub open spec fn listed_items(v: ElispView) -> Option<Seq<Seq<char>>> {
    match v.1 {
        Some(xs) => Some(string_items(xs)),
        None => {
            if unquote(v.0).contains(',') {
                Some(split_on(unquote(v.0), ',').map_values(|p: Seq<char>| unquote(p)))
            } else {
                None
            }
        },
    }
}

/// Every item is a timestamp.
pub open spec fn all_dates(items: Seq<Seq<char>>) -> bool {
    forall|i: int| 0 <= i < items.len() ==> (#[trigger] date_of(items[i])) is Some
}

/// `parse_date` succeeds exactly when chrono reads the text in org-roam's
/// format, and then gives the instant 5h30 (19 800 seconds) before the
/// wall-clock time read, with its nanoseconds: every time of day is read.
/// (chrono's seconds lie within 2^48 of the epoch, as `parse_naive_datetime`
/// states.)
pub proof fn lemma_parse_date_reads_every_match(s: Seq<char>)
    ensures
        date_of(s) is Some <==> naive_datetime_parse(s, "[%Y-%m-%d %a %H:%M]"@) is Some,
        naive_datetime_parse(s, "[%Y-%m-%d %a %H:%M]"@) matches Some(p) ==> (-0x1_0000_0000_0000 < p.0 ==> (date_of(s) matches Some(t)
            && t.secs + 19800 == p.0 && t.nanos == p.1)),
{
}

/// The string elements of a list, unquoted, are its `Some` elements in
/// order, unquoted.
pub proof fn lemma_string_items(xs: Seq<Option<Seq<char>>>)
    ensures
        string_items(xs) == xs.filter(|o: Option<Seq<char>>| o is Some).map_values(
            |o: Option<Seq<char>>| unquote(o->0),
        ),
    decreases xs.len(),
{
    reveal_with_fuel(Seq::filter, 1);
    if xs.len() > 0 {
        lemma_string_items(xs.drop_last());
        let f = |o: Option<Seq<char>>| o is Some;
        let g = |o: Option<Seq<char>>| unquote(o->0);
        let q = xs.drop_last().filter(f);
        if xs.last() is Some {
            assert(xs.filter(f) == q.push(xs.last()));
            assert(q.push(xs.last()).map_values(g) =~= q.map_values(g).push(g(xs.last())));
        } else {
            assert(xs.filter(f) == q);
        }
    }
}

/// A property whose value is a proper list (printed as `text`, with elements
/// `xs`) reads as a list, never as text: as the list of its string elements,
/// unquoted and in order, when one of them is no timestamp; as the list of
/// their instants, in order, when all of them are timestamps.
pub proof fn lemma_list_value_is_a_list(text: Seq<char>, xs: Seq<Option<Seq<char>>>)
    ensures
        !(property_of((text, Some(xs))) is Text),
        (exists|i: int| 0 <= i < xs.len() && (#[trigger] xs[i]) is Some && date_of(unquote(xs[i]->0)) is None)
            ==> property_of((text, Some(xs))) == PropertyView::StringList(
            xs.filter(|o: Option<Seq<char>>| o is Some).map_values(|o: Option<Seq<char>>| unquote(o->0)),
        ),
        (forall|i: int| 0 <= i < xs.len() && (#[trigger] xs[i]) is Some ==> date_of(unquote(xs[i]->0)) is Some)
            ==> property_of((text, Some(xs))) == PropertyView::DateList(
            xs.filter(|o: Option<Seq<char>>| o is Some).map_values(|o: Option<Seq<char>>| date_of(unquote(o->0))->0),
        ),
{
    broadcast use vstd::seq_lib::group_filter_ensures;
    lemma_string_items(xs);
    let f = |o: Option<Seq<char>>| o is Some;
    let fl = xs.filter(f);
    let items = string_items(xs);
    assert(items == fl.map_values(|o: Option<Seq<char>>| unquote(o->0)));
    if exists|i: int| 0 <= i < xs.len() && (#[trigger] xs[i]) is Some && date_of(unquote(xs[i]->0)) is None {
        let i = choose|i: int| 0 <= i < xs.len() && (#[trigger] xs[i]) is Some && date_of(unquote(xs[i]->0)) is None;
        xs.lemma_filter_contains(f, i);
        let k = choose|k: int| 0 <= k < fl.len() && fl[k] == xs[i];
        assert(items[k] == unquote(xs[i]->0));
        assert(date_of(items[k]) is None);
        assert(!all_dates(items));
    }
    if forall|i: int| 0 <= i < xs.len() && (#[trigger] xs[i]) is Some ==> date_of(unquote(xs[i]->0)) is Some {
        assert forall|k: int| 0 <= k < items.len() implies (#[trigger] date_of(items[k])) is Some by {
            assert(fl.contains(fl[k]));
            xs.lemma_filter_contains_rev(f, fl[k]);
            let i = choose|i: int| 0 <= i < xs.len() && xs[i] == fl[k];
            assert(f(fl[k]));
            assert(items[k] == unquote(fl[k]->0));
        }
        assert(all_dates(items));
        assert(items.map_values(|s: Seq<char>| date_of(s)->0) =~= fl.map_values(
            |o: Option<Seq<char>>| date_of(unquote(o->0))->0,
        ));
    }
}

/// A property value by characters.
pub enum PropertyView {
    Text(Seq<char>),
    StringList(Seq<Seq<char>>),
    DateList(Seq<Timestamp>),
}

/// What a property value is taken for: a list whose items are all timestamps
/// is a list of dates, another list a list of strings; a single value is a
/// one-date list when it is a timestamp, else text.
pub open spec fn property_of(v: ElispView) -> PropertyView {
    match listed_items(v) {
        Some(items) => {
            if all_dates(items) {
                PropertyView::DateList(items.map_values(|s: Seq<char>| date_of(s)->0))
            } else {
                PropertyView::StringList(items)
            }
        },
        None => match date_of(unquote(v.0)) {
            Some(t) => PropertyView::DateList(seq![t]),
            None => PropertyView::Text(unquote(v.0)),
        },
    }
}

/// The value of an org-roam node property.
#[derive(Debug)]
pub enum PropertyValue {
    Text(String),
    StringList(Vec<String>),
    DateList(Vec<Timestamp>),
}

impl View for PropertyValue {
    type V = PropertyView;

    open spec fn view(&self) -> PropertyView {
        match self {
            PropertyValue::Text(s) => PropertyView::Text(s@),
            PropertyValue::StringList(v) => PropertyView::StringList(string_views(v@)),
            PropertyValue::DateList(v) => PropertyView::DateList(v@),
        }
    }
}

/// The unquoted string elements of `xs`.
fn string_elements(xs: &Vec<Option<String>>) -> (r: Vec<String>)
    ensures
        string_views(r@) == string_items(xs.deep_view()),
{
    let mut r: Vec<String> = Vec::new();
    let mut i: usize = 0;
    while i < xs.len()
        invariant
            i <= xs@.len(),
            string_views(r@) == string_items(xs.deep_view().take(i as int)),
        decreases xs@.len() - i,
    {
        let ghost before = string_views(r@);
        proof {
            assert(xs.deep_view().take(i + 1).drop_last() =~= xs.deep_view().take(i as int));
        }
        match &xs[i] {
            Some(s) => {
                r.push(trim_matches_char(s.as_str(), '"'));
                assert(string_views(r@) =~= before.push(unquote(s@)));
            },
            None => {
                assert(string_views(r@) =~= before);
            },
        }
        i += 1;
    }
    assert(xs.deep_view().take(i as int) =~= xs.deep_view());
    r
}

/// Each of `pieces`, unquoted.
fn unquote_all(pieces: &Vec<String>) -> (r: Vec<String>)
    ensures
        string_views(r@) == string_views(pieces@).map_values(|p: Seq<char>| unquote(p)),
{
    let mut r: Vec<String> = Vec::new();
    let mut i: usize = 0;
    while i < pieces.len()
        invariant
            i <= pieces@.len(),
            string_views(r@) == string_views(pieces@).take(i as int).map_values(|p: Seq<char>| unquote(p)),
        decreases pieces@.len() - i,
    {
        let ghost before = string_views(r@);
        let u = trim_matches_char(pieces[i].as_str(), '"');
        r.push(u);
        proof {
            let pv = string_views(pieces@);
            assert(string_views(r@) =~= before.push(u@));
            assert(before.len() == i);
            let want = pv.take(i + 1).map_values(|p: Seq<char>| unquote(p));
            assert forall|j: int| 0 <= j <= i implies #[trigger] string_views(r@)[j] == want[j] by {
                if j < i {
                    assert(before[j] == pv.take(i as int).map_values(|p: Seq<char>| unquote(p))[j]);
                }
            }
            assert(string_views(r@) =~= want);
        }
        i += 1;
    }
    assert(string_views(pieces@).take(i as int) =~= string_views(pieces@));
    r
}

/// The timestamps `items` denote, or `None` when one of them is no timestamp.
fn dates_of(items: &Vec<String>) -> (r: Option<Vec<Timestamp>>)
    ensures
        match r {
            Some(ts) => all_dates(string_views(items@)) && ts@ == string_views(items@).map_values(
                |s: Seq<char>| date_of(s)->0,
            ),
            None => !all_dates(string_views(items@)),
        },
{
    let ghost items_v = string_views(items@);
    let mut ts: Vec<Timestamp> = Vec::new();
    let mut i: usize = 0;
    while i < items.len()
        invariant
            items_v == string_views(items@),
            i <= items@.len(),
            ts@.len() == i,
            forall|j: int| 0 <= j < i ==> #[trigger] date_of(items_v[j]) == Some(ts@[j]),
        decreases items@.len() - i,
    {
        match parse_date(items[i].as_str()) {
            Some(t) => {
                ts.push(t);
            },
            None => {
                assert(date_of(items_v[i as int]) is None);
                return None;
            },
        }
        i += 1;
    }
    assert(ts@ =~= items_v.map_values(|s: Seq<char>| date_of(s)->0)) by {
        assert forall|j: int| 0 <= j < items_v.len() implies ts@[j] == date_of(items_v[j])->0 by {
            assert(date_of(items_v[j]) == Some(ts@[j]));
        }
    }
    Some(ts)
}

impl PropertyValue {
    /// The value a property's Emacs Lisp value is taken for.
    pub fn from_elisp(value: &ElispValue) -> (r: PropertyValue)
        ensures
            r@ == property_of(value.deep_view()),
    {
        let value_string = trim_matches_char(value.text.as_str(), '"');
        let items: Option<Vec<String>> = match &value.items {
            Some(xs) => Some(string_elements(xs)),
            None => {
                if contains_char(value_string.as_str(), ',') {
                    let pieces = split_char(value_string.as_str(), ',');
                    Some(unquote_all(&pieces))
                } else {
                    None
                }
            },
        };
        match items {
            Some(items) => match dates_of(&items) {
                Some(ts) => PropertyValue::DateList(ts),
                None => PropertyValue::StringList(items),
            },
            None => match parse_date(value_string.as_str()) {
                Some(t) => {
                    let mut v: Vec<Timestamp> = Vec::new();
                    v.push(t);
                    assert(v@ =~= seq![t]);
                    PropertyValue::DateList(v)
                },
                None => PropertyValue::Text(value_string),
            },
        }
    }
}

/// The properties an association list gives, by unquoted key; elements that
/// are no pairs are passed over, and a later key replaces an earlier one.
pub open spec fn properties_of(es: Seq<Option<(Seq<char>, ElispView)>>) -> Map<Seq<char>, PropertyView>
    decreases es.len(),
{
    if es.len() == 0 {
        Map::empty()
    } else {
        let m = properties_of(es.drop_last());
        match es.last() {
            Some(e) => m.insert(unquote(e.0), property_of(e.1)),
            None => m,
        }
    }
}

/// The properties of an org-roam node, by key.
pub struct OrgRoamProperties {
    map: StringHashMap<PropertyValue>,
}

impl View for OrgRoamProperties {
    type V = Map<Seq<char>, PropertyView>;

    closed spec fn view(&self) -> Map<Seq<char>, PropertyView> {
        self.map@.map_values(|v: PropertyValue| v@)
    }
}

impl OrgRoamProperties {
    /// The properties an association list read from Emacs Lisp gives.
    pub fn from_alist(es: &Vec<Option<(String, ElispValue)>>) -> (r: Self)
        ensures
            r@ == properties_of(es.deep_view()),
    {
        let mut map: StringHashMap<PropertyValue> = StringHashMap::new();
        let mut i: usize = 0;
        assert(map@.map_values(|v: PropertyValue| v@) =~= properties_of(es.deep_view().take(0)));
        while i < es.len()
            invariant
                i <= es@.len(),
                map@.map_values(|v: PropertyValue| v@) == properties_of(es.deep_view().take(i as int)),
            decreases es@.len() - i,
        {
            let ghost before = map@;
            proof {
                assert(es.deep_view().take(i + 1).drop_last() =~= es.deep_view().take(i as int));
            }
            match &es[i] {
                Some((k, v)) => {
                    let key = trim_matches_char(k.as_str(), '"');
                    let value = PropertyValue::from_elisp(v);
                    map.insert(key, value);
                    proof {
                        assert(es.deep_view()[i as int] == Some((k@, v.deep_view())));
                        assert(map@.map_values(|v: PropertyValue| v@) =~= before.map_values(
                            |v: PropertyValue| v@,
                        ).insert(unquote(k@), property_of(v.deep_view())));
                    }
                },
                None => {},
            }
            i += 1;
        }
        assert(es.deep_view().take(i as int) =~= es.deep_view());
        OrgRoamProperties { map }
    }

    /// The properties in the Emacs Lisp text org-roam keeps for a node;
    /// `None` when the text cannot be read as a list.
    pub fn read(text: &str) -> (r: Option<Self>)
        ensures
            match elisp_alist(text@) {
                Some(es) => r matches Some(p) && p@ == properties_of(es),
                None => r is None,
            },
    {
        match read_elisp_alist(text) {
            Some(es) => Some(OrgRoamProperties::from_alist(&es)),
            None => None,
        }
    }

    /// The value of the property `key`.
    pub fn get(&self, key: &str) -> (r: Option<&PropertyValue>)
        ensures
            match r {
                Some(v) => self@.contains_key(key@) && v@ == self@[key@],
                None => !self@.contains_key(key@),
            },
    {
        self.map.get(key)
    }

    /// The number of properties.
    pub fn len(&self) -> (n: usize)
        ensures
            n == self@.len(),
    {
        proof {
            assert(self.map@.dom() =~= self@.dom());
        }
        self.map.len()
    }
}

/// Why a node's row gives no note.
#[derive(Debug, PartialEq, Eq, Structural)]
pub enum OrgRoamError {
    /// The `MTIME` property is not a list of dates.
    MtimeNotDates,
}

/// The modification times a node's properties give: its `MTIME` dates, none
/// when it has no `MTIME`, and an error when `MTIME` is not a list of dates.
pub open spec fn mtimes_of(props: Map<Seq<char>, PropertyView>) -> Result<Seq<Timestamp>, OrgRoamError> {
    if props.contains_key("MTIME"@) {
        match props["MTIME"@] {
            PropertyView::DateList(ts) => Ok(ts),
            _ => Err(OrgRoamError::MtimeNotDates),
        }
    } else {
        Ok(Seq::empty())
    }
}

/// A fresh note as org-roam gives it: identifier and modification times, no
/// file, stability 1.0 and score 0.0.
pub open spec fn fresh_note(n: Note, id: Seq<char>, mtimes: Seq<Timestamp>) -> bool {
    &&& n.id@ == id
    &&& n.file is None
    &&& n.mtimes@ == mtimes
    &&& n.stability == ONE_BITS
    &&& n.score == 0
}

/// The note for node `id` with the given properties.
pub fn note_from_properties(id: String, props: &OrgRoamProperties) -> (r: Result<Note, OrgRoamError>)
    ensures
        match mtimes_of(props@) {
            Ok(ts) => r matches Ok(n) && fresh_note(n, id@, ts),
            Err(e) => r matches Err(x) && x == e,
        },
{
    let mtimes = match props.get("MTIME") {
        Some(PropertyValue::DateList(ts)) => ts.clone(),
        Some(_) => {
            return Err(OrgRoamError::MtimeNotDates);
        },
        None => Vec::new(),
    };
    Ok(Note { id: ID(id), file: None, mtimes, stability: ONE_BITS, score: 0 })
}

/// What a node's row gives: `None` when its property text cannot be read as
/// a list, else its modification times or the error.
pub open spec fn row_mtimes(properties: Seq<char>) -> Option<Result<Seq<Timestamp>, OrgRoamError>> {
    match elisp_alist(properties) {
        Some(es) => Some(mtimes_of(properties_of(es))),
        None => None,
    }
}

/// The note for node `id` whose properties org-roam keeps as the Emacs Lisp
/// text `properties`; `None` when the text cannot be read as a list.
pub fn note_from_row(id: String, properties: &str) -> (r: Option<Result<Note, OrgRoamError>>)
    ensures
        match row_mtimes(properties@) {
            None => r is None,
            Some(Ok(ts)) => r matches Some(Ok(n)) && fresh_note(n, id@, ts),
            Some(Err(e)) => r matches Some(Err(x)) && x == e,
        },
{
    match OrgRoamProperties::read(properties) {
        Some(props) => Some(note_from_properties(id, &props)),
        None => None,
    }
}

/// The row gives a note.
pub open spec fn row_ok(properties: Seq<char>) -> bool {
    row_mtimes(properties) matches Some(Ok(_))
}

/// The notes of the node rows `(id, properties)`, in row order. The first
/// row that gives no note decides the result: `None` when its properties
/// cannot be read, its error otherwise.
pub fn notes_from_rows(rows: Vec<(String, String)>) -> (r: Option<Result<NoteMap, OrgRoamError>>)
    ensures
        (forall|i: int| 0 <= i < rows@.len() ==> row_ok(#[trigger] rows@[i].1@)) ==> (r matches Some(Ok(ns)) && {
            &&& ns@.len() == rows@.len()
            &&& forall|i: int| 0 <= i < rows@.len() ==> #[trigger] ns@[i].0@ == rows@[i].0@
                && fresh_note(ns@[i].1, rows@[i].0@, row_mtimes(rows@[i].1@)->Some_0->Ok_0)
        }),
        forall|i: int| 0 <= i < rows@.len() && !row_ok(#[trigger] rows@[i].1@)
            && (forall|j: int| 0 <= j < i ==> row_ok(rows@[j].1@)) ==> match row_mtimes(rows@[i].1@) {
                None => r is None,
                Some(Err(e)) => r matches Some(Err(x)) && x == e,
                Some(Ok(_)) => false,
            },
{
    let mut ns: NoteMap = Vec::new();
    let mut i: usize = 0;
    while i < rows.len()
        invariant
            i <= rows@.len(),
            ns@.len() == i,
            forall|j: int| 0 <= j < i ==> row_ok(#[trigger] rows@[j].1@),
            forall|j: int| 0 <= j < i ==> #[trigger] ns@[j].0@ == rows@[j].0@
                && fresh_note(ns@[j].1, rows@[j].0@, row_mtimes(rows@[j].1@)->Some_0->Ok_0),
        decreases rows@.len() - i,
    {
        let id = rows[i].0.clone();
        match note_from_row(id, rows[i].1.as_str()) {
            Some(Ok(n)) => {
                let key = ID(rows[i].0.clone());
                ns.push((key, n));
            },
            Some(Err(e)) => {
                return Some(Err(e));
            },
            None => {
                return None;
            },
        }
        i += 1;
    }
    Some(Ok(ns))
}

/// The `(source, destination)` of the link rows, unquoted.
pub open spec fn link_pairs(links: Seq<(Seq<char>, Seq<char>)>) -> Seq<(Seq<char>, Seq<char>)> {
    links.map_values(|l: (Seq<char>, Seq<char>)| (unquote(l.0), unquote(l.1)))
}

/// The links of the link rows `(source, destination)`, their identifiers
/// unquoted: each distinct link once, in order of first appearance, with the
/// number of rows that give it.
pub fn org_roam_links(links: &Vec<(String, String)>) -> (r: Vec<(ID, ID, usize)>)
    ensures
        r@.len() == distinct_pairs(link_pairs(links.deep_view())).len(),
        forall|i: int| 0 <= i < r@.len() ==> {
            let p = #[trigger] distinct_pairs(link_pairs(links.deep_view()))[i];
            &&& r@[i].0@ == p.0
            &&& r@[i].1@ == p.1
            &&& r@[i].2 == occurrences(link_pairs(links.deep_view()), p)
            &&& r@[i].2 == link_pairs(links.deep_view()).to_multiset().count(p)
        },
{
    let ghost lp = link_pairs(links.deep_view());
    let mut srcs: Vec<String> = Vec::new();
    let mut dests: Vec<String> = Vec::new();
    let mut counts: Vec<usize> = Vec::new();
    let mut i: usize = 0;
    while i < links.len()
        invariant
            lp == link_pairs(links.deep_view()),
            i <= links@.len(),
            srcs@.len() == dests@.len(),
            srcs@.len() == counts@.len(),
            srcs@.len() == distinct_pairs(lp.take(i as int)).len(),
            forall|j: int| 0 <= j < srcs@.len() ==> {
                let p = #[trigger] distinct_pairs(lp.take(i as int))[j];
                &&& srcs@[j]@ == p.0
                &&& dests@[j]@ == p.1
                &&& counts@[j] == occurrences(lp.take(i as int), p)
            },
        decreases links@.len() - i,
    {
        let s = trim_matches_char(links[i].0.as_str(), '"');
        let d = trim_matches_char(links[i].1.as_str(), '"');
        let ghost pre = lp.take(i as int);
        let ghost post = lp.take(i + 1);
        let ghost e = (s@, d@);
        proof {
            assert(links.deep_view()[i as int] == (links@[i as int].0@, links@[i as int].1@));
            assert(lp[i as int] == e);
            assert(post.drop_last() =~= pre);
            assert(post.last() == e);
            lemma_distinct_pairs(pre);
        }
        let ghost dp = distinct_pairs(pre);
        let mut j: usize = 0;
        let mut found = false;
        while j < srcs.len()
            invariant
                dp == distinct_pairs(lp.take(i as int)),
                e == (s@, d@),
                srcs@.len() == dests@.len(),
                srcs@.len() == dp.len(),
                j <= srcs@.len(),
                forall|x: int| 0 <= x < srcs@.len() ==> srcs@[x]@ == (#[trigger] distinct_pairs(lp.take(i as int))[x]).0
                    && dests@[x]@ == distinct_pairs(lp.take(i as int))[x].1,
                !found ==> forall|x: int| 0 <= x < j ==> #[trigger] dp[x] != e,
                found ==> j < srcs@.len() && dp[j as int] == e,
            ensures
                found ==> j < srcs@.len() && dp[j as int] == e,
                !found ==> forall|x: int| 0 <= x < srcs@.len() ==> #[trigger] dp[x] != e,
            decreases srcs@.len() - j + if found { 0int } else { 1int },
        {
            let ghost q = distinct_pairs(lp.take(i as int))[j as int];
            if srcs[j] == s && dests[j] == d {
                assert(q == e);
                found = true;
                break;
            }
            assert(q != e);
            j += 1;
        }
        if found {
            proof {
                assert(dp.contains(e));
                assert(distinct_pairs(post) == dp);
                assert(pre.contains(e));
                assert(occurrences(pre, e) <= pre.len());
            }
            let c = counts[j] + 1;
            counts.set(j, c);
            proof {
                assert forall|x: int| 0 <= x < srcs@.len() implies {
                    let p = #[trigger] distinct_pairs(post)[x];
                    &&& srcs@[x]@ == p.0
                    &&& dests@[x]@ == p.1
                    &&& counts@[x] == occurrences(post, p)
                } by {
                    if x != j {
                        assert(dp[x] != dp[j as int]);
                    }
                }
            }
        } else {
            proof {
                assert(!dp.contains(e)) by {
                    if dp.contains(e) {
                        let x = choose|x: int| 0 <= x < dp.len() && dp[x] == e;
                        assert(dp[x] != e);
                    }
                }
                assert(!pre.contains(e));
                assert(occurrences(pre, e) == 0);
                assert(distinct_pairs(post) == dp.push(e));
            }
            srcs.push(s);
            dests.push(d);
            counts.push(1);
            proof {
                assert forall|x: int| 0 <= x < srcs@.len() implies {
                    let p = #[trigger] distinct_pairs(post)[x];
                    &&& srcs@[x]@ == p.0
                    &&& dests@[x]@ == p.1
                    &&& counts@[x] == occurrences(post, p)
                } by {
                    if x < dp.len() {
                        assert(dp[x] != e) by {
                            assert(dp.contains(dp[x]));
                        }
                    }
                }
            }
        }
        i += 1;
    }
    assert(lp.take(i as int) =~= lp);
    let ghost dp = distinct_pairs(lp);
    let mut r: Vec<(ID, ID, usize)> = Vec::new();
    let mut k: usize = 0;
    while k < srcs.len()
        invariant
            srcs@.len() == dests@.len(),
            srcs@.len() == counts@.len(),
            srcs@.len() == dp.len(),
            dp == distinct_pairs(lp),
            lp == link_pairs(links.deep_view()),
            forall|j: int| 0 <= j < srcs@.len() ==> {
                let p = #[trigger] dp[j];
                &&& srcs@[j]@ == p.0
                &&& dests@[j]@ == p.1
                &&& counts@[j] == occurrences(lp, p)
            },
            k <= srcs@.len(),
            r@.len() == k,
            forall|j: int| 0 <= j < k ==> {
                let p = #[trigger] dp[j];
                &&& r@[j].0@ == p.0
                &&& r@[j].1@ == p.1
                &&& r@[j].2 == occurrences(lp, p)
            },
        decreases srcs@.len() - k,
    {
        r.push((ID(srcs[k].clone()), ID(dests[k].clone()), counts[k]));
        k += 1;
    }
    proof {
        assert forall|i: int| 0 <= i < r@.len() implies r@[i].2 == lp.to_multiset().count(#[trigger] dp[i]) by {
            crate::graph::lemma_occurrences_count(lp, dp[i]);
        }
    }
    r
}

} // verus!
