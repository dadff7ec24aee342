//! Character-level text handling: whitespace trimming, line splitting and
//! the small string builders the drawer parser and renderer need.
use vstd::prelude::*;
use vstd::std_specs::iter::IteratorSpec;

verus! {

broadcast use vstd::string::group_string_axioms;

/// Unicode `White_Space`, the set `char::is_whitespace` tests for.
pub open spec fn is_ws(c: char) -> bool {
    let u = c as u32;
    ||| 0x09 <= u <= 0x0d
    ||| u == 0x20
    ||| u == 0x85
    ||| u == 0xa0
    ||| u == 0x1680
    ||| 0x2000 <= u <= 0x200a
    ||| u == 0x2028
    ||| u == 0x2029
    ||| u == 0x202f
    ||| u == 0x205f
    ||| u == 0x3000
}

/// `s` without its leading whitespace.
pub open spec fn trim_start(s: Seq<char>) -> Seq<char>
    decreases s.len(),
{
    if s.len() > 0 && is_ws(s[0]) {
        trim_start(s.drop_first())
    } else {
        s
    }
}

/// `s` without its trailing whitespace.
pub open spec fn trim_end(s: Seq<char>) -> Seq<char>
    decreases s.len(),
{
    if s.len() > 0 && is_ws(s.last()) {
        trim_end(s.drop_last())
    } else {
        s
    }
}

/// `s` without leading and trailing whitespace (what `str::trim` returns).
pub open spec fn trim(s: Seq<char>) -> Seq<char> {
    trim_end(trim_start(s))
}

/// `p` is a prefix of `s`.
pub open spec fn has_prefix(s: Seq<char>, p: Seq<char>) -> bool {
    p.len() <= s.len() && s.subrange(0, p.len() as int) == p
}

/// Index of the first occurrence of `c` in `s`, if any.
pub open spec fn find_char(s: Seq<char>, c: char) -> Option<int>
    decreases s.len(),
{
    if s.len() == 0 {
        None
    } else if s[0] == c {
        Some(0)
    } else {
        match find_char(s.drop_first(), c) {
            Some(i) => Some(i + 1),
            None => None,
        }
    }
}

/// `find_char` gives the first index holding `c`, or `None` when there is none.
pub proof fn lemma_find_char(s: Seq<char>, c: char)
    ensures
        match find_char(s, c) {
            Some(k) => 0 <= k < s.len() && s[k] == c && forall|j: int| 0 <= j < k ==> s[j] != c,
            None => forall|j: int| 0 <= j < s.len() ==> s[j] != c,
        },
    decreases s.len(),
{
    if s.len() > 0 {
        lemma_find_char(s.drop_first(), c);
        if s[0] != c {
            assert forall|j: int| 0 < j < s.len() implies s[j] == s.drop_first()[j - 1] by {}
        }
    }
}

/// A line that ended in `'\n'` loses one trailing `'\r'`.
pub open spec fn strip_cr(line: Seq<char>) -> Seq<char> {
    if line.len() > 0 && line.last() == '\r' {
        line.drop_last()
    } else {
        line
    }
}

/// The lines of `s`, as `str::lines` yields them: split at `'\n'`, a `"\r\n"`
/// ending counts as one line ending, and a final line ending adds no empty line.
pub open spec fn lines(s: Seq<char>) -> Seq<Seq<char>>
    decreases s.len(),
{
    if s.len() == 0 {
        Seq::empty()
    } else {
        match find_char(s, '\n') {
            None => seq![s],
            Some(k) => {
                proof {
                    lemma_find_char(s, '\n');
                }
                seq![strip_cr(s.subrange(0, k))] + lines(s.subrange(k + 1, s.len() as int))
            },
        }
    }
}

/// `s` without the leading characters equal to `c`.
pub open spec fn strip_start(s: Seq<char>, c: char) -> Seq<char>
    decreases s.len(),
{
    if s.len() > 0 && s[0] == c {
        strip_start(s.drop_first(), c)
    } else {
        s
    }
}

/// `s` without the trailing characters equal to `c`.
pub open spec fn strip_end(s: Seq<char>, c: char) -> Seq<char>
    decreases s.len(),
{
    if s.len() > 0 && s.last() == c {
        strip_end(s.drop_last(), c)
    } else {
        s
    }
}

/// `s` without leading and trailing `c` (what `str::trim_matches(c)` returns).
pub open spec fn strip_char(s: Seq<char>, c: char) -> Seq<char> {
    strip_end(strip_start(s, c), c)
}

/// The pieces of `s` between the occurrences of `c`, as `str::split(c)`
/// yields them: one more piece than there are occurrences.
pub open spec fn split_on(s: Seq<char>, c: char) -> Seq<Seq<char>>
    decreases s.len(),
{
    match find_char(s, c) {
        None => seq![s],
        Some(k) => {
            proof {
                lemma_find_char(s, c);
            }
            seq![s.subrange(0, k)] + split_on(s.subrange(k + 1, s.len() as int), c)
        },
    }
}

/// The first occurrence of `c` is at `k` when `s[k]` is `c` and no earlier
/// character is; there is none when no character is `c`.
pub proof fn lemma_find_char_at(s: Seq<char>, c: char, k: int)
    requires
        0 <= k <= s.len(),
        forall|j: int| 0 <= j < k ==> s[j] != c,
    ensures
        k < s.len() && s[k] == c ==> find_char(s, c) == Some(k),
        k == s.len() ==> find_char(s, c) is None,
{
    lemma_find_char(s, c);
}

/// The lines `ls` joined by line breaks.
pub open spec fn join_lines(ls: Seq<Seq<char>>) -> Seq<char>
    decreases ls.len(),
{
    if ls.len() == 0 {
        Seq::empty()
    } else if ls.len() == 1 {
        ls[0]
    } else {
        ls[0] + seq!['\n'] + join_lines(ls.drop_first())
    }
}

/// Joining one more line adds a line break and the line.
pub proof fn lemma_join_push(ls: Seq<Seq<char>>, y: Seq<char>)
    requires
        ls.len() >= 1,
    ensures
        join_lines(ls.push(y)) == join_lines(ls) + seq!['\n'] + y,
    decreases ls.len(),
{
    let l2 = ls.push(y);
    if ls.len() == 1 {
        assert(l2.drop_first() =~= seq![y]);
        assert(join_lines(seq![y]) == y);
        assert(join_lines(l2) == l2[0] + seq!['\n'] + join_lines(l2.drop_first()));
        assert(join_lines(l2) =~= join_lines(ls) + seq!['\n'] + y);
    } else {
        assert(l2.drop_first() =~= ls.drop_first().push(y));
        lemma_join_push(ls.drop_first(), y);
        assert(join_lines(l2) =~= join_lines(ls) + seq!['\n'] + y);
    }
}

/// The line before the first line break comes first, then the lines after it.
pub proof fn lemma_lines_cons(x: Seq<char>, y: Seq<char>)
    requires
        !x.contains('\n'),
    ensures
        lines(x + seq!['\n'] + y) == seq![strip_cr(x)] + lines(y),
{
    let s = x + seq!['\n'] + y;
    assert forall|j: int| 0 <= j < x.len() implies s[j] != '\n' by {
        assert(s[j] == x[j]);
    }
    lemma_find_char_at(s, '\n', x.len() as int);
    assert(s.subrange(0, x.len() as int) =~= x);
    assert(s.subrange(x.len() as int + 1, s.len() as int) =~= y);
}

/// A non-empty text without line breaks is one line.
pub proof fn lemma_lines_single(x: Seq<char>)
    requires
        x.len() > 0,
        !x.contains('\n'),
    ensures
        lines(x) == seq![x],
{
    lemma_find_char_at(x, '\n', x.len() as int);
}

/// The line does not end in a carriage return.
pub open spec fn no_cr_end(l: Seq<char>) -> bool {
    !(l.len() > 0 && l.last() == '\r')
}

/// Splitting joined lines gives them back, when none holds a line break,
/// none but the last ends in a carriage return, and the last is not empty.
pub proof fn lemma_lines_join(ls: Seq<Seq<char>>)
    requires
        ls.len() >= 1,
        forall|i: int| 0 <= i < ls.len() ==> !(#[trigger] ls[i]).contains('\n'),
        forall|i: int| 0 <= i < ls.len() - 1 ==> no_cr_end(#[trigger] ls[i]),
        ls.last().len() > 0,
    ensures
        lines(join_lines(ls)) == ls,
    decreases ls.len(),
{
    if ls.len() == 1 {
        lemma_lines_single(ls[0]);
        assert(seq![ls[0]] =~= ls);
    } else {
        let rest = ls.drop_first();
        assert forall|i: int| 0 <= i < rest.len() implies !(#[trigger] rest[i]).contains('\n') by {
            assert(rest[i] == ls[i + 1]);
        }
        assert forall|i: int| 0 <= i < rest.len() - 1 implies no_cr_end(#[trigger] rest[i]) by {
            assert(rest[i] == ls[i + 1]);
        }
        lemma_lines_join(rest);
        assert(!ls[0].contains('\n'));
        assert(no_cr_end(ls[0]));
        lemma_lines_cons(ls[0], join_lines(rest));
        assert(strip_cr(ls[0]) == ls[0]);
        assert(seq![ls[0]] + rest =~= ls);
    }
}

/// Trimming never lengthens.
pub proof fn lemma_trim_lengths(s: Seq<char>)
    ensures
        trim_start(s).len() <= s.len(),
        trim_end(s).len() <= s.len(),
    decreases s.len(),
{
    if s.len() > 0 {
        lemma_trim_lengths(s.drop_first());
        lemma_trim_lengths(s.drop_last());
    }
}

/// A trimmed non-empty text starts and ends with non-whitespace.
pub proof fn lemma_trimmed_ends(v: Seq<char>)
    requires
        trim(v) == v,
        v.len() > 0,
    ensures
        !is_ws(v[0]),
        !is_ws(v.last()),
{
    lemma_trim_lengths(v.drop_first());
    if is_ws(v[0]) {
        lemma_trim_lengths(trim_start(v));
        assert(trim_start(v) == trim_start(v.drop_first()));
        assert(false);
    }
    assert(trim_start(v) == v);
    if is_ws(v.last()) {
        lemma_trim_lengths(v.drop_last());
        assert(trim_end(v) == trim_end(v.drop_last()));
        assert(false);
    }
}

/// A text starting and ending with non-whitespace is its own trim.
pub proof fn lemma_trim_fixed(s: Seq<char>)
    requires
        s.len() > 0,
        !is_ws(s[0]),
        !is_ws(s.last()),
    ensures
        trim(s) == s,
{
}

/// Trimming a trimmed text with a space before it gives the text.
pub proof fn lemma_trim_space_before(v: Seq<char>)
    requires
        trim(v) == v,
    ensures
        trim(seq![' '] + v) == v,
{
    let s = seq![' '] + v;
    assert(s.drop_first() =~= v);
    assert(is_ws(' '));
    if v.len() > 0 {
        lemma_trimmed_ends(v);
    }
}

/// Trimming a text that starts and ends with non-whitespace, with a space
/// after it, gives the text.
pub proof fn lemma_trim_space_after(t: Seq<char>)
    requires
        t.len() > 0,
        !is_ws(t[0]),
        !is_ws(t.last()),
    ensures
        trim(t + seq![' ']) == t,
{
    let s = t + seq![' '];
    assert(is_ws(' '));
    assert(s.drop_last() =~= t);
    assert(s[0] == t[0]);
    assert(trim_start(s) == s);
    assert(s.last() == ' ');
    assert(trim_end(s) == trim_end(t));
    assert(trim_end(t) == t);
}

/// Whether `c` occurs in `s`.
pub fn contains_char(s: &str, c: char) -> (b: bool)
    ensures
        b == s@.contains(c),
{
    let cs = chars_of(s);
    let mut i: usize = 0;
    while i < cs.len()
        invariant
            cs@ == s@,
            i <= cs@.len(),
            forall|j: int| 0 <= j < i ==> cs@[j] != c,
        decreases cs@.len() - i,
    {
        if cs[i] == c {
            assert(s@[i as int] == c);
            return true;
        }
        i += 1;
    }
    false
}

/// `s` without leading and trailing `c`.
pub fn trim_matches_char(s: &str, c: char) -> (r: String)
    ensures
        r@ == strip_char(s@, c),
{
    let cs = chars_of(s);
    let n = cs.len();
    let mut i: usize = 0;
    assert(cs@.subrange(0, n as int) =~= s@);
    while i < n && cs[i] == c
        invariant
            cs@ == s@,
            n == cs@.len(),
            i <= n,
            strip_start(s@, c) == strip_start(cs@.subrange(i as int, n as int), c),
        decreases n - i,
    {
        assert(cs@.subrange(i as int, n as int).drop_first() =~= cs@.subrange(i + 1, n as int));
        i += 1;
    }
    let ghost u = cs@.subrange(i as int, n as int);
    assert(strip_start(u, c) == u);
    assert(cs@.subrange(0, n as int) =~= s@);
    let mut j: usize = n;
    while j > i && cs[j - 1] == c
        invariant
            cs@ == s@,
            i <= j <= n,
            n == cs@.len(),
            u == cs@.subrange(i as int, n as int),
            strip_end(u, c) == strip_end(cs@.subrange(i as int, j as int), c),
        decreases j - i,
    {
        assert(cs@.subrange(i as int, j as int).drop_last() =~= cs@.subrange(i as int, j - 1));
        j -= 1;
    }
    string_of_range(&cs, i, j)
}

/// The pieces of `s` between the occurrences of `c`.
pub fn split_char(s: &str, c: char) -> (r: Vec<String>)
    ensures
        crate::props::string_views(r@) == split_on(s@, c),
{
    let cs = chars_of(s);
    let n = cs.len();
    let mut r: Vec<String> = Vec::new();
    let mut start: usize = 0;
    let mut i: usize = 0;
    assert(cs@.subrange(0, n as int) =~= s@);
    assert(crate::props::string_views(r@) =~= Seq::<Seq<char>>::empty());
    assert(Seq::<Seq<char>>::empty() + split_on(s@, c) =~= split_on(s@, c));
    while i < n
        invariant
            cs@ == s@,
            n == cs@.len(),
            start <= i <= n,
            forall|j: int| start <= j < i ==> cs@[j] != c,
            crate::props::string_views(r@) + split_on(cs@.subrange(start as int, n as int), c) == split_on(s@, c),
        decreases n - i,
    {
        if cs[i] == c {
            let ghost t = cs@.subrange(start as int, n as int);
            proof {
                lemma_find_char_at(t, c, (i - start) as int);
                assert(t.subrange(0, (i - start) as int) =~= cs@.subrange(start as int, i as int));
                assert(t.subrange((i - start) + 1, t.len() as int) =~= cs@.subrange(i + 1, n as int));
            }
            let piece = string_of_range(&cs, start, i);
            let ghost before = crate::props::string_views(r@);
            r.push(piece);
            proof {
                assert(crate::props::string_views(r@) =~= before.push(piece@));
                assert(before.push(piece@) + split_on(cs@.subrange(i + 1, n as int), c) =~= before + (
                seq![piece@] + split_on(cs@.subrange(i + 1, n as int), c)));
            }
            start = i + 1;
        }
        i += 1;
    }
    let ghost t = cs@.subrange(start as int, n as int);
    proof {
        lemma_find_char_at(t, c, (n - start) as int);
        assert(t.subrange(0, t.len() as int) =~= t);
    }
    let piece = string_of_range(&cs, start, n);
    let ghost before = crate::props::string_views(r@);
    r.push(piece);
    proof {
        assert(crate::props::string_views(r@) =~= before.push(piece@));
        assert(before.push(piece@) =~= before + seq![t]);
    }
    r
}

/// A string holding `s` without leading and trailing whitespace.
pub fn trim_string(s: &str) -> (r: String)
    ensures
        r@ == trim(s@),
{
    let cs = chars_of(s);
    assert(cs@.subrange(0, cs@.len() as int) =~= s@);
    let (lo, hi) = trim_bounds(&cs, 0, cs.len());
    string_of_range(&cs, lo, hi)
}

/// What `str::to_uppercase` returns for a string with these characters.
pub uninterp spec fn uppercase_of(s: Seq<char>) -> Seq<char>;

/// All characters are ASCII.
pub open spec fn is_ascii_text(s: Seq<char>) -> bool {
    forall|i: int| 0 <= i < s.len() ==> (#[trigger] s[i] as u32) < 128
}

/// The text with its ASCII lower-case letters made upper-case.
pub open spec fn ascii_upper(s: Seq<char>) -> Seq<char> {
    s.map_values(|c: char| if 'a' <= c && c <= 'z' { ((c as u32) - 32) as char } else { c })
}

/// Calls `str::to_uppercase`. Claimed: the result depends on the characters of
/// the argument alone, and is named `uppercase_of` of them; for ASCII text it
/// is the text with `a`..`z` made `A`..`Z` (the Unicode upper case of ASCII
/// characters, as `str::to_ascii_uppercase` documents it).
#[verifier::external_body]
pub(crate) fn to_uppercase(s: &str) -> (r: String)
    ensures
        r@ == uppercase_of(s@),
        is_ascii_text(s@) ==> r@ == ascii_upper(s@),
{
    s.to_uppercase()
}

/// Calls `String::push`. Claimed: the character is appended at the end.
#[verifier::external_body]
pub(crate) fn push_char(s: &mut String, c: char)
    ensures
        final(s)@ == old(s)@.push(c),
{
    s.push(c)
}

/// Whether `c` is Unicode whitespace.
pub fn is_ws_char(c: char) -> (b: bool)
    ensures
        b == is_ws(c),
{
    let u = c as u32;
    (0x09 <= u && u <= 0x0d) || u == 0x20 || u == 0x85 || u == 0xa0 || u == 0x1680 || (0x2000
        <= u && u <= 0x200a) || u == 0x2028 || u == 0x2029 || u == 0x202f || u == 0x205f || u
        == 0x3000
}

/// The characters of `s`, in order.
pub fn chars_of(s: &str) -> (v: Vec<char>)
    ensures
        v@ == s@,
{
    let mut it = s.chars();
    let mut v: Vec<char> = Vec::new();
    loop
        invariant
            v@ + it.remaining() == s@,
            it.obeys_prophetic_iter_laws(),
            it.decrease() is Some,
        decreases it.decrease()->0,
    {
        match it.next() {
            Some(c) => {
                v.push(c);
                assert(v@ + it.remaining() =~= s@);
            },
            None => {
                assert(v@ =~= s@);
                return v;
            },
        }
    }
}

/// A `String` holding `cs[lo..hi]`.
pub fn string_of_range(cs: &Vec<char>, lo: usize, hi: usize) -> (r: String)
    requires
        lo <= hi <= cs@.len(),
    ensures
        r@ == cs@.subrange(lo as int, hi as int),
{
    let mut r = String::new();
    let mut i = lo;
    while i < hi
        invariant
            lo <= i <= hi <= cs@.len(),
            r@ == cs@.subrange(lo as int, i as int),
        decreases hi - i,
    {
        push_char(&mut r, cs[i]);
        assert(r@ =~= cs@.subrange(lo as int, i + 1));
        i += 1;
    }
    r
}

pub proof fn lemma_trim_start_step(s: Seq<char>, i: int)
    requires
        0 <= i < s.len(),
        is_ws(s[i]),
    ensures
        trim_start(s.subrange(i, s.len() as int)) == trim_start(s.subrange(i + 1, s.len() as int)),
{
    assert(s.subrange(i, s.len() as int).drop_first() =~= s.subrange(i + 1, s.len() as int));
}

pub proof fn lemma_trim_end_step(s: Seq<char>, j: int)
    requires
        0 < j <= s.len(),
        is_ws(s[j - 1]),
    ensures
        trim_end(s.subrange(0, j)) == trim_end(s.subrange(0, j - 1)),
{
    assert(s.subrange(0, j).drop_last() =~= s.subrange(0, j - 1));
}

/// The bounds of `trim(cs[lo..hi])` inside `cs`.
pub fn trim_bounds(cs: &Vec<char>, lo: usize, hi: usize) -> (r: (usize, usize))
    requires
        lo <= hi <= cs@.len(),
    ensures
        lo <= r.0 <= r.1 <= hi,
        cs@.subrange(r.0 as int, r.1 as int) == trim(cs@.subrange(lo as int, hi as int)),
{
    let ghost s = cs@.subrange(lo as int, hi as int);
    let mut i = lo;
    while i < hi && is_ws_char(cs[i])
        invariant
            lo <= i <= hi <= cs@.len(),
            s == cs@.subrange(lo as int, hi as int),
            trim_start(s) == trim_start(cs@.subrange(i as int, hi as int)),
        decreases hi - i,
    {
        proof {
            let t = cs@.subrange(0, hi as int);
            lemma_trim_start_step(t, i as int);
            assert(t.subrange(i as int, hi as int) =~= cs@.subrange(i as int, hi as int));
            assert(t.subrange(i + 1, hi as int) =~= cs@.subrange(i + 1, hi as int));
        }
        i += 1;
    }
    let ghost u = cs@.subrange(i as int, hi as int);
    assert(trim_start(u) == u);
    let mut j = hi;
    while j > i && is_ws_char(cs[j - 1])
        invariant
            lo <= i <= j <= hi <= cs@.len(),
            u == cs@.subrange(i as int, hi as int),
            trim_end(u) == trim_end(cs@.subrange(i as int, j as int)),
        decreases j - i,
    {
        proof {
            let t = cs@.subrange(i as int, j as int);
            lemma_trim_end_step(t, (j - i) as int);
            assert(t.subrange(0, (j - i) as int) =~= t);
            assert(t.subrange(0, (j - i - 1) as int) =~= cs@.subrange(i as int, j - 1));
        }
        j -= 1;
    }
    let ghost w = cs@.subrange(i as int, j as int);
    assert(trim_end(w) == w);
    (i, j)
}

/// Index of the first `c` in `cs[lo..hi]`, counted from `lo`.
pub fn find_char_in(cs: &Vec<char>, lo: usize, hi: usize, c: char) -> (r: Option<usize>)
    requires
        lo <= hi <= cs@.len(),
    ensures
        match r {
            Some(k) => find_char(cs@.subrange(lo as int, hi as int), c) == Some(k as int) && lo + k < hi,
            None => find_char(cs@.subrange(lo as int, hi as int), c) is None,
        },
{
    let mut i = hi;
    let mut found: Option<usize> = None;
    // Walk backwards so that `found` always holds the first hit of the suffix.
    while i > lo
        invariant
            lo <= i <= hi <= cs@.len(),
            match found {
                Some(k) => find_char(cs@.subrange(i as int, hi as int), c) == Some(k as int) && i
                    + k < hi,
                None => find_char(cs@.subrange(i as int, hi as int), c) is None,
            },
        decreases i - lo,
    {
        i -= 1;
        proof {
            let t = cs@.subrange(i as int, hi as int);
            assert(t.drop_first() =~= cs@.subrange(i + 1, hi as int));
        }
        if cs[i] == c {
            found = Some(0);
        } else {
            found = match found {
                Some(k) => Some(k + 1),
                None => None,
            };
        }
    }
    found
}

/// Whether `cs[lo..hi]` starts with the characters of `p`.
pub fn range_has_prefix(cs: &Vec<char>, lo: usize, hi: usize, p: &Vec<char>) -> (b: bool)
    requires
        lo <= hi <= cs@.len(),
    ensures
        b == has_prefix(cs@.subrange(lo as int, hi as int), p@),
{
    if p.len() > hi - lo {
        return false;
    }
    let mut k: usize = 0;
    while k < p.len()
        invariant
            p@.len() <= hi - lo,
            lo <= hi <= cs@.len(),
            k <= p@.len(),
            forall|m: int| 0 <= m < k ==> cs@[lo + m] == p@[m],
        decreases p@.len() - k,
    {
        if cs[lo + k] != p[k] {
            assert(cs@.subrange(lo as int, hi as int).subrange(0, p@.len() as int)[k as int] != p@[k as int]);
            return false;
        }
        k += 1;
    }
    assert(cs@.subrange(lo as int, hi as int).subrange(0, p@.len() as int) =~= p@);
    true
}

} // verus!
