//! Where the program keeps its files, and which note properties it writes
//! back to org files.
use crate::props::string_views;
use crate::text::{chars_of, split_char, split_on, to_uppercase, trim, trim_string, uppercase_of};
use vstd::prelude::*;

verus! {

broadcast use vstd::string::group_string_axioms;

/// The settings: the program's own directory, its database, the org-roam
/// database it reads notes from, and the note properties to write back to
/// org files (none listed: all of them).
pub struct ToricelliConfig {
    pub dir: String,
    pub db: String,
    pub org_roam_db: String,
    pub flush_properties: Vec<String>,
}

/// A base path with a path adjoined, as `std::path::PathBuf::push` documents
/// it on Unix: an absolute path (one starting with `/`) replaces the base;
/// otherwise it is appended, after a `/` unless the base is empty or already
/// ends in one.
pub open spec fn joined_path(base: Seq<char>, rel: Seq<char>) -> Seq<char> {
    if rel.len() > 0 && rel[0] == '/' {
        rel
    } else if base.len() == 0 || base.last() == '/' {
        base + rel
    } else {
        base + seq!['/'] + rel
    }
}

/// `rel` adjoined to `base`, as `std::path::Path::join` does on Unix.
fn join_path(base: &str, rel: &str) -> (r: String)
    ensures
        r@ == joined_path(base@, rel@),
{
    let rc = chars_of(rel);
    if rc.len() > 0 && rc[0] == '/' {
        return String::from_str(rel);
    }
    let bc = chars_of(base);
    let mut r = String::from_str(base);
    if bc.len() > 0 && bc[bc.len() - 1] != '/' {
        r.append("/");
        proof {
            reveal_strlit("/");
        }
    }
    r.append(rel);
    r
}

/// The property names a comma-separated list gives, each trimmed and in
/// upper case.
pub open spec fn flush_property_names(s: Seq<char>) -> Seq<Seq<char>> {
    split_on(s, ',').map_values(|p: Seq<char>| uppercase_of(trim(p)))
}

/// The property names in the comma-separated list `s`.
pub fn parse_flush_properties(s: &str) -> (r: Vec<String>)
    ensures
        string_views(r@) == flush_property_names(s@),
{
    let pieces = split_char(s, ',');
    let ghost pv = string_views(pieces@);
    let mut r: Vec<String> = Vec::new();
    let mut i: usize = 0;
    while i < pieces.len()
        invariant
            pv == string_views(pieces@),
            i <= pieces@.len(),
            string_views(r@) == pv.take(i as int).map_values(|p: Seq<char>| uppercase_of(trim(p))),
        decreases pieces@.len() - i,
    {
        let ghost before = string_views(r@);
        let t = trim_string(pieces[i].as_str());
        let u = to_uppercase(t.as_str());
        r.push(u);
        proof {
            let want = pv.take(i + 1).map_values(|p: Seq<char>| uppercase_of(trim(p)));
            assert(string_views(r@) =~= before.push(u@));
            assert forall|j: int| 0 <= j <= i implies #[trigger] string_views(r@)[j] == want[j] by {
                if j < i {
                    assert(before[j] == pv.take(i as int).map_values(|p: Seq<char>| uppercase_of(trim(p)))[j]);
                }
            }
            assert(string_views(r@) =~= want);
        }
        i += 1;
    }
    assert(pv.take(i as int) =~= pv);
    r
}

impl ToricelliConfig {
    /// The settings of the test run `test_name`: its files under
    /// `/tmp/test_out/<test_name>/`, the org-roam database of the test data,
    /// and all properties written back.
    pub fn for_testing(test_name: &str) -> (c: Self)
        ensures
            c.dir@ == "/tmp/test_out/"@ + test_name@ + "/"@,
            c.db@ == c.dir@ + "main.db"@,
            c.org_roam_db@ == "./testdata/org_roam.db"@,
            c.flush_properties@.len() == 0,
    {
        let mut dir = String::from_str("/tmp/test_out/");
        dir.append(test_name);
        dir.append("/");
        let mut db = dir.clone();
        db.append("main.db");
        ToricelliConfig {
            dir,
            db,
            org_roam_db: String::from_str("./testdata/org_roam.db"),
            flush_properties: Vec::new(),
        }
    }

    /// The settings when nothing is configured, for the home directory
    /// `home`: `.toricelli/` under it, the database in there, org-roam's
    /// database under `.emacs.d/`, all properties written back.
    pub fn under_home(home: &str) -> (c: Self)
        ensures
            c.dir@ == joined_path(home@, ".toricelli/"@),
            c.db@ == joined_path(c.dir@, "main.db"@),
            c.org_roam_db@ == joined_path(home@, ".emacs.d/org-roam.db"@),
            c.flush_properties@.len() == 0,
    {
        let dir = join_path(home, ".toricelli/");
        let db = join_path(dir.as_str(), "main.db");
        ToricelliConfig {
            dir,
            db,
            org_roam_db: join_path(home, ".emacs.d/org-roam.db"),
            flush_properties: Vec::new(),
        }
    }

    /// The settings the environment gives: each path it sets replaces the
    /// default under `home` (the database's default lies in the directory
    /// chosen), and a comma-separated list of properties, if set, names the
    /// properties to write back.
    pub fn from_env_values(
        home: &str,
        dir: Option<String>,
        db: Option<String>,
        org_roam_db: Option<String>,
        flush_properties: Option<String>,
    ) -> (c: Self)
        ensures
            c.dir@ == match dir {
                Some(d) => d@,
                None => joined_path(home@, ".toricelli/"@),
            },
            c.db@ == match db {
                Some(d) => d@,
                None => joined_path(c.dir@, "main.db"@),
            },
            c.org_roam_db@ == match org_roam_db {
                Some(p) => p@,
                None => joined_path(home@, ".emacs.d/org-roam.db"@),
            },
            string_views(c.flush_properties@) == match flush_properties {
                Some(s) => flush_property_names(s@),
                None => Seq::<Seq<char>>::empty(),
            },
    {
        let dir = match dir {
            Some(d) => d,
            None => join_path(home, ".toricelli/"),
        };
        let db = match db {
            Some(d) => d,
            None => join_path(dir.as_str(), "main.db"),
        };
        let org_roam_db = match org_roam_db {
            Some(p) => p,
            None => join_path(home, ".emacs.d/org-roam.db"),
        };
        let flush_properties = match flush_properties {
            Some(s) => parse_flush_properties(s.as_str()),
            None => {
                let v: Vec<String> = Vec::new();
                assert(string_views(v@) =~= Seq::<Seq<char>>::empty());
                v
            },
        };
        ToricelliConfig { dir, db, org_roam_db, flush_properties }
    }
}

} // verus!
