use crate::text::{begins_with, chars_of, concat, starts_with_chars, string_of, views};
use vstd::prelude::*;

verus! {

/// The user's settings, as kept in `~/.config/navi/config.json`.
pub struct Config {
    pub db: String,
    pub emacsclient: String,
    pub server_name: String,
    pub show_fps: bool,
    pub borderless: bool,
}

/// The server name used where the file gives none.
pub fn default_server() -> (s: String)
    ensures
        s@ == "server"@,
{
    "server".to_string()
}

/// The value of a flag the file leaves out: on.
pub fn default_true() -> (b: bool)
    ensures
        b,
{
    true
}

impl Config {
    /// No database or client yet, server `server`, frame rate shown, borders kept.
    pub open spec fn is_default(&self) -> bool {
        &&& self.db@.len() == 0
        &&& self.emacsclient@.len() == 0
        &&& self.server_name@ == "server"@
        &&& self.show_fps
        &&& !self.borderless
    }

    /// Where the settings file lives: `.config/navi/config.json` below the
    /// home directory (below the working directory where none is known).
    pub fn config_path() -> (p: String)
        ensures
            exists|h: Seq<char>| p@ == settings_path(h),
    {
        let home = home_text();
        let p = config_path_in(&home);
        p
    }
}

impl Config {
    /// Where earlier versions kept the settings:
    /// `.config/org-roam-graph/config.json` below the home directory. It is
    /// read where the current file is missing.
    pub fn legacy_config_path() -> (p: String)
        ensures
            exists|h: Seq<char>| p@ == legacy_settings_path(h),
    {
        let home = home_text();
        legacy_config_path_in(&home)
    }
}

impl Config {
    /// Fills in what the settings leave empty on start-up: the database from
    /// `find_db`, the `emacsclient` program from `find_client` (each called
    /// only where needed). Everything else is kept.
    pub fn complete<F: FnOnce() -> String, G: FnOnce() -> String>(self, find_db: F, find_client: G) -> (c: Config)
        requires
            call_requires(find_db, ()),
            call_requires(find_client, ()),
        ensures
            if self.db@.len() == 0 {
                call_ensures(find_db, (), c.db)
            } else {
                c.db@ == self.db@
            },
            if self.emacsclient@.len() == 0 {
                call_ensures(find_client, (), c.emacsclient)
            } else {
                c.emacsclient@ == self.emacsclient@
            },
            c.server_name@ == self.server_name@,
            c.show_fps == self.show_fps,
            c.borderless == self.borderless,
    {
        let Config { db, emacsclient, server_name, show_fps, borderless } = self;
        let db = if chars_of(db.as_str()).len() == 0 {
            find_db()
        } else {
            db
        };
        let emacsclient = if chars_of(emacsclient.as_str()).len() == 0 {
            find_client()
        } else {
            emacsclient
        };
        Config { db, emacsclient, server_name, show_fps, borderless }
    }
}

impl Default for Config {
    fn default() -> (c: Self)
        ensures
            c.is_default(),
    {
        Config {
            db: String::new(),
            emacsclient: String::new(),
            server_name: "server".to_string(),
            show_fps: true,
            borderless: false,
        }
    }
}

/// The home directory, if the system knows one (`dirs::home_dir`), as text.
/// Nothing is promised of the answer: it comes from the environment and the
/// user database.
#[verifier::external_body]
fn home_dir() -> Option<String> {
    match dirs::home_dir() {
        Some(p) => Some(p.to_string_lossy().into_owned()),
        None => None,
    }
}

/// The home directory as text, empty where none is known. No contract is
/// given: the text comes from `$HOME` or the user database, which nothing
/// here can state.
pub fn home_text() -> String {
    match home_dir() {
        Some(h) => h,
        None => String::new(),
    }
}

/// Whether something exists at path `p` (`std::path::Path::exists`).
/// Nothing is promised of the answer: it depends on the disk at the time of
/// the call.
#[verifier::external_body]
pub(crate) fn path_exists(p: &str) -> bool {
    std::path::Path::new(p).exists()
}

/// `a` joined with the relative component `b` as `PathBuf::join` does on Unix:
/// `b` alone where `a` is empty or `b` is absolute, with one `/` between.
pub open spec fn path_join(a: Seq<char>, b: Seq<char>) -> Seq<char> {
    if b.len() > 0 && b[0] == '/' {
        b
    } else if a.len() == 0 {
        b
    } else if a.last() == '/' {
        a + b
    } else {
        a + seq!['/'] + b
    }
}

/// The settings file below home directory `home`.
pub open spec fn settings_path(home: Seq<char>) -> Seq<char> {
    path_join(path_join(path_join(home, ".config"@), "navi"@), "config.json"@)
}

/// The settings file of earlier versions below home directory `home`.
pub open spec fn legacy_settings_path(home: Seq<char>) -> Seq<char> {
    path_join(path_join(path_join(home, ".config"@), "org-roam-graph"@), "config.json"@)
}

/// Joins `a` and `b` as `PathBuf::join` does on Unix.
pub fn join_path(a: &[char], b: &[char]) -> (r: Vec<char>)
    ensures
        r@ == path_join(a@, b@),
{
    if b.len() > 0 && b[0] == '/' {
        let mut r: Vec<char> = Vec::new();
        r.extend_from_slice(b);
        r
    } else if a.len() == 0 {
        let mut r: Vec<char> = Vec::new();
        r.extend_from_slice(b);
        r
    } else if a[a.len() - 1] == '/' {
        concat(a, b)
    } else {
        let mut sep: Vec<char> = Vec::new();
        sep.push('/');
        let x = concat(a, sep.as_slice());
        proof {
            assert(sep@ =~= seq!['/']);
        }
        concat(x.as_slice(), b)
    }
}

/// The settings file below `home`.
pub fn config_path_in(home: &str) -> (p: String)
    ensures
        p@ == settings_path(home@),
{
    let h = chars_of(home);
    let a = join_path(h.as_slice(), chars_of(".config").as_slice());
    let b = join_path(a.as_slice(), chars_of("navi").as_slice());
    let c = join_path(b.as_slice(), chars_of("config.json").as_slice());
    string_of(c.as_slice())
}

/// The settings file of earlier versions below `home`.
pub fn legacy_config_path_in(home: &str) -> (p: String)
    ensures
        p@ == legacy_settings_path(home@),
{
    let h = chars_of(home);
    let a = join_path(h.as_slice(), chars_of(".config").as_slice());
    let b = join_path(a.as_slice(), chars_of("org-roam-graph").as_slice());
    let c = join_path(b.as_slice(), chars_of("config.json").as_slice());
    string_of(c.as_slice())
}

/// `path` with a leading `~/` replaced by `home` and `/`.
pub open spec fn tilde_expanded(path: Seq<char>, home: Seq<char>) -> Seq<char> {
    if path.len() >= 2 && path[0] == '~' && path[1] == '/' {
        home + seq!['/'] + path.skip(2)
    } else {
        path
    }
}

/// Replaces a leading `~/` in `path` by `home` and `/`.
pub fn expand_tilde_in(path: &str, home: &str) -> (r: String)
    ensures
        r@ == tilde_expanded(path@, home@),
{
    let p = chars_of(path);
    if p.len() >= 2 && p[0] == '~' && p[1] == '/' {
        let mut rest: Vec<char> = Vec::new();
        rest.push('/');
        let mut i: usize = 2;
        while i < p.len()
            invariant
                2 <= i <= p.len(),
                rest@ == seq!['/'] + p@.subrange(2, i as int),
            decreases p.len() - i,
        {
            rest.push(p[i]);
            proof {
                assert(rest@ =~= seq!['/'] + p@.subrange(2, i + 1));
            }
            i += 1;
        }
        proof {
            assert(p@.subrange(2, p.len() as int) =~= p@.skip(2));
        }
        let h = chars_of(home);
        let r = concat(h.as_slice(), rest.as_slice());
        proof {
            assert(r@ =~= home@ + seq!['/'] + p@.skip(2));
        }
        string_of(r.as_slice())
    } else {
        path.to_string()
    }
}

/// Replaces a leading `~/` in `path` by the home directory (empty where
/// none is known) and `/`.
pub fn expand_tilde(path: &str) -> (r: String)
    ensures
        exists|h: Seq<char>| r@ == tilde_expanded(path@, h),
{
    let home = home_text();
    expand_tilde_in(path, home.as_str())
}

/// Where org-roam keeps its database in the usual set-ups, `~` for home.
pub open spec fn db_patterns() -> Seq<Seq<char>> {
    seq![
        "~/.emacs.d/org-roam.db"@,
        "~/.config/emacs/org-roam.db"@,
        "~/.config/doom/.local/etc/org-roam.db"@,
        "~/.config/doom/org-roam.db"@,
        "~/.doom.d/.local/etc/org-roam.db"@,
        "~/.doom.d/org-roam.db"@,
        "~/.spacemacs.d/org-roam.db"@,
    ]
}

/// The usual database places, in the order they are tried.
pub fn db_pattern_list() -> (v: Vec<String>)
    ensures
        views(v@) == db_patterns(),
{
    let mut v: Vec<String> = Vec::new();
    v.push("~/.emacs.d/org-roam.db".to_string());
    v.push("~/.config/emacs/org-roam.db".to_string());
    v.push("~/.config/doom/.local/etc/org-roam.db".to_string());
    v.push("~/.config/doom/org-roam.db".to_string());
    v.push("~/.doom.d/.local/etc/org-roam.db".to_string());
    v.push("~/.doom.d/org-roam.db".to_string());
    v.push("~/.spacemacs.d/org-roam.db".to_string());
    assert(views(v@) =~= db_patterns());
    v
}

/// The places tried for the database, in order: `$ORG_ROAM_DB` where set,
/// then `emacs/org-roam.db` under `$XDG_DATA_HOME` (or `~/.local/share`),
/// then the usual places below `home`.
pub open spec fn db_candidates(env_db: Option<Seq<char>>, xdg_data_home: Option<Seq<char>>, home: Seq<char>) -> Seq<
    Seq<char>,
> {
    let xdg = match xdg_data_home {
        Some(x) => x,
        None => home + "/.local/share"@,
    };
    let first = match env_db {
        Some(v) => seq![v],
        None => Seq::empty(),
    };
    first + seq![xdg + "/emacs/org-roam.db"@] + db_patterns().map_values(|p: Seq<char>| tilde_expanded(p, home))
}

/// The places tried for the database.
pub fn db_candidate_list(env_db: Option<&str>, xdg_data_home: Option<&str>, home: &str) -> (v: Vec<String>)
    ensures
        views(v@) == db_candidates(opt_view(env_db), opt_view(xdg_data_home), home@),
{
    let mut v: Vec<String> = Vec::new();
    if let Some(e) = env_db {
        v.push(e.to_string());
    }
    let xdg = match xdg_data_home {
        Some(x) => chars_of(x),
        None => concat(chars_of(home).as_slice(), chars_of("/.local/share").as_slice()),
    };
    let xdg_db = concat(xdg.as_slice(), chars_of("/emacs/org-roam.db").as_slice());
    v.push(string_of(xdg_db.as_slice()));
    let ghost head = views(v@);
    let pats = db_pattern_list();
    let mut i: usize = 0;
    while i < pats.len()
        invariant
            i <= pats.len(),
            views(pats@) == db_patterns(),
            views(v@) == head + db_patterns().take(i as int).map_values(|p: Seq<char>| tilde_expanded(p, home@)),
        decreases pats.len() - i,
    {
        let ghost before = views(v@);
        let x = expand_tilde_in(pats[i].as_str(), home);
        v.push(x);
        proof {
            let f = |p: Seq<char>| tilde_expanded(p, home@);
            assert(views(pats@)[i as int] == pats@[i as int]@);
            assert(views(v@) =~= before.push(x@));
            assert(db_patterns().take(i + 1) =~= db_patterns().take(i as int).push(db_patterns()[i as int]));
            assert(db_patterns().take(i + 1).map_values(f) =~= db_patterns().take(i as int).map_values(f).push(
                f(db_patterns()[i as int]),
            ));
            assert(views(v@) =~= head + db_patterns().take(i + 1).map_values(f));
        }
        i += 1;
    }
    proof {
        assert(db_patterns().take(7) =~= db_patterns());
    }
    v
}

/// The database is looked for where the documentation lists it, in its
/// order: `$ORG_ROAM_DB` where set, `emacs/org-roam.db` under
/// `$XDG_DATA_HOME` (else `~/.local/share`), then below home `.emacs.d`,
/// `.config/emacs`, the Doom places and `.spacemacs.d`; the last resort is
/// the `.emacs.d` one.
pub proof fn law_db_places(env_db: Option<Seq<char>>, xdg_data_home: Option<Seq<char>>, home: Seq<char>)
    ensures
        db_candidates(env_db, xdg_data_home, home) == (match env_db {
            Some(v) => seq![v],
            None => Seq::empty(),
        }) + seq![
            (match xdg_data_home {
                Some(x) => x,
                None => home + "/.local/share"@,
            }) + "/emacs/org-roam.db"@,
            home + "/.emacs.d/org-roam.db"@,
            home + "/.config/emacs/org-roam.db"@,
            home + "/.config/doom/.local/etc/org-roam.db"@,
            home + "/.config/doom/org-roam.db"@,
            home + "/.doom.d/.local/etc/org-roam.db"@,
            home + "/.doom.d/org-roam.db"@,
            home + "/.spacemacs.d/org-roam.db"@,
        ],
        db_fallback(home) == home + "/.emacs.d/org-roam.db"@,
{
    reveal_strlit("~/.emacs.d/org-roam.db");
    reveal_strlit("/.emacs.d/org-roam.db");
    reveal_strlit("~/.config/emacs/org-roam.db");
    reveal_strlit("/.config/emacs/org-roam.db");
    reveal_strlit("~/.config/doom/.local/etc/org-roam.db");
    reveal_strlit("/.config/doom/.local/etc/org-roam.db");
    reveal_strlit("~/.config/doom/org-roam.db");
    reveal_strlit("/.config/doom/org-roam.db");
    reveal_strlit("~/.doom.d/.local/etc/org-roam.db");
    reveal_strlit("/.doom.d/.local/etc/org-roam.db");
    reveal_strlit("~/.doom.d/org-roam.db");
    reveal_strlit("/.doom.d/org-roam.db");
    reveal_strlit("~/.spacemacs.d/org-roam.db");
    reveal_strlit("/.spacemacs.d/org-roam.db");
    assert(tilde_expanded("~/.emacs.d/org-roam.db"@, home) =~= home + "/.emacs.d/org-roam.db"@);
    assert(tilde_expanded("~/.config/emacs/org-roam.db"@, home) =~= home + "/.config/emacs/org-roam.db"@);
    assert(tilde_expanded("~/.config/doom/.local/etc/org-roam.db"@, home) =~= home + "/.config/doom/.local/etc/org-roam.db"@);
    assert(tilde_expanded("~/.config/doom/org-roam.db"@, home) =~= home + "/.config/doom/org-roam.db"@);
    assert(tilde_expanded("~/.doom.d/.local/etc/org-roam.db"@, home) =~= home + "/.doom.d/.local/etc/org-roam.db"@);
    assert(tilde_expanded("~/.doom.d/org-roam.db"@, home) =~= home + "/.doom.d/org-roam.db"@);
    assert(tilde_expanded("~/.spacemacs.d/org-roam.db"@, home) =~= home + "/.spacemacs.d/org-roam.db"@);
    let f = |p: Seq<char>| tilde_expanded(p, home);
    assert(db_patterns().map_values(f) =~= seq![
        home + "/.emacs.d/org-roam.db"@,
        home + "/.config/emacs/org-roam.db"@,
        home + "/.config/doom/.local/etc/org-roam.db"@,
        home + "/.config/doom/org-roam.db"@,
        home + "/.doom.d/.local/etc/org-roam.db"@,
        home + "/.doom.d/org-roam.db"@,
        home + "/.spacemacs.d/org-roam.db"@,
    ]);
}

/// Flag `k` of `exists` is there and set.
pub open spec fn marked(exists: Seq<bool>, k: int) -> bool {
    0 <= k < exists.len() && exists[k]
}

/// `r` is the first of `candidates` whose flag in `exists` is set, or
/// `fallback` where none is.
pub open spec fn picks_first(candidates: Seq<Seq<char>>, exists: Seq<bool>, fallback: Seq<char>, r: Seq<char>) -> bool {
    ||| exists|k: int|
        0 <= k < candidates.len() && #[trigger] marked(exists, k) && (forall|j: int| 0 <= j < k ==> !marked(exists, j))
            && r == candidates[k]
    ||| (forall|j: int| 0 <= j < candidates.len() ==> !marked(exists, j)) && r == fallback
}

/// Where the database is looked for last: `~/.emacs.d/org-roam.db` below `home`.
pub open spec fn db_fallback(home: Seq<char>) -> Seq<char> {
    tilde_expanded(db_patterns()[0], home)
}

/// The view of an optional text.
pub open spec fn opt_view(s: Option<&str>) -> Option<Seq<char>> {
    match s {
        Some(t) => Some(t@),
        None => None,
    }
}

/// Finds the org-roam database: the first of `db_candidates` that exists,
/// else `~/.emacs.d/org-roam.db` below home. The values of `$ORG_ROAM_DB`
/// and `$XDG_DATA_HOME` are handed in; the home directory and what exists on
/// disk are looked up.
pub fn detect_db(env_db: Option<&str>, xdg_data_home: Option<&str>) -> (r: String)
    ensures
        exists|h: Seq<char>, e: Seq<bool>|
            #[trigger] picks_first(
                db_candidates(opt_view(env_db), opt_view(xdg_data_home), h),
                e,
                db_fallback(h),
                r@,
            ),
{
    let home = home_text();
    let cands = db_candidate_list(env_db, xdg_data_home, home.as_str());
    let mut flags: Vec<bool> = Vec::new();
    let mut i: usize = 0;
    while i < cands.len()
        invariant
            i <= cands.len(),
            flags.len() == i,
        decreases cands.len() - i,
    {
        flags.push(path_exists(cands[i].as_str()));
        i += 1;
    }
    let fallback = expand_tilde_in("~/.emacs.d/org-roam.db", home.as_str());
    let r = pick_first(&cands, &flags, &fallback);
    proof {
        reveal_strlit("~/.emacs.d/org-roam.db");
        assert(fallback@ == db_fallback(home@));
        assert(picks_first(db_candidates(opt_view(env_db), opt_view(xdg_data_home), home@), flags@, db_fallback(home@), r@));
    }
    r
}

/// The first candidate whose flag is set; `fallback` where none is.
pub fn pick_first(candidates: &Vec<String>, exists: &Vec<bool>, fallback: &String) -> (r: String)
    ensures
        picks_first(views(candidates@), exists@, fallback@, r@),
{
    let n = candidates.len();
    let mut i: usize = 0;
    while i < n
        invariant
            i <= n,
            n == candidates.len(),
            forall|j: int| 0 <= j < i ==> !marked(exists@, j),
        decreases n - i,
    {
        if i < exists.len() && exists[i] {
            proof {
                assert(views(candidates@)[i as int] == candidates@[i as int]@);
                assert(marked(exists@, i as int));
            }
            return candidates[i].clone();
        }
        i += 1;
    }
    fallback.clone()
}

} // verus!
