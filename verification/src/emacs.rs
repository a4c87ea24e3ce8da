use crate::config::{expand_tilde_in, join_path, marked, path_exists, path_join, tilde_expanded};
use crate::graph::Node;
use crate::text::{chars_of, concat, concat_text, decimal, number_text, string_of, trim_spaces, trimmed, views};
use vstd::prelude::*;

verus! {

/// How Emacs is reached: the `emacsclient` program and the server's name.
pub struct EmacsClient {
    pub binary: String,
    pub server_name: String,
}

/// Where `emacsclient` is looked for, in order (`~` for home).
pub open spec fn client_places() -> Seq<Seq<char>> {
    seq![
        "emacsclient"@,
        "/opt/homebrew/bin/emacsclient"@,
        "/usr/local/bin/emacsclient"@,
        "/usr/bin/emacsclient"@,
        "/opt/local/bin/emacsclient"@,
        "/Applications/Emacs.app/Contents/MacOS/bin/emacsclient"@,
        "/Applications/Emacs.app/Contents/MacOS/emacsclient"@,
        "/run/current-system/sw/bin/emacsclient"@,
        "/snap/bin/emacsclient"@,
        "~/.local/bin/emacsclient"@,
        "~/.nix-profile/bin/emacsclient"@,
    ]
}

/// How many places are tried for `emacsclient`.
pub const CLIENT_PLACES: usize = 11;

/// Place `i` where `emacsclient` is looked for.
pub fn client_place(i: usize) -> (s: String)
    requires
        i < CLIENT_PLACES,
    ensures
        s@ == client_places()[i as int],
{
    if i == 0 {
        "emacsclient".to_string()
    } else if i == 1 {
        "/opt/homebrew/bin/emacsclient".to_string()
    } else if i == 2 {
        "/usr/local/bin/emacsclient".to_string()
    } else if i == 3 {
        "/usr/bin/emacsclient".to_string()
    } else if i == 4 {
        "/opt/local/bin/emacsclient".to_string()
    } else if i == 5 {
        "/Applications/Emacs.app/Contents/MacOS/bin/emacsclient".to_string()
    } else if i == 6 {
        "/Applications/Emacs.app/Contents/MacOS/emacsclient".to_string()
    } else if i == 7 {
        "/run/current-system/sw/bin/emacsclient".to_string()
    } else if i == 8 {
        "/snap/bin/emacsclient".to_string()
    } else if i == 9 {
        "~/.local/bin/emacsclient".to_string()
    } else {
        "~/.nix-profile/bin/emacsclient".to_string()
    }
}

/// The next step of the search for `emacsclient`.
pub enum Lookup {
    /// The program to use.
    Found(String),
    /// Ask `which` for `name` (place `index`) and hand its output to
    /// `lookup_after`.
    Ask { index: usize, name: String },
}

/// `r` ends the search with the program `s`.
pub open spec fn found(r: Lookup, s: Seq<char>) -> bool {
    r matches Lookup::Found(x) && x@ == s
}

/// The step after trying place `i` on disk, `exists` saying whether the
/// place (below `home`) exists: `Found` with it where it does, else ask
/// `which` about its name.
pub open spec fn probe_is(i: int, home: Seq<char>, exists: bool, r: Lookup) -> bool {
    if exists {
        found(r, tilde_expanded(client_places()[i], home))
    } else {
        r matches Lookup::Ask { index, name } && index == i && name@ == client_places()[i]
    }
}

/// The step after trying place `i`, whose existence on disk is `exists`.
pub fn probe_answer(i: usize, home: &str, exists: bool) -> (r: Lookup)
    requires
        i < CLIENT_PLACES,
    ensures
        probe_is(i as int, home@, exists, r),
{
    let name = client_place(i);
    if exists {
        Lookup::Found(expand_tilde_in(name.as_str(), home))
    } else {
        Lookup::Ask { index: i, name }
    }
}

/// Whether place `i` (below `home`) exists on disk.
fn place_exists(i: usize, home: &str) -> bool
    requires
        i < CLIENT_PLACES,
{
    let name = client_place(i);
    let p = expand_tilde_in(name.as_str(), home);
    path_exists(p.as_str())
}

/// Starts the search for `emacsclient` with the first place: found there
/// where it exists on disk, else ask `which`.
pub fn lookup_start(home: &str) -> (r: Lookup)
    ensures
        exists|e: bool| #[trigger] probe_is(0, home@, e, r),
{
    let e = place_exists(0, home);
    let r = probe_answer(0, home, e);
    assert(probe_is(0, home@, e, r));
    r
}

/// The path `which` printed: its output trimmed, where that is not empty.
pub open spec fn which_path_of(answer: Option<Seq<char>>) -> Option<Seq<char>> {
    match answer {
        Some(a) => if trimmed(a).len() > 0 {
            Some(trimmed(a))
        } else {
            None
        },
        None => None,
    }
}

/// The path in `which`'s output `answer` (`None` where it could not run).
pub fn which_path(answer: Option<&str>) -> (r: Option<String>)
    ensures
        crate::view::opt_seq(r) == which_path_of(crate::config::opt_view(answer)),
{
    match answer {
        Some(a) => {
            let t = trim_spaces(&chars_of(a));
            if t.len() > 0 {
                Some(string_of(t.as_slice()))
            } else {
                None
            }
        },
        None => None,
    }
}

/// The step after `which` answered about place `index`: the path it named
/// (`checked`) where that exists (`checked_exists`); else the next place,
/// whose existence is `next_exists`; else plain `emacsclient`.
pub open spec fn after_which_is(
    index: int,
    checked: Option<Seq<char>>,
    checked_exists: bool,
    home: Seq<char>,
    next_exists: bool,
    r: Lookup,
) -> bool {
    if checked is Some && checked_exists {
        found(r, checked->0)
    } else if index + 1 < CLIENT_PLACES {
        probe_is(index + 1, home, next_exists, r)
    } else {
        found(r, "emacsclient"@)
    }
}

/// The step after `which` answered about place `index`, given what exists.
pub fn after_which(
    index: usize,
    checked: Option<String>,
    checked_exists: bool,
    home: &str,
    next_exists: bool,
) -> (r: Lookup)
    requires
        index < CLIENT_PLACES,
    ensures
        after_which_is(index as int, crate::view::opt_seq(checked), checked_exists, home@, next_exists, r),
{
    if let Some(s) = checked {
        if checked_exists {
            return Lookup::Found(s);
        }
    }
    if index + 1 < CLIENT_PLACES {
        probe_answer(index + 1, home, next_exists)
    } else {
        Lookup::Found("emacsclient".to_string())
    }
}

/// Goes on after `which` answered `answer` (its output, `None` where it
/// could not run) about place `index`: its trimmed answer where that is a
/// path that exists, else the next place as `lookup_start` tries the first,
/// else plain `emacsclient`. What exists is looked up on disk.
pub fn lookup_after(index: usize, answer: Option<&str>, home: &str) -> (r: Lookup)
    requires
        index < CLIENT_PLACES,
    ensures
        exists|ce: bool, ne: bool|
            #[trigger] after_which_is(
                index as int,
                which_path_of(crate::config::opt_view(answer)),
                ce,
                home@,
                ne,
                r,
            ),
{
    let checked = which_path(answer);
    let ce = match &checked {
        Some(s) => path_exists(s.as_str()),
        None => false,
    };
    let ne = if checked.is_some() && ce {
        false
    } else if index + 1 < CLIENT_PLACES {
        place_exists(index + 1, home)
    } else {
        false
    };
    let ghost c = crate::view::opt_seq(checked);
    let r = after_which(index, checked, ce, home, ne);
    assert(after_which_is(index as int, c, ce, home@, ne, r));
    r
}

/// The configured program where it is given (`cfg`) and exists (`exists`).
pub open spec fn configured(cfg: Seq<char>, exists: bool) -> Option<Seq<char>> {
    if cfg.len() > 0 && exists {
        Some(cfg)
    } else {
        None
    }
}

/// The configured program where it is given and exists on disk (`exists`).
pub fn configured_client(cfg_binary: &str, exists: bool) -> (r: Option<String>)
    ensures
        crate::view::opt_seq(r) == configured(cfg_binary@, exists),
{
    if chars_of(cfg_binary).len() > 0 && exists {
        Some(cfg_binary.to_string())
    } else {
        None
    }
}

/// What opening `node` comes to, `exists` saying whether its file exists:
/// the `emacsclient` arguments where the file is given and exists, else the
/// error naming it.
pub open spec fn open_outcome(node: Node, socket: Option<Seq<char>>, exists: bool, r: Result<Vec<String>, String>) -> bool {
    if node.file@.len() > 0 && exists {
        r matches Ok(args) && views(args@) == client_args(node.file@, node.level, node.pos, socket)
    } else {
        r matches Err(e) && e@ == "File not found: "@ + node.file@
    }
}

/// The outcome of opening `node`, given whether its file exists.
pub fn open_result(node: &Node, socket: Option<&str>, exists: bool) -> (r: Result<Vec<String>, String>)
    ensures
        open_outcome(*node, crate::config::opt_view(socket), exists, r),
{
    if chars_of(node.file.as_str()).len() == 0 || !exists {
        return Err(concat_text("File not found: ", node.file.as_str()));
    }
    Ok(emacs_args(node.file.as_str(), node.level, node.pos, socket))
}

impl EmacsClient {
    /// The client for `server_name`: the configured program where it is
    /// given and exists on disk (`configured_client`), else what `detect`
    /// finds (called only then).
    pub fn new<F: FnOnce() -> String>(cfg_binary: &str, server_name: &str, detect: F) -> (c: Self)
        requires
            call_requires(detect, ()),
        ensures
            c.server_name@ == server_name@,
            exists|e: bool|
                match #[trigger] configured(cfg_binary@, e) {
                    Some(b) => c.binary@ == b,
                    None => call_ensures(detect, (), c.binary),
                },
            cfg_binary@.len() == 0 ==> call_ensures(detect, (), c.binary),
    {
        let given = chars_of(cfg_binary).len() > 0;
        let e = given && path_exists(cfg_binary);
        let binary = match configured_client(cfg_binary, e) {
            Some(b) => b,
            None => detect(),
        };
        let c = EmacsClient { binary, server_name: server_name.to_string() };
        assert(match configured(cfg_binary@, e) {
            Some(b) => c.binary@ == b,
            None => call_ensures(detect, (), c.binary),
        });
        c
    }

    /// The arguments for `emacsclient` that open `node` (see `client_args`),
    /// or the error where its file is not given or does not exist on disk
    /// (`open_result`).
    pub fn open_args(&self, node: &Node, socket: Option<&str>) -> (r: Result<Vec<String>, String>)
        ensures
            exists|e: bool| #[trigger] open_outcome(*node, crate::config::opt_view(socket), e, r),
            node.file@.len() == 0 ==> r is Err,
    {
        let e = chars_of(node.file.as_str()).len() > 0 && path_exists(node.file.as_str());
        let r = open_result(node, socket, e);
        assert(open_outcome(*node, crate::config::opt_view(socket), e, r));
        r
    }
}

/// `c` as it stands inside an Emacs Lisp string: backslash and double quote
/// get a backslash before them.
pub open spec fn escape_char(c: char) -> Seq<char> {
    if c == '\\' {
        seq!['\\', '\\']
    } else if c == '"' {
        seq!['\\', '"']
    } else {
        seq![c]
    }
}

/// `s` with every character escaped.
pub open spec fn escaped(s: Seq<char>) -> Seq<char>
    decreases s.len(),
{
    if s.len() == 0 {
        Seq::empty()
    } else {
        escaped(s.drop_last()) + escape_char(s.last())
    }
}

/// ` (goto-char POS)` for a heading (`level` and `pos` above zero), else nothing.
pub open spec fn goto_part(level: i64, pos: i64) -> Seq<char> {
    if level > 0 && pos > 0 {
        " (goto-char "@ + decimal(pos as nat) + ")"@
    } else {
        Seq::empty()
    }
}

/// The Lisp that opens `file` at the heading, alone in the frame, and raises it.
pub open spec fn open_lisp(file: Seq<char>, level: i64, pos: i64) -> Seq<char> {
    "(progn (find-file \""@ + escaped(file) + "\")"@ + goto_part(level, pos)
        + " (delete-other-windows) (when (display-graphic-p) (raise-frame)))"@
}

/// The arguments for `emacsclient`: the socket where one was found, then
/// no waiting, no other editor, and the Lisp to run.
pub open spec fn client_args(file: Seq<char>, level: i64, pos: i64, socket: Option<Seq<char>>) -> Seq<Seq<char>> {
    let head: Seq<Seq<char>> = match socket {
        Some(s) => seq!["--socket-name"@, s],
        None => Seq::empty(),
    };
    head + seq!["--no-wait"@, "--alternate-editor="@, "--eval"@, open_lisp(file, level, pos)]
}

/// Escapes `s` for an Emacs Lisp string.
pub fn escape_lisp(s: &str) -> (r: String)
    ensures
        r@ == escaped(s@),
{
    let c = chars_of(s);
    let mut out: Vec<char> = Vec::new();
    let mut i: usize = 0;
    while i < c.len()
        invariant
            i <= c.len(),
            out@ == escaped(c@.take(i as int)),
        decreases c.len() - i,
    {
        let ch = c[i];
        if ch == '\\' {
            out.push('\\');
            out.push('\\');
        } else if ch == '"' {
            out.push('\\');
            out.push('"');
        } else {
            out.push(ch);
        }
        proof {
            let t = c@.take(i + 1);
            assert(t.drop_last() =~= c@.take(i as int));
            assert(t.last() == ch);
            assert(out@ =~= escaped(c@.take(i as int)) + escape_char(ch));
        }
        i += 1;
    }
    proof {
        assert(c@.take(c.len() as int) =~= c@);
    }
    string_of(out.as_slice())
}

/// The arguments for `emacsclient` that open `file` at `pos` (for a heading).
pub fn emacs_args(file: &str, level: i64, pos: i64, socket: Option<&str>) -> (r: Vec<String>)
    ensures
        views(r@) == client_args(file@, level, pos, crate::config::opt_view(socket)),
{
    let mut r: Vec<String> = Vec::new();
    if let Some(s) = socket {
        r.push("--socket-name".to_string());
        r.push(s.to_string());
    }
    r.push("--no-wait".to_string());
    r.push("--alternate-editor=".to_string());
    r.push("--eval".to_string());
    let path = escape_lisp(file);
    let goto = if level > 0 && pos > 0 {
        let a = concat_text(" (goto-char ", number_text(pos as u64).as_str());
        concat_text(a.as_str(), ")")
    } else {
        String::new()
    };
    let a = concat_text("(progn (find-file \"", path.as_str());
    let b = concat_text(a.as_str(), "\")");
    let c = concat_text(b.as_str(), goto.as_str());
    let d = concat_text(c.as_str(), " (delete-other-windows) (when (display-graphic-p) (raise-frame)))");
    proof {
        assert(goto@ == goto_part(level, pos));
        assert(d@ =~= open_lisp(file@, level, pos));
    }
    r.push(d);
    proof {
        assert(views(r@) =~= client_args(file@, level, pos, crate::config::opt_view(socket)));
    }
    r
}

/// The environment the socket search reads: `$EMACS_SERVER_SOCKET`,
/// `$EMACS_SERVER_FILE`, `$XDG_RUNTIME_DIR`, the set ones of `$TMPDIR`,
/// `$TMP`, `$TEMP` in that order, the per-user temporary folders of macOS
/// (`/var/folders/*/*/T`, which a GUI app's `$TMPDIR` may not name), and the
/// user id.
pub struct SocketEnv {
    pub server_socket: Option<String>,
    pub server_file: Option<String>,
    pub runtime_dir: Option<String>,
    pub temp_dirs: Vec<String>,
    pub user_temp_dirs: Vec<String>,
    pub uid: u32,
}

/// The server names tried: the configured one, then `server`.
pub open spec fn server_names(server_name: Seq<char>) -> Seq<Seq<char>> {
    if server_name != "server"@ {
        seq![server_name, "server"@]
    } else {
        seq!["server"@]
    }
}

/// The places of the server socket under each of `bases`, for each name:
/// `BASE/emacsUID/NAME`.
pub open spec fn temp_sockets(bases: Seq<Seq<char>>, uid: nat, names: Seq<Seq<char>>) -> Seq<Seq<char>>
    decreases bases.len(),
{
    if bases.len() == 0 {
        Seq::empty()
    } else {
        temp_sockets(bases.drop_last(), uid, names) + names.map_values(
            |nm: Seq<char>| path_join(path_join(bases.last(), "emacs"@ + decimal(uid)), nm),
        )
    }
}

/// Where the Emacs server socket may be, in the order tried: the
/// environment's socket and server file, the runtime folder, then each
/// temporary folder (those of the environment, `/tmp`, `/private/tmp`, the
/// per-user ones).
pub open spec fn socket_places(
    server_socket: Option<Seq<char>>,
    server_file: Option<Seq<char>>,
    runtime_dir: Option<Seq<char>>,
    temp_dirs: Seq<Seq<char>>,
    user_temp_dirs: Seq<Seq<char>>,
    uid: nat,
    server_name: Seq<char>,
) -> Seq<Seq<char>> {
    let env: Seq<Seq<char>> = (match server_socket {
        Some(s) => seq![s],
        None => Seq::empty(),
    }) + (match server_file {
        Some(s) => seq![s],
        None => Seq::empty(),
    });
    let names = server_names(server_name);
    let runtime: Seq<Seq<char>> = match runtime_dir {
        Some(x) => names.map_values(|nm: Seq<char>| x + "/emacs/"@ + nm),
        None => Seq::empty(),
    };
    env + runtime + temp_sockets(temp_dirs + seq!["/tmp"@, "/private/tmp"@] + user_temp_dirs, uid, names)
}

impl SocketEnv {
    /// The places to try for the socket of `server_name`.
    pub open spec fn places(&self, server_name: Seq<char>) -> Seq<Seq<char>> {
        socket_places(
            match self.server_socket {
                Some(s) => Some(s@),
                None => None,
            },
            match self.server_file {
                Some(s) => Some(s@),
                None => None,
            },
            match self.runtime_dir {
                Some(s) => Some(s@),
                None => None,
            },
            views(self.temp_dirs@),
            views(self.user_temp_dirs@),
            self.uid as nat,
            server_name,
        )
    }
}

/// `r` is the first of `places` whose flag is set, or none where none is.
pub open spec fn first_found(places: Seq<Seq<char>>, exists: Seq<bool>, r: Option<Seq<char>>) -> bool {
    ||| exists|k: int|
        0 <= k < places.len() && #[trigger] marked(exists, k) && (forall|j: int| 0 <= j < k ==> !marked(exists, j))
            && r == Some(places[k])
    ||| (forall|j: int| 0 <= j < places.len() ==> !marked(exists, j)) && r is None
}

/// The server names tried.
fn server_name_list(server_name: &str) -> (v: Vec<String>)
    ensures
        views(v@) == server_names(server_name@),
{
    let mut v: Vec<String> = Vec::new();
    let a = chars_of(server_name);
    let b = chars_of("server");
    let mut same = a.len() == b.len();
    let mut i: usize = 0;
    while same && i < a.len()
        invariant
            same ==> a.len() == b.len(),
            i <= a.len(),
            same ==> forall|k: int| 0 <= k < i ==> a@[k] == b@[k],
            !same ==> a@ != b@,
        decreases a.len() - i,
    {
        if a[i] != b[i] {
            same = false;
        }
        i += 1;
    }
    proof {
        if same {
            assert(a@ =~= b@);
        }
    }
    if !same {
        v.push(server_name.to_string());
    }
    v.push("server".to_string());
    proof {
        assert(views(v@) =~= server_names(server_name@));
    }
    v
}

/// The places to try for the server socket.
pub fn socket_place_list(env: &SocketEnv, server_name: &str) -> (v: Vec<String>)
    ensures
        views(v@) == env.places(server_name@),
{
    let names = server_name_list(server_name);
    let mut v: Vec<String> = Vec::new();
    if let Some(s) = &env.server_socket {
        v.push(s.clone());
    }
    if let Some(s) = &env.server_file {
        v.push(s.clone());
    }
    let ghost env_part = views(v@);
    if let Some(x) = &env.runtime_dir {
        let mut k: usize = 0;
        while k < names.len()
            invariant
                k <= names.len(),
                views(v@) == env_part + views(names@).take(k as int).map_values(
                    |nm: Seq<char>| x@ + "/emacs/"@ + nm,
                ),
            decreases names.len() - k,
        {
            let a = concat_text(x.as_str(), "/emacs/");
            let p = concat_text(a.as_str(), names[k].as_str());
            let ghost before = views(v@);
            v.push(p);
            proof {
                let f = |nm: Seq<char>| x@ + "/emacs/"@ + nm;
                assert(views(v@) =~= before.push(p@));
                assert(views(names@).take(k + 1) =~= views(names@).take(k as int).push(names@[k as int]@));
                assert(views(names@).take(k + 1).map_values(f) =~= views(names@).take(k as int).map_values(f).push(
                    f(names@[k as int]@),
                ));
            }
            k += 1;
        }
        proof {
            assert(views(names@).take(names.len() as int) =~= views(names@));
        }
    }
    let ghost before_temp = views(v@);
    let mut bases: Vec<String> = Vec::new();
    let mut b: usize = 0;
    while b < env.temp_dirs.len()
        invariant
            b <= env.temp_dirs.len(),
            views(bases@) == views(env.temp_dirs@).take(b as int),
        decreases env.temp_dirs.len() - b,
    {
        let ghost before = views(bases@);
        let d = env.temp_dirs[b].clone();
        bases.push(d);
        proof {
            assert(views(bases@) =~= before.push(d@));
            assert(views(env.temp_dirs@)[b as int] == env.temp_dirs@[b as int]@);
            assert(views(bases@) =~= views(env.temp_dirs@).take(b + 1));
        }
        b += 1;
    }
    bases.push("/tmp".to_string());
    bases.push("/private/tmp".to_string());
    proof {
        assert(views(env.temp_dirs@).take(env.temp_dirs.len() as int) =~= views(env.temp_dirs@));
        assert(views(bases@) =~= views(env.temp_dirs@) + seq!["/tmp"@, "/private/tmp"@]);
    }
    let ghost fixed = views(bases@);
    let mut u: usize = 0;
    while u < env.user_temp_dirs.len()
        invariant
            u <= env.user_temp_dirs.len(),
            views(bases@) == fixed + views(env.user_temp_dirs@).take(u as int),
        decreases env.user_temp_dirs.len() - u,
    {
        let ghost before = views(bases@);
        let d = env.user_temp_dirs[u].clone();
        bases.push(d);
        proof {
            assert(views(bases@) =~= before.push(d@));
            assert(views(env.user_temp_dirs@)[u as int] == env.user_temp_dirs@[u as int]@);
            assert(views(env.user_temp_dirs@).take(u + 1) =~= views(env.user_temp_dirs@).take(u as int).push(
                d@,
            ));
        }
        u += 1;
    }
    proof {
        assert(views(env.user_temp_dirs@).take(env.user_temp_dirs.len() as int) =~= views(env.user_temp_dirs@));
    }
    let dir = concat_text("emacs", number_text(env.uid as u64).as_str());
    let mut i: usize = 0;
    while i < bases.len()
        invariant
            i <= bases.len(),
            dir@ == "emacs"@ + decimal(env.uid as nat),
            views(v@) == before_temp + temp_sockets(views(bases@).take(i as int), env.uid as nat, views(names@)),
        decreases bases.len() - i,
    {
        let ghost start = views(v@);
        let base_dir = string_of(join_path(chars_of(bases[i].as_str()).as_slice(), chars_of(dir.as_str()).as_slice()).as_slice());
        let mut k: usize = 0;
        while k < names.len()
            invariant
                k <= names.len(),
                i < bases.len(),
                base_dir@ == path_join(bases@[i as int]@, dir@),
                views(v@) == start + views(names@).take(k as int).map_values(
                    |nm: Seq<char>| path_join(base_dir@, nm),
                ),
            decreases names.len() - k,
        {
            let p = string_of(join_path(chars_of(base_dir.as_str()).as_slice(), chars_of(names[k].as_str()).as_slice()).as_slice());
            let ghost before = views(v@);
            v.push(p);
            proof {
                let f = |nm: Seq<char>| path_join(base_dir@, nm);
                assert(views(v@) =~= before.push(p@));
                assert(views(names@).take(k + 1) =~= views(names@).take(k as int).push(names@[k as int]@));
                assert(views(names@).take(k + 1).map_values(f) =~= views(names@).take(k as int).map_values(f).push(
                    f(names@[k as int]@),
                ));
            }
            k += 1;
        }
        proof {
            assert(views(names@).take(names.len() as int) =~= views(names@));
            let bs = views(bases@).take(i + 1);
            assert(bs.drop_last() =~= views(bases@).take(i as int));
            assert(bs.last() == bases@[i as int]@);
            assert(views(names@).map_values(|nm: Seq<char>| path_join(base_dir@, nm)) =~= views(names@).map_values(
                |nm: Seq<char>| path_join(path_join(bs.last(), "emacs"@ + decimal(env.uid as nat)), nm),
            ));
        }
        i += 1;
    }
    proof {
        assert(views(bases@).take(bases.len() as int) =~= views(bases@));
        assert(views(v@) =~= env.places(server_name@));
    }
    v
}

/// The first of `places` whose flag in `exists` is set, if any.
pub fn first_found_place(places: &Vec<String>, exists: &Vec<bool>) -> (r: Option<String>)
    ensures
        first_found(views(places@), exists@, crate::view::opt_seq(r)),
{
    let mut i: usize = 0;
    while i < places.len()
        invariant
            i <= places.len(),
            forall|j: int| 0 <= j < i ==> !marked(exists@, j),
        decreases places.len() - i,
    {
        if i < exists.len() && exists[i] {
            proof {
                assert(marked(exists@, i as int));
                assert(views(places@)[i as int] == places@[i as int]@);
            }
            return Some(places[i].clone());
        }
        i += 1;
    }
    None
}

/// Finds the Emacs server socket: the first of `SocketEnv::places` that
/// exists on disk, if any (`first_found_place` over what the disk says).
pub fn find_emacs_socket(env: &SocketEnv, server_name: &str) -> (r: Option<String>)
    ensures
        exists|e: Seq<bool>|
            #[trigger] first_found(env.places(server_name@), e, crate::view::opt_seq(r)),
{
    let places = socket_place_list(env, server_name);
    let mut flags: Vec<bool> = Vec::new();
    let mut i: usize = 0;
    while i < places.len()
        invariant
            i <= places.len(),
        decreases places.len() - i,
    {
        let e = path_exists(places[i].as_str());
        flags.push(e);
        if e {
            break;
        }
        i += 1;
    }
    let r = first_found_place(&places, &flags);
    assert(first_found(env.places(server_name@), flags@, crate::view::opt_seq(r)));
    r
}

} // verus!
