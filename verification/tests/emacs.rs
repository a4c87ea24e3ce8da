use navi_core::config::legacy_config_path_in;
use navi_core::emacs::{
    after_which, client_place, configured_client, emacs_args, escape_lisp, find_emacs_socket, first_found_place,
    lookup_after, lookup_start, open_result, probe_answer, socket_place_list, which_path, Lookup, SocketEnv,
    CLIENT_PLACES,
};
use navi_core::graph::Node;
use navi_core::EmacsClient;

fn s(x: &str) -> String {
    x.to_string()
}

fn node(file: &str, level: i64, pos: i64) -> Node {
    Node {
        id: s("n1"),
        title: s("T"),
        file: s(file),
        level,
        pos,
        mtime: 0,
        aliases: Vec::new(),
        tags: Vec::new(),
        degree: 0,
    }
}

fn env() -> SocketEnv {
    SocketEnv {
        server_socket: None,
        server_file: None,
        runtime_dir: Some(s("/run/user/7")),
        temp_dirs: vec![s("/var/tmp/")],
        user_temp_dirs: vec![s("/var/folders/ab/cd/T")],
        uid: 501,
    }
}

#[test]
fn lisp_escaping() {
    assert_eq!(escape_lisp("a\"b\\c"), "a\\\"b\\\\c");
    assert_eq!(escape_lisp("plain"), "plain");
}

#[test]
fn arguments_for_a_file() {
    let a = emacs_args("/n/a \"b\".org", 0, 55, None);
    assert_eq!(
        a,
        vec![
            s("--no-wait"),
            s("--alternate-editor="),
            s("--eval"),
            s("(progn (find-file \"/n/a \\\"b\\\".org\") (delete-other-windows) (when (display-graphic-p) (raise-frame)))"),
        ]
    );
}

#[test]
fn arguments_for_a_heading() {
    let a = emacs_args("/n/a.org", 2, 1234, Some("/tmp/emacs501/server"));
    assert_eq!(a[0], "--socket-name");
    assert_eq!(a[1], "/tmp/emacs501/server");
    assert_eq!(
        a[5],
        "(progn (find-file \"/n/a.org\") (goto-char 1234) (delete-other-windows) (when (display-graphic-p) (raise-frame)))"
    );
    let b = emacs_args("/n/a.org", 2, 0, None);
    assert!(!b[3].contains("goto-char"));
}

#[test]
fn missing_files_are_reported() {
    let c = EmacsClient { binary: s("emacsclient"), server_name: s("server") };
    assert_eq!(c.open_args(&node("", 0, 0), None), Err(s("File not found: ")));
    assert_eq!(
        c.open_args(&node("/no/such/file.org", 0, 0), None),
        Err(s("File not found: /no/such/file.org"))
    );
    assert_eq!(c.open_args(&node("/", 1, 3), None).unwrap()[3], "(progn (find-file \"/\") (goto-char 3) (delete-other-windows) (when (display-graphic-p) (raise-frame)))");
}

#[test]
fn client_is_configured_or_found() {
    let c = EmacsClient::new("", "work", || s("found"));
    assert_eq!(c.binary, "found");
    assert_eq!(c.server_name, "work");
    let c = EmacsClient::new("/", "server", || s("found"));
    assert_eq!(c.binary, "/");
    let c = EmacsClient::new("/no/such/emacsclient", "server", || s("found"));
    assert_eq!(c.binary, "found");
}

#[test]
fn client_search_steps() {
    assert_eq!(CLIENT_PLACES, 11);
    assert_eq!(client_place(9), "~/.local/bin/emacsclient");
    match lookup_after(0, Some("  /\n"), "/h") {
        Lookup::Found(p) => assert_eq!(p, "/"),
        _ => panic!("expected a find"),
    }
    match lookup_after(10, Some("\n"), "/h") {
        Lookup::Found(p) => assert_eq!(p, "emacsclient"),
        _ => panic!("expected the plain name"),
    }
    match lookup_after(10, None, "/h") {
        Lookup::Found(p) => assert_eq!(p, "emacsclient"),
        _ => panic!("expected the plain name"),
    }
    match lookup_start("/h") {
        Lookup::Found(p) => assert_eq!(p, "emacsclient"),
        Lookup::Ask { index, name } => {
            assert_eq!(index, 0);
            assert_eq!(name, "emacsclient");
        }
    }
}

#[test]
fn socket_places_in_order() {
    let v = socket_place_list(&env(), "work");
    assert_eq!(
        v,
        vec![
            s("/run/user/7/emacs/work"),
            s("/run/user/7/emacs/server"),
            s("/var/tmp/emacs501/work"),
            s("/var/tmp/emacs501/server"),
            s("/tmp/emacs501/work"),
            s("/tmp/emacs501/server"),
            s("/private/tmp/emacs501/work"),
            s("/private/tmp/emacs501/server"),
            s("/var/folders/ab/cd/T/emacs501/work"),
            s("/var/folders/ab/cd/T/emacs501/server"),
        ]
    );
    let w = socket_place_list(&SocketEnv { server_socket: Some(s("/s")), server_file: Some(s("/f")), runtime_dir: None, temp_dirs: Vec::new(), user_temp_dirs: Vec::new(), uid: 0 }, "server");
    assert_eq!(w, vec![s("/s"), s("/f"), s("/tmp/emacs0/server"), s("/private/tmp/emacs0/server")]);
}

#[test]
fn socket_from_environment() {
    let e = SocketEnv { server_socket: Some(s("/no/such/socket")), server_file: Some(s("/")), ..env() };
    assert_eq!(find_emacs_socket(&e, "server"), Some(s("/")));
}

#[test]
fn earlier_settings_file() {
    assert_eq!(legacy_config_path_in("/home/ada"), "/home/ada/.config/org-roam-graph/config.json");
}

#[test]
fn search_steps_follow_the_disk() {
    match probe_answer(9, "/home/ada", true) {
        Lookup::Found(p) => assert_eq!(p, "/home/ada/.local/bin/emacsclient"),
        _ => panic!("an existing place is taken"),
    }
    match probe_answer(3, "/h", false) {
        Lookup::Ask { index, name } => {
            assert_eq!(index, 3);
            assert_eq!(name, "/usr/bin/emacsclient");
        }
        _ => panic!("a missing place asks which"),
    }
    assert_eq!(which_path(Some("  /usr/bin/emacsclient\n")), Some(s("/usr/bin/emacsclient")));
    assert_eq!(which_path(Some(" \n")), None);
    assert_eq!(which_path(None), None);
    match after_which(2, Some(s("/opt/ec")), true, "/h", false) {
        Lookup::Found(p) => assert_eq!(p, "/opt/ec"),
        _ => panic!("an existing answer is taken"),
    }
    match after_which(2, Some(s("/opt/ec")), false, "/h", true) {
        Lookup::Found(p) => assert_eq!(p, "/usr/bin/emacsclient"),
        _ => panic!("the next existing place is taken"),
    }
    match after_which(2, None, false, "/h", false) {
        Lookup::Ask { index, .. } => assert_eq!(index, 3),
        _ => panic!("the next missing place asks which"),
    }
    match after_which(10, None, false, "/h", true) {
        Lookup::Found(p) => assert_eq!(p, "emacsclient"),
        _ => panic!("the plain name comes last"),
    }
}

#[test]
fn configured_client_is_kept() {
    assert_eq!(configured_client("/opt/ec", true), Some(s("/opt/ec")));
    assert_eq!(configured_client("/opt/ec", false), None);
    assert_eq!(configured_client("", true), None);
}

#[test]
fn opening_depends_on_the_file() {
    assert_eq!(open_result(&node("/n/a.org", 0, 0), None, false), Err(s("File not found: /n/a.org")));
    assert_eq!(open_result(&node("", 0, 0), None, true), Err(s("File not found: ")));
    assert_eq!(open_result(&node("/n/a.org", 0, 0), Some("/sock"), true), Ok(emacs_args("/n/a.org", 0, 0, Some("/sock"))));
}

#[test]
fn first_existing_socket_place() {
    let places = socket_place_list(&SocketEnv { server_socket: None, server_file: None, runtime_dir: None, temp_dirs: Vec::new(), user_temp_dirs: vec![s("/var/folders/ab/cd/T")], uid: 501 }, "server");
    assert_eq!(first_found_place(&places, &vec![false, false, true]), Some(s("/var/folders/ab/cd/T/emacs501/server")));
    assert_eq!(first_found_place(&places, &vec![false, true, true]), Some(s("/private/tmp/emacs501/server")));
    assert_eq!(first_found_place(&places, &vec![false]), None);
}
