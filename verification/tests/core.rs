use navi_core::config::{
    config_path_in, db_candidate_list, default_server, default_true, detect_db, expand_tilde_in, join_path,
    pick_first, Config,
};
use navi_core::db::{collect_graph, parse_mtime, NodeRow};
use navi_core::graph::Graph;
use navi_core::RawNode;

fn s(x: &str) -> String {
    x.to_string()
}

fn raw(id: &str, title: &str) -> RawNode {
    RawNode {
        id: s(id),
        title: s(title),
        file: format!("/notes/{id}.org"),
        level: 0,
        pos: 0,
        mtime: 0,
        aliases: Vec::new(),
        tags: Vec::new(),
    }
}

fn pairs(v: &[(&str, &str)]) -> Vec<(String, String)> {
    v.iter().map(|(a, b)| (s(a), s(b))).collect()
}

#[test]
fn settings_defaults() {
    assert_eq!(default_server(), "server");
    assert!(default_true());
    let c = Config::default();
    assert_eq!(c.db, "");
    assert_eq!(c.emacsclient, "");
    assert_eq!(c.server_name, "server");
    assert!(c.show_fps);
    assert!(!c.borderless);
}

#[test]
fn settings_are_completed() {
    let c = Config::default().complete(|| s("/found.db"), || s("/bin/ec"));
    assert_eq!(c.db, "/found.db");
    assert_eq!(c.emacsclient, "/bin/ec");
    assert_eq!(c.server_name, "server");
    let given = Config { db: s("~/x.db"), emacsclient: s("ec"), server_name: s("w"), show_fps: false, borderless: true };
    let c = given.complete(|| panic!("not asked"), || panic!("not asked"));
    assert_eq!(c.db, "~/x.db");
    assert_eq!(c.emacsclient, "ec");
    assert_eq!(c.server_name, "w");
    assert!(!c.show_fps);
    assert!(c.borderless);
}

#[test]
fn settings_file_below_home() {
    assert_eq!(config_path_in("/home/ada"), "/home/ada/.config/navi/config.json");
    assert_eq!(config_path_in("/home/ada/"), "/home/ada/.config/navi/config.json");
    assert_eq!(config_path_in(""), ".config/navi/config.json");
    assert!(Config::config_path().ends_with(".config/navi/config.json"));
}

#[test]
fn joining_paths() {
    let a: Vec<char> = "/tmp".chars().collect();
    let b: Vec<char> = "x".chars().collect();
    let abs: Vec<char> = "/etc".chars().collect();
    assert_eq!(join_path(&a, &b).iter().collect::<String>(), "/tmp/x");
    assert_eq!(join_path(&a, &abs).iter().collect::<String>(), "/etc");
    assert_eq!(join_path(&[], &b).iter().collect::<String>(), "x");
}

#[test]
fn tilde_is_expanded() {
    assert_eq!(expand_tilde_in("~/notes/roam.db", "/home/ada"), "/home/ada/notes/roam.db");
    assert_eq!(expand_tilde_in("/abs/roam.db", "/home/ada"), "/abs/roam.db");
    assert_eq!(expand_tilde_in("~user/x", "/home/ada"), "~user/x");
    assert_eq!(expand_tilde_in("~/", ""), "/");
}

#[test]
fn database_places_in_order() {
    let v = db_candidate_list(Some("/env/db"), None, "/h");
    assert_eq!(v.len(), 9);
    assert_eq!(v[0], "/env/db");
    assert_eq!(v[1], "/h/.local/share/emacs/org-roam.db");
    assert_eq!(v[2], "/h/.emacs.d/org-roam.db");
    assert_eq!(v[8], "/h/.spacemacs.d/org-roam.db");
    let w = db_candidate_list(None, Some("/xdg"), "/h");
    assert_eq!(w.len(), 8);
    assert_eq!(w[0], "/xdg/emacs/org-roam.db");
    assert_eq!(w[3], "/h/.config/doom/.local/etc/org-roam.db");
}

#[test]
fn first_existing_place_wins() {
    let c = vec![s("a"), s("b"), s("c")];
    assert_eq!(pick_first(&c, &vec![false, true, true], &s("z")), "b");
    assert_eq!(pick_first(&c, &vec![false, false, false], &s("z")), "z");
    assert_eq!(pick_first(&c, &vec![], &s("z")), "z");
}

#[test]
fn database_from_environment() {
    assert_eq!(detect_db(Some("/"), None), "/");
}

#[test]
fn modification_times() {
    assert_eq!(parse_mtime(None), 0);
    assert_eq!(parse_mtime(Some("")), 0);
    assert_eq!(parse_mtime(Some("1779015285")), 1779015285);
    assert_eq!(parse_mtime(Some("  42 ")), 42);
    assert_eq!(parse_mtime(Some("(26000 12345 0 0)")), 26000 * 65536 + 12345);
    assert_eq!(parse_mtime(Some("(1 x)")), 65536);
    assert_eq!(parse_mtime(Some("(7)")), 0);
    assert_eq!(parse_mtime(Some("nil")), 0);
    assert_eq!(parse_mtime(Some("-5")), -5);
}

fn row(id: &str, title: Option<&str>, mtime: Option<&str>) -> NodeRow {
    NodeRow {
        id: s(id),
        title: title.map(s),
        file: Some(format!("\"/n/{id}.org\"")),
        level: None,
        pos: Some(7),
        mtime: mtime.map(s),
    }
}

#[test]
fn rows_become_nodes_and_links() {
    let rows = vec![row("a", Some("\"Alpha\""), Some("100")), row("b", None, None), row("a", Some("A2"), None)];
    let links = pairs(&[("a", "b"), ("a", "zz"), ("b", "a")]);
    let aliases = pairs(&[("a", "\"Al\""), ("a", "\"\""), ("q", "x")]);
    let tags = pairs(&[("b", "t1"), ("b", ""), ("b", "t2")]);
    let (nodes, kept) = collect_graph(rows, links, aliases, tags);
    assert_eq!(nodes.len(), 2);
    let a = nodes.iter().find(|n| n.id == "a").unwrap();
    let b = nodes.iter().find(|n| n.id == "b").unwrap();
    assert_eq!(a.title, "A2");
    assert_eq!(a.file, "/n/a.org");
    assert_eq!(a.level, 0);
    assert_eq!(a.pos, 7);
    assert_eq!(a.mtime, 0);
    assert_eq!(a.aliases, vec![s("Al")]);
    assert_eq!(b.title, "");
    assert_eq!(b.tags, vec![s("t1"), s("t2")]);
    assert_eq!(kept, pairs(&[("a", "b"), ("b", "a")]));
}

#[test]
fn graph_from_raw_nodes() {
    let g = Graph::new(
        vec![raw("a", "A"), raw("b", ""), raw("0123456789abcdef", "")],
        pairs(&[("a", "b"), ("b", "missing"), ("a", "a")]),
    );
    assert_eq!(g.node_list.len(), 3);
    assert_eq!(g.node_list[1].title, "b");
    assert_eq!(g.node_list[2].title, "0123456789ab");
    assert_eq!(g.edges, vec![(0, 1), (0, 0)]);
    assert_eq!(g.node_list[0].degree, 3);
    assert_eq!(g.node_list[1].degree, 1);
    assert_eq!(g.node_list[2].degree, 0);
    assert_eq!(g.nodes.find(&s("b")), Some(1));
    assert_eq!(g.nodes.find(&s("nope")), None);
}

#[test]
fn tag_list_is_sorted_and_unique() {
    let mut a = raw("a", "A");
    a.tags = vec![s("z"), s("m")];
    let mut b = raw("b", "B");
    b.tags = vec![s("m"), s("a")];
    let g = Graph::new(vec![a, b], Vec::new());
    assert_eq!(g.tag_list, vec![s("a"), s("m"), s("z")]);
}

fn chain() -> Graph {
    Graph::new(
        vec![raw("a", "A"), raw("b", "B"), raw("c", "C"), raw("d", "D"), raw("e", "E")],
        pairs(&[("a", "b"), ("b", "c"), ("c", "d"), ("b", "a")]),
    )
}

#[test]
fn local_graph_by_hops() {
    let g = chain();
    let mut one = g.bfs(&s("a"), 1);
    one.sort();
    assert_eq!(one, vec![s("a"), s("b")]);
    let mut two = g.bfs(&s("a"), 2);
    two.sort();
    assert_eq!(two, vec![s("a"), s("b"), s("c")]);
    let zero = g.bfs(&s("c"), 0);
    assert_eq!(zero, vec![s("c")]);
    let unknown = g.bfs(&s("x"), 3);
    assert_eq!(unknown, vec![s("x")]);
    assert_eq!(g.reach_marks(0, 2), vec![true, true, true, false, false]);
}

#[test]
fn hub_and_tree() {
    let g = chain();
    let h = g.hub();
    assert_eq!(h, 1);
    let t = g.spanning_tree();
    assert_eq!(t.root, 1);
    assert_eq!(t.order[0], 1);
    let mut order = t.order.clone();
    order.sort();
    assert_eq!(order, vec![0, 0, 1, 2, 3]);
    assert_eq!(t.disconnected, vec![4]);
    assert_eq!(t.depth[3], 2);
    let ring = g.ring_order();
    assert_eq!(ring.len(), 6);
    assert_eq!(ring[0], 1);
    assert_eq!(ring[5], 4);
}

#[test]
fn positions_carry_over_by_id() {
    let old = chain();
    let new = Graph::new(vec![raw("e", "E"), raw("new", "N"), raw("a", "A")], Vec::new());
    assert_eq!(new.transplant_map(&old), vec![Some(4), None, Some(0)]);
}

#[test]
fn stable_descending_order() {
    let list = vec![0, 1, 2, 3];
    let key = vec![1, 5, 5, 2];
    assert_eq!(navi_core::layout::sort_desc(&list, &key), vec![1, 2, 3, 0]);
}

#[test]
fn tree_depths_are_distances() {
    let g = chain();
    let t = g.spanning_tree();
    assert_eq!(t.depth, vec![1, 0, 1, 2, 0]);
    for v in [0usize, 2, 3] {
        assert!(t.children.iter().any(|c| c.contains(&v)));
    }
    for (p, cs) in t.children.iter().enumerate() {
        for &c in cs {
            let pi = t.order.iter().position(|&x| x == p).unwrap();
            let ci = t.order.iter().position(|&x| x == c).unwrap();
            assert!(pi < ci);
        }
    }
    assert_eq!(g.ring_order()[..5], t.order[..]);
}

#[test]
fn neighbour_in_an_earlier_shell() {
    let g = chain();
    let l = g.shells(g.hub());
    assert_eq!(g.earlier_neighbour(3, &l.layer_of, 2), Some(2));
    assert_eq!(g.earlier_neighbour(0, &l.layer_of, 1), Some(1));
    assert_eq!(g.earlier_neighbour(1, &l.layer_of, 0), None);
}

fn fork() -> Graph {
    Graph::new(
        vec![raw("a", "A"), raw("b", "B"), raw("y", "Y"), raw("x", "X"), raw("z", "Z"), raw("h", "H")],
        pairs(&[("h", "b"), ("h", "a"), ("h", "z"), ("a", "y"), ("b", "x"), ("a", "x")]),
    )
}

#[test]
fn shells_in_discovery_order() {
    let g = Graph::new(
        vec![raw("a", "A"), raw("b", "B"), raw("y", "Y"), raw("x", "X"), raw("z", "Z"), raw("h", "H")],
        pairs(&[("h", "b"), ("h", "a"), ("h", "z"), ("a", "y"), ("b", "x")]),
    );
    assert_eq!(g.hub(), 5);
    let l = g.shells(5);
    assert_eq!(l.layers, vec![vec![5], vec![1, 0, 4], vec![3, 2]]);
    assert_eq!(l.layer_of, vec![1, 1, 2, 2, 1, 0]);
}

#[test]
fn tree_parent_is_first_reacher() {
    let g = fork();
    assert_eq!(g.hub(), 5);
    let t = g.spanning_tree();
    assert_eq!(t.order, vec![5, 0, 1, 4, 3, 2]);
    assert_eq!(t.children[5], vec![0, 1, 4]);
    assert_eq!(t.children[0], vec![3, 2]);
    assert!(t.children[1].is_empty());
    assert_eq!(t.depth, vec![1, 1, 2, 2, 1, 0]);
    assert_eq!(g.ring_order(), vec![5, 0, 1, 4, 3, 2]);
}
