use navi_core::display_link::{LinkStats, UserEvent, _last_vsync, tick_count, vsync_interval};
use navi_core::filters::{
    daily_title_pattern, faded_mask, hidden_mask, hover_marks, in_daily_folder, pick_match, Pattern,
};
use navi_core::graph::Graph;
use navi_core::motion::{jitter_seed, lcg_bits, Motion, StepKind};
use navi_core::pacer::{needs_full_speed, Activity, Pacer, WindowSignal};
use navi_core::status::{build_status, reload_failed, reload_summary};
use navi_core::style::{base_colors, dim, edge_drawn, edge_lit, glow_base, label_alpha, node_colors, node_faded, tag_rim, Rgb};
use navi_core::view::{cycle_layout, is_double_click, shorten, theme_name, Command, Key, Layout, ViewState, THEME_COUNT};
use navi_core::RawNode;

fn s(x: &str) -> String {
    x.to_string()
}

fn raw(id: &str, title: &str, file: &str) -> RawNode {
    RawNode {
        id: s(id),
        title: s(title),
        file: s(file),
        level: 0,
        pos: 0,
        mtime: 0,
        aliases: Vec::new(),
        tags: Vec::new(),
    }
}

fn pairs(v: &[(&str, &str)]) -> Vec<(String, String)> {
    v.iter().map(|(a, b)| (s(a), s(b))).collect()
}

fn sample() -> Graph {
    let mut c = raw("c", "Cooking notes", "/n/c.org");
    c.aliases = vec![s("Recipes")];
    Graph::new(
        vec![
            raw("a", "Alpha", "/n/a.org"),
            raw("b", "2024-05-31", "/n/b.org"),
            c,
            raw("d", "Daybook", "/n/daily/d.org"),
            raw("e", "Lonely", "/n/e.org"),
        ],
        pairs(&[("a", "b"), ("a", "c"), ("c", "d")]),
    )
}

fn press(v: &mut ViewState, k: Key, g: &Graph) -> (Command, Option<String>, bool) {
    let o = v.press(k, false, true, g);
    (o.command, o.popup, o.stop)
}

#[test]
fn toggles_and_their_messages() {
    let g = sample();
    let mut v = ViewState::new(true);
    let (_, p, _) = press(&mut v, Key::D, &g);
    assert!(v.hide_dailies);
    assert_eq!(p.as_deref(), Some("Dailies  Hidden"));
    let (_, p, _) = press(&mut v, Key::D, &g);
    assert!(!v.hide_dailies);
    assert_eq!(p.as_deref(), Some("Dailies  Shown"));
    let (_, p, _) = press(&mut v, Key::O, &g);
    assert_eq!(p.as_deref(), Some("Orphans  Hidden"));
    let (_, p, _) = press(&mut v, Key::G, &g);
    assert_eq!(p.as_deref(), Some("Tag Colors  On"));
    let (_, p, _) = press(&mut v, Key::A, &g);
    assert_eq!(p.as_deref(), Some("Age View  Off"));
    let (_, p, _) = press(&mut v, Key::F, &g);
    assert_eq!(p.as_deref(), Some("FPS  Off"));
}

#[test]
fn themes_cycle_back() {
    let g = sample();
    let mut v = ViewState::new(false);
    let (_, p, _) = press(&mut v, Key::T, &g);
    assert_eq!(p.as_deref(), Some("Bokeh"));
    for _ in 1..THEME_COUNT {
        press(&mut v, Key::T, &g);
    }
    assert_eq!(v.theme_idx, 0);
    assert_eq!(theme_name(10), "Mono");
}

#[test]
fn local_graph_cycles() {
    let g = sample();
    let mut v = ViewState::new(false);
    let msgs: Vec<Option<String>> = (0..4).map(|_| press(&mut v, Key::L, &g).1).collect();
    assert_eq!(
        msgs,
        vec![
            Some(s("Local Graph  1 Hop")),
            Some(s("Local Graph  2 Hops")),
            Some(s("Local Graph  3 Hops")),
            Some(s("Local Graph  Off"))
        ]
    );
    assert_eq!(v.local_hops, 0);
}

#[test]
fn layouts_cycle() {
    let g = sample();
    let mut v = ViewState::new(false);
    let (c, p, _) = press(&mut v, Key::V, &g);
    assert!(matches!(c, Command::Relayout { layout: Layout::Column, resume: false }));
    assert_eq!(p.as_deref(), Some("Column"));
    let (c, p, _) = press(&mut v, Key::V, &g);
    assert!(matches!(c, Command::Relayout { layout: Layout::Tree, resume: false }));
    assert_eq!(p.as_deref(), Some("Tree"));
    let (c, p, _) = press(&mut v, Key::V, &g);
    assert!(matches!(c, Command::Relayout { layout: Layout::Disk, resume: true }));
    assert_eq!(p.as_deref(), Some("Disk"));
    assert_eq!(cycle_layout(2), (0, s("Disk"), true));
}

#[test]
fn physics_quit_reload_reset() {
    let g = sample();
    let mut v = ViewState::new(false);
    let o = v.press(Key::P, false, true, &g);
    assert!(matches!(o.command, Command::PausePhysics));
    assert_eq!(o.popup.as_deref(), Some("Physics  Paused"));
    let o = v.press(Key::P, false, false, &g);
    assert!(matches!(o.command, Command::ResumePhysics));
    assert_eq!(o.popup.as_deref(), Some("Physics  Active"));
    assert!(matches!(press(&mut v, Key::Q, &g).0, Command::Quit));
    assert!(matches!(press(&mut v, Key::Escape, &g).0, Command::Quit));
    let (c, p, _) = press(&mut v, Key::W, &g);
    assert!(matches!(c, Command::Reload));
    assert_eq!(p.as_deref(), Some("Reloading…"));
    let (c, p, _) = press(&mut v, Key::R, &g);
    assert!(matches!(c, Command::ResetView));
    assert_eq!(p.as_deref(), Some("View  Reset"));
    let (c, p, _) = press(&mut v, Key::Enter, &g);
    assert!(matches!(c, Command::Nothing));
    assert_eq!(p, None);
}

#[test]
fn tab_walks_the_nodes() {
    let g = sample();
    let mut v = ViewState::new(false);
    let (_, p, _) = press(&mut v, Key::Tab, &g);
    assert_eq!(v.sel_idx, 0);
    assert_eq!(v.selected.as_deref(), Some("a"));
    assert_eq!(p.as_deref(), Some("Alpha"));
    press(&mut v, Key::Tab, &g);
    let o = v.press(Key::Tab, true, true, &g);
    assert_eq!(v.sel_idx, 0);
    assert_eq!(o.popup.as_deref(), Some("Alpha"));
    v.press(Key::Tab, true, true, &g);
    assert_eq!(v.sel_idx, 4);
    assert_eq!(v.selected.as_deref(), Some("e"));
    let (c, p, _) = press(&mut v, Key::Space, &g);
    assert!(matches!(c, Command::Open(ref id) if id == "e"));
    assert_eq!(p.as_deref(), Some("Opening in Emacs…"));
}

#[test]
fn tab_on_an_empty_graph() {
    let g = Graph::new(Vec::new(), Vec::new());
    let mut v = ViewState::new(false);
    let (_, p, _) = press(&mut v, Key::Tab, &g);
    assert_eq!(v.sel_idx, 0);
    assert_eq!(v.selected, None);
    assert_eq!(p, None);
}

#[test]
fn long_titles_are_shortened() {
    assert_eq!(shorten("abcdef", 3), "abc…");
    assert_eq!(shorten("abc", 3), "abc");
    assert_eq!(shorten("ééééé", 2), "éé…");
}

#[test]
fn search_mode_keys() {
    let g = sample();
    let mut v = ViewState::new(false);
    press(&mut v, Key::Slash, &g);
    assert!(v.search_active);
    v.type_text("co");
    v.type_text("x");
    let (c, p, stop) = press(&mut v, Key::Backspace, &g);
    assert!(matches!(c, Command::Nothing));
    assert_eq!(p, None);
    assert!(stop);
    assert_eq!(v.search_query, "co");
    let (_, _, stop) = press(&mut v, Key::D, &g);
    assert!(stop);
    assert!(!v.hide_dailies);
    let (c, _, _) = press(&mut v, Key::Enter, &g);
    assert!(matches!(c, Command::CommitSearch));
    assert!(!v.search_active);
    let hidden = vec![false; 5];
    let hit = v.commit_search(&g, &hidden);
    assert_eq!(hit, Some(2));
    assert_eq!(v.selected.as_deref(), Some("c"));
    assert_eq!(v.sel_idx, 2);
    assert_eq!(v.search_query, "");
    press(&mut v, Key::Slash, &g);
    v.type_text("zzz");
    press(&mut v, Key::Escape, &g);
    assert!(!v.search_active);
    assert_eq!(v.search_query, "");
    v.type_text("ignored");
    assert_eq!(v.search_query, "");
}

#[test]
fn search_prefers_title_starts() {
    let g = sample();
    let hidden = vec![false; 5];
    let q: Vec<char> = "a".chars().collect();
    assert_eq!(pick_match(&g, &hidden, &q), Some(0));
    let q: Vec<char> = "o".chars().collect();
    assert_eq!(pick_match(&g, &hidden, &q), Some(2));
    let q: Vec<char> = "recipe".chars().collect();
    assert_eq!(pick_match(&g, &hidden, &q), Some(2));
    let q: Vec<char> = "day".chars().collect();
    assert_eq!(pick_match(&g, &hidden, &q), Some(3));
    let hidden = vec![false, false, false, true, false];
    assert_eq!(pick_match(&g, &hidden, &q), None);
}

#[test]
fn search_is_case_blind() {
    let g = sample();
    let mut v = ViewState::new(false);
    v.search_query = s("ALP");
    let hidden = vec![false; 5];
    assert_eq!(v.commit_search(&g, &hidden), Some(0));
    v.search_query = String::new();
    assert_eq!(v.commit_search(&g, &hidden), None);
    assert_eq!(v.selected.as_deref(), Some("a"));
}

#[test]
fn daily_notes_are_recognised() {
    let p = Pattern::new(&daily_title_pattern()).unwrap();
    assert!(p.is_match("2024-05-31"));
    assert!(!p.is_match("2024-5-31"));
    assert!(!p.is_match("x2024-05-31"));
    assert!(Pattern::new("(").is_none());
    assert!(in_daily_folder("/n/daily/d.org"));
    assert!(in_daily_folder("C:\\notes\\journals\\x.org"));
    assert!(in_daily_folder("journal"));
    assert!(!in_daily_folder("/n/dailyx/d.org"));
    assert!(!in_daily_folder("/n/my-daily/d.org"));
}

#[test]
fn hidden_nodes() {
    let g = sample();
    let p = Pattern::new(&daily_title_pattern()).unwrap();
    assert_eq!(hidden_mask(&g, true, false, &p), vec![false, true, false, true, false]);
    assert_eq!(hidden_mask(&g, false, true, &p), vec![false, false, false, false, true]);
    assert_eq!(hidden_mask(&g, false, false, &p), vec![false; 5]);
}

#[test]
fn faded_nodes() {
    let g = sample();
    let none = vec![false; 5];
    assert_eq!(faded_mask(&g, &none, "", 0, &None), vec![false; 5]);
    assert_eq!(faded_mask(&g, &none, "ALPHA", 0, &None), vec![false, true, true, true, true]);
    assert_eq!(faded_mask(&g, &none, "", 1, &Some(s("a"))), vec![false, false, false, true, true]);
    assert_eq!(faded_mask(&g, &none, "", 1, &None), vec![false; 5]);
    assert_eq!(faded_mask(&g, &none, "", 2, &Some(s("zz"))), vec![true; 5]);
    let hidden = vec![false, false, true, false, false];
    assert_eq!(faded_mask(&g, &hidden, "o", 1, &Some(s("a"))), vec![true, true, false, true, true]);
}

#[test]
fn wider_local_graph_fades_less() {
    let g = sample();
    let none = vec![false; 5];
    let one = faded_mask(&g, &none, "", 1, &Some(s("a")));
    let two = faded_mask(&g, &none, "", 2, &Some(s("a")));
    assert_eq!(two, vec![false, false, false, false, true]);
    for j in 0..5 {
        assert!(!two[j] || one[j]);
    }
}

#[test]
fn hover_neighbours() {
    let g = sample();
    assert_eq!(hover_marks(&g, &Some(s("c"))), vec![true, false, true, true, false]);
    assert_eq!(hover_marks(&g, &None), vec![false; 5]);
    assert_eq!(hover_marks(&g, &Some(s("zz"))), vec![false; 5]);
}

#[test]
fn status_lines() {
    let g = sample();
    let mut v = ViewState::new(false);
    assert_eq!(build_status(&v, &g, None), "  5 Nodes  ·  3 Edges");
    v.show_tags = true;
    v.hide_dailies = true;
    v.local_hops = 2;
    assert_eq!(build_status(&v, &g, None), "  5 Nodes  ·  3 Edges  ·  Tags:On  Daily:On  Local:2hop");
    v.selected = Some(s("c"));
    assert_eq!(
        build_status(&v, &g, None),
        "  Cooking notes  ·  5 Nodes  ·  3 Edges  ·  Tags:On  Daily:On  Local:2hop"
    );
    assert_eq!(build_status(&v, &g, Some("Reloading…")), "  Reloading…");
    v.search_active = true;
    v.search_query = s("co");
    assert_eq!(build_status(&v, &g, Some("x")), "  Search: co█   ESC: Cancel  Enter: Jump");
}

#[test]
fn status_cuts_long_titles() {
    let long = "x".repeat(60);
    let g = Graph::new(vec![raw("a", &long, "/f")], Vec::new());
    let mut v = ViewState::new(false);
    v.selected = Some(s("a"));
    assert_eq!(build_status(&v, &g, None), format!("  {}  ·  1 Nodes  ·  0 Edges", "x".repeat(52)));
}

#[test]
fn reload_messages() {
    let old = vec![s("a"), s("b"), s("c")];
    let new = vec![s("b"), s("c"), s("d"), s("e")];
    assert_eq!(reload_summary(&old, &new, 7), "Reloaded — 4 nodes  7 edges  +2/−1");
    assert_eq!(reload_summary(&old, &old, 0), "Reloaded — 3 nodes  0 edges");
    assert_eq!(reload_failed("no such table"), "Reload failed: no such table");
}

#[test]
fn selection_survives_reload() {
    let g = sample();
    let mut v = ViewState::new(false);
    v.selected = Some(s("d"));
    v.sel_idx = 0;
    v.keep_selection(&g);
    assert_eq!(v.sel_idx, 3);
    v.selected = Some(s("gone"));
    v.keep_selection(&g);
    assert_eq!(v.selected, None);
    assert_eq!(v.sel_idx, -1);
}

#[test]
fn clicks_and_selection() {
    let g = sample();
    let mut v = ViewState::new(false);
    v.select(&s("c"), &g);
    assert_eq!(v.selected.as_deref(), Some("c"));
    assert_eq!(v.sel_idx, 2);
    v.clear_selection();
    assert_eq!(v.selected, None);
    assert_eq!(v.sel_idx, -1);
    let last = Some((s("c"), 1000));
    assert!(is_double_click(&last, &s("c"), 1349));
    assert!(!is_double_click(&last, &s("c"), 1350));
    assert!(!is_double_click(&last, &s("d"), 1001));
    assert!(is_double_click(&last, &s("c"), 10));
    assert!(!is_double_click(&None, &s("c"), 10));
}

#[test]
fn colours() {
    let c = Rgb { r: 10, g: 100, b: 250 };
    assert_eq!(dim(c, 70), Rgb { r: 0, g: 30, b: 180 });
    assert_eq!(tag_rim(c), Rgb { r: 48, g: 138, b: 255 });
    let node = Rgb { r: 1, g: 2, b: 3 };
    let rim = Rgb { r: 4, g: 5, b: 6 };
    assert_eq!(base_colors(true, Some(c), node, rim), (c, tag_rim(c)));
    assert_eq!(base_colors(false, Some(c), node, rim), (node, rim));
    assert_eq!(base_colors(true, None, node, rim), (node, rim));
    let hov = Rgb { r: 200, g: 200, b: 200 };
    assert_eq!(node_colors(c, rim, rim, hov, false, true, true), (rim, hov));
    assert_eq!(node_colors(c, rim, rim, hov, true, true, false), (rim, c));
    assert_eq!(node_colors(c, rim, rim, hov, false, false, true), (dim(rim, 70), dim(c, 70)));
}

#[test]
fn what_is_drawn_faded_or_lit() {
    assert!(node_faded(true, false, false, false, false));
    assert!(node_faded(false, true, false, false, false));
    assert!(!node_faded(false, true, true, false, false));
    assert!(!node_faded(false, true, false, true, false));
    assert!(edge_drawn(false, false, true, false));
    assert!(!edge_drawn(false, false, true, true));
    assert!(!edge_drawn(true, false, false, false));
    assert!(edge_lit(true, true, false, false));
    assert!(edge_lit(false, true, true, false));
    assert!(!edge_lit(true, false, true, false));
    assert_eq!(label_alpha(200, false), Some(200));
    assert_eq!(label_alpha(200, true), Some(40));
    assert_eq!(label_alpha(24, true), None);
    assert_eq!(label_alpha(4, false), None);
    assert_eq!(glow_base(true), 3);
    assert_eq!(glow_base(false), 9);
}

#[test]
fn full_speed_rules() {
    let still = Activity { physics_on: false, layout_animating: false, coasting: false, pan_dragging: false, node_dragging: false };
    assert!(!needs_full_speed(&still, false, 0, 10));
    assert!(needs_full_speed(&still, true, 9, 10));
    assert!(!needs_full_speed(&still, true, 10, 10));
    let moving = Activity { node_dragging: true, ..still };
    assert!(needs_full_speed(&moving, false, 100, 10));
}

#[test]
fn paints_are_paced() {
    let mut p = Pacer::new();
    assert_eq!(p.begin_paint(10_000, true, None), Some(None));
    assert_eq!(p.begin_paint(11_999, true, None), None);
    assert_eq!(p.begin_paint(5_000, true, None), None);
    assert_eq!(p.begin_paint(12_000, false, None), Some(Some(45_000)));
    let mut q = Pacer::new();
    assert_eq!(q.begin_paint(0, true, Some(16_667)), Some(None));
    assert_eq!(q.begin_paint(5_000, true, Some(16_667)), None);
    assert_eq!(q.begin_paint(8_332, true, Some(16_667)), None);
    assert_eq!(q.begin_paint(8_333, true, Some(16_667)), Some(None));
    assert_eq!(q.begin_paint(10_000, true, Some(0)), None);
    assert!(p.is_idle());
    let plan = p.on_event(WindowSignal::Input);
    assert!(plan.touch && plan.request_redraw && plan.forward);
    let plan = p.on_event(WindowSignal::Focused(true));
    assert!(plan.request_redraw);
    assert_eq!(plan.focus, Some(true));
    p.on_wake();
    assert!(!p.is_idle());
    let plan = p.on_event(WindowSignal::Input);
    assert!(plan.touch && !plan.request_redraw);
    let plan = p.on_event(WindowSignal::CloseRequested);
    assert!(plan.exit && !plan.forward);
    let plan = p.on_event(WindowSignal::RedrawRequested);
    assert!(plan.paint && !plan.forward);
    let plan = p.on_event(WindowSignal::Resized);
    assert!(plan.resize && plan.forward);
}

#[test]
fn display_link_counters() {
    let mut st = LinkStats::new();
    assert_eq!(vsync_interval(&st), None);
    assert_eq!(_last_vsync(&st), None);
    assert_eq!(tick_count(&st), 0);
    st.record_tick(5_000_000, Some(4166));
    st.record_tick(9_166_000, None);
    assert_eq!(vsync_interval(&st), Some(4166));
    assert_eq!(_last_vsync(&st), Some(9_166_000));
    assert_eq!(tick_count(&st), 2);
    st.ticks = u64::MAX;
    st.record_tick(1, None);
    assert_eq!(tick_count(&st), 0);
    assert!(matches!(UserEvent::Vsync, UserEvent::Vsync));
}

#[test]
fn motion_settles_and_transitions() {
    let mut m = Motion::new();
    assert_eq!(m.start_step(0, false), StepKind::Nothing);
    for _ in 0..90 {
        assert_eq!(m.start_step(3, false), StepKind::Forces);
        m.end_forces(true);
        assert!(m.physics_on);
    }
    assert_eq!(m.start_step(3, false), StepKind::Forces);
    m.end_forces(true);
    assert!(!m.physics_on);
    assert_eq!(m.settle_frames, 0);
    assert_eq!(m.start_step(3, false), StepKind::Holding);
    assert_eq!(m.step_count, 92);
    m.begin_layout_transition(false);
    assert!(m.is_layout_animating());
    assert_eq!(m.start_step(3, false), StepKind::Transition);
    assert_eq!(m.start_step(3, true), StepKind::Arrived { resume: false });
    assert!(!m.physics_on);
    m.begin_layout_transition(true);
    assert_eq!(m.start_step(3, true), StepKind::Arrived { resume: true });
    assert!(m.physics_on);
    m.end_forces(false);
    assert_eq!(m.settle_frames, 0);
}

#[test]
fn jitter_numbers() {
    assert_eq!(lcg_bits(0), 704440937934064);
    assert_eq!(lcg_bits(12345), 986996338168104);
    assert_eq!(jitter_seed(0, 7), 7);
    assert_eq!(jitter_seed(1, 1), 6364136223846793006);
}
