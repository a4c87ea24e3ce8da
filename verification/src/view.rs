use crate::graph::{lemma_position_of, lemma_position_of_none, position_of, Graph, Node};
use crate::text::{chars_of, concat, string_of};
use vstd::prelude::*;

verus! {

/// How many colour themes there are.
pub const THEME_COUNT: usize = 11;

/// The names of the colour themes, in the order `T` cycles through them.
pub open spec fn theme_names() -> Seq<Seq<char>> {
    seq![
        "Salvia"@,
        "Bokeh"@,
        "Stem"@,
        "Petal"@,
        "Azure"@,
        "Ruby"@,
        "Obsidian"@,
        "Forest"@,
        "Ocean"@,
        "Ember"@,
        "Mono"@,
    ]
}

/// The name of theme `i`.
pub fn theme_name(i: usize) -> (s: String)
    requires
        i < THEME_COUNT,
    ensures
        s@ == theme_names()[i as int],
{
    if i == 0 {
        "Salvia".to_string()
    } else if i == 1 {
        "Bokeh".to_string()
    } else if i == 2 {
        "Stem".to_string()
    } else if i == 3 {
        "Petal".to_string()
    } else if i == 4 {
        "Azure".to_string()
    } else if i == 5 {
        "Ruby".to_string()
    } else if i == 6 {
        "Obsidian".to_string()
    } else if i == 7 {
        "Forest".to_string()
    } else if i == 8 {
        "Ocean".to_string()
    } else if i == 9 {
        "Ember".to_string()
    } else {
        "Mono".to_string()
    }
}

/// The keys the viewer answers to; every other key is `Other`.
#[derive(PartialEq, Eq, Structural, Clone, Copy, Debug)]
pub enum Key {
    Q,
    Escape,
    T,
    P,
    D,
    O,
    G,
    A,
    V,
    F,
    W,
    R,
    L,
    H,
    Slash,
    Tab,
    Enter,
    Space,
    Backspace,
    Other,
}

/// The layouts `V` cycles through.
#[derive(PartialEq, Eq, Structural, Clone, Copy, Debug)]
pub enum Layout {
    /// Shells around the hub, relaxed by the forces.
    Disk,
    /// Shells as columns from left to right.
    Column,
    /// The spanning tree from the top down.
    Tree,
}

/// The layout numbered `mode` (0 disk, 1 column, 2 tree).
pub open spec fn layout_of(mode: int) -> Layout {
    if mode == 1 {
        Layout::Column
    } else if mode == 2 {
        Layout::Tree
    } else {
        Layout::Disk
    }
}

/// What the window has to do after a key press, besides the new view state.
pub enum Command {
    Nothing,
    Quit,
    /// Jump to the best match of the search query (`ViewState::commit_search`).
    CommitSearch,
    PausePhysics,
    ResumePhysics,
    /// Move the nodes to `layout`; physics runs on afterwards where `resume`
    /// is set.
    Relayout { layout: Layout, resume: bool },
    Reload,
    ResetView,
    /// Open the node with this id in Emacs.
    Open(String),
}

/// The viewer's filters, toggles, search and selection.
pub struct ViewState {
    pub hide_dailies: bool,
    pub hide_orphans: bool,
    /// 0 for the whole graph, else how many links around the selection are shown.
    pub local_hops: usize,
    pub show_tags: bool,
    pub show_age: bool,
    pub show_fps: bool,
    /// 0 disk, 1 column, 2 tree.
    pub layout_mode: u8,
    pub theme_idx: usize,
    pub search_active: bool,
    pub search_query: String,
    pub selected: Option<String>,
    /// Position of the selection in the node list, -1 for none.
    pub sel_idx: i32,
}

/// The view state as plain values.
pub struct ViewModel {
    pub hide_dailies: bool,
    pub hide_orphans: bool,
    pub local_hops: int,
    pub show_tags: bool,
    pub show_age: bool,
    pub show_fps: bool,
    pub layout_mode: int,
    pub theme_idx: int,
    pub search_active: bool,
    pub search_query: Seq<char>,
    pub selected: Option<Seq<char>>,
    pub sel_idx: int,
}

impl View for ViewState {
    type V = ViewModel;

    open spec fn view(&self) -> ViewModel {
        ViewModel {
            hide_dailies: self.hide_dailies,
            hide_orphans: self.hide_orphans,
            local_hops: self.local_hops as int,
            show_tags: self.show_tags,
            show_age: self.show_age,
            show_fps: self.show_fps,
            layout_mode: self.layout_mode as int,
            theme_idx: self.theme_idx as int,
            search_active: self.search_active,
            search_query: self.search_query@,
            selected: match self.selected {
                Some(s) => Some(s@),
                None => None,
            },
            sel_idx: self.sel_idx as int,
        }
    }
}

/// The fields keep to their ranges.
pub open spec fn model_ok(v: ViewModel) -> bool {
    &&& 0 <= v.local_hops <= 3
    &&& 0 <= v.layout_mode < 3
    &&& 0 <= v.theme_idx < THEME_COUNT
    &&& -1 <= v.sel_idx < i32::MAX
}

/// `s` cut to its first `max` characters and `…` where it is longer.
pub open spec fn shortened(s: Seq<char>, max: nat) -> Seq<char> {
    if s.len() > max {
        s.take(max as int) + "…"@
    } else {
        s
    }
}

/// Cuts `s` to its first `max` characters followed by `…` where it is longer.
pub fn shorten(s: &str, max: usize) -> (r: String)
    ensures
        r@ == shortened(s@, max as nat),
{
    let c = chars_of(s);
    if c.len() > max {
        let mut head: Vec<char> = Vec::new();
        let mut i: usize = 0;
        while i < max
            invariant
                i <= max < c.len(),
                head@ == c@.take(i as int),
            decreases max - i,
        {
            head.push(c[i]);
            proof {
                assert(head@ =~= c@.take(i + 1));
            }
            i += 1;
        }
        let dots = chars_of("…");
        let r = concat(head.as_slice(), dots.as_slice());
        string_of(r.as_slice())
    } else {
        s.to_string()
    }
}

/// The selection index after Tab (`back` false) or Shift-Tab (`back` true)
/// among `n` nodes; at least one place is counted.
pub open spec fn tabbed(sel: int, n: int, back: bool) -> int {
    let m = if n < 1 {
        1
    } else {
        n
    };
    if back {
        (sel - 1) % m
    } else {
        (sel + 1) % m
    }
}

/// The view after a key press. `physics_on` says whether the layout is moving,
/// `ids` are the node ids in order.
pub open spec fn next_view(v: ViewModel, key: Key, shift: bool, ids: Seq<Seq<char>>) -> ViewModel {
    if v.search_active {
        match key {
            Key::Escape => ViewModel { search_active: false, search_query: Seq::empty(), ..v },
            Key::Enter => ViewModel { search_active: false, ..v },
            Key::Backspace => ViewModel {
                search_query: if v.search_query.len() > 0 {
                    v.search_query.drop_last()
                } else {
                    v.search_query
                },
                ..v
            },
            _ => v,
        }
    } else {
        match key {
            Key::T => ViewModel { theme_idx: (v.theme_idx + 1) % (THEME_COUNT as int), ..v },
            Key::D => ViewModel { hide_dailies: !v.hide_dailies, ..v },
            Key::O => ViewModel { hide_orphans: !v.hide_orphans, ..v },
            Key::G => ViewModel { show_tags: !v.show_tags, ..v },
            Key::A => ViewModel { show_age: !v.show_age, ..v },
            Key::F => ViewModel { show_fps: !v.show_fps, ..v },
            Key::V => ViewModel { layout_mode: (v.layout_mode + 1) % 3, ..v },
            Key::L => ViewModel {
                local_hops: if v.local_hops >= 3 {
                    0
                } else {
                    v.local_hops + 1
                },
                ..v
            },
            Key::Slash => ViewModel { search_active: true, search_query: Seq::empty(), ..v },
            Key::Tab => {
                let s = tabbed(v.sel_idx, ids.len() as int, shift);
                ViewModel {
                    sel_idx: s,
                    selected: if 0 <= s < ids.len() {
                        Some(ids[s])
                    } else {
                        None
                    },
                    ..v
                }
            },
            _ => v,
        }
    }
}

/// The message shown briefly after a key press, if any.
pub open spec fn key_popup(
    v: ViewModel,
    key: Key,
    shift: bool,
    physics_on: bool,
    ids: Seq<Seq<char>>,
    titles: Seq<Seq<char>>,
) -> Option<Seq<char>> {
    let w = next_view(v, key, shift, ids);
    if v.search_active {
        None
    } else {
        match key {
            Key::T => Some(theme_names()[w.theme_idx]),
            Key::P => Some(
                if physics_on {
                    "Physics  Paused"@
                } else {
                    "Physics  Active"@
                },
            ),
            Key::D => Some(
                if w.hide_dailies {
                    "Dailies  Hidden"@
                } else {
                    "Dailies  Shown"@
                },
            ),
            Key::O => Some(
                if w.hide_orphans {
                    "Orphans  Hidden"@
                } else {
                    "Orphans  Shown"@
                },
            ),
            Key::G => Some(
                if w.show_tags {
                    "Tag Colors  On"@
                } else {
                    "Tag Colors  Off"@
                },
            ),
            Key::A => Some(
                if w.show_age {
                    "Age View  On"@
                } else {
                    "Age View  Off"@
                },
            ),
            Key::F => Some(
                if w.show_fps {
                    "FPS  On"@
                } else {
                    "FPS  Off"@
                },
            ),
            Key::V => Some(layout_name(w.layout_mode)),
            Key::W => Some("Reloading…"@),
            Key::R => Some("View  Reset"@),
            Key::L => Some(
                if w.local_hops == 0 {
                    "Local Graph  Off"@
                } else if w.local_hops == 1 {
                    "Local Graph  1 Hop"@
                } else if w.local_hops == 2 {
                    "Local Graph  2 Hops"@
                } else {
                    "Local Graph  3 Hops"@
                },
            ),
            Key::Tab => match w.selected {
                Some(id) => match position_of(ids, id) {
                    Some(p) => Some(shortened(titles[p], 28)),
                    None => None,
                },
                None => None,
            },
            Key::Enter | Key::Space => match v.selected {
                Some(_) => Some("Opening in Emacs…"@),
                None => None,
            },
            _ => None,
        }
    }
}

/// The name shown for layout `mode`.
pub open spec fn layout_name(mode: int) -> Seq<char> {
    if mode == 1 {
        "Column"@
    } else if mode == 2 {
        "Tree"@
    } else {
        "Disk"@
    }
}

/// What the window has to do after a key press.
pub open spec fn key_command(v: ViewModel, key: Key, physics_on: bool, c: Command) -> bool {
    let w = next_view(v, key, false, Seq::empty());
    if v.search_active {
        if key == Key::Enter {
            c is CommitSearch
        } else {
            c is Nothing
        }
    } else {
        match key {
            Key::Q | Key::Escape => c is Quit,
            Key::P => if physics_on {
                c is PausePhysics
            } else {
                c is ResumePhysics
            },
            Key::V => c == Command::Relayout { layout: layout_of(w.layout_mode), resume: w.layout_mode == 0 },
            Key::W => c is Reload,
            Key::R => c is ResetView,
            Key::Enter | Key::Space => match v.selected {
                Some(id) => c matches Command::Open(s) && s@ == id,
                None => c is Nothing,
            },
            _ => c is Nothing,
        }
    }
}

/// What a key press leads to besides the new view state.
pub struct KeyOutcome {
    pub command: Command,
    /// The message to show briefly, if any.
    pub popup: Option<String>,
    /// Set in search mode: the rest of this frame's input is dropped.
    pub stop: bool,
}

/// The view of an optional string.
pub open spec fn opt_seq(o: Option<String>) -> Option<Seq<char>> {
    match o {
        Some(s) => Some(s@),
        None => None,
    }
}

impl ViewState {
    /// The start-up view: everything shown, disk layout, first theme, age
    /// colouring on, the frame rate shown as the settings say.
    pub fn new(show_fps: bool) -> (s: Self)
        ensures
            model_ok(s@),
            !s.hide_dailies && !s.hide_orphans && s.local_hops == 0,
            !s.show_tags && s.show_age && s.show_fps == show_fps,
            s.layout_mode == 0 && s.theme_idx == 0,
            !s.search_active && s.search_query@.len() == 0,
            s.selected is None && s.sel_idx == -1,
    {
        ViewState {
            hide_dailies: false,
            hide_orphans: false,
            local_hops: 0,
            show_tags: false,
            show_age: true,
            show_fps,
            layout_mode: 0,
            theme_idx: 0,
            search_active: false,
            search_query: String::new(),
            selected: None,
            sel_idx: -1,
        }
    }

    /// Answers a key press: updates the view and says what else to do.
    /// `shift` is whether Shift is held, `physics_on` whether the layout
    /// is moving.
    pub fn press(&mut self, key: Key, shift: bool, physics_on: bool, graph: &Graph) -> (out: KeyOutcome)
        requires
            model_ok(old(self)@),
            graph.wf(),
            graph.node_list.len() <= i32::MAX,
        ensures
            model_ok(final(self)@),
            final(self)@ == next_view(old(self)@, key, shift, graph.ids()),
            opt_seq(out.popup) == key_popup(
                old(self)@,
                key,
                shift,
                physics_on,
                graph.ids(),
                graph.node_list@.map_values(|n: Node| n.title@),
            ),
            key_command(old(self)@, key, physics_on, out.command),
            out.stop == old(self).search_active,
    {
        let ghost ids = graph.ids();
        if self.search_active {
            let mut command = Command::Nothing;
            match key {
                Key::Escape => {
                    self.search_active = false;
                    self.search_query = String::new();
                },
                Key::Enter => {
                    command = Command::CommitSearch;
                    self.search_active = false;
                },
                Key::Backspace => {
                    self.pop_query();
                },
                _ => {},
            }
            return KeyOutcome { command, popup: None, stop: true };
        }
        match key {
            Key::Q | Key::Escape => KeyOutcome { command: Command::Quit, popup: None, stop: false },
            Key::T => {
                self.theme_idx = (self.theme_idx + 1) % THEME_COUNT;
                KeyOutcome { command: Command::Nothing, popup: Some(theme_name(self.theme_idx)), stop: false }
            },
            Key::P => {
                if physics_on {
                    KeyOutcome {
                        command: Command::PausePhysics,
                        popup: Some("Physics  Paused".to_string()),
                        stop: false,
                    }
                } else {
                    KeyOutcome {
                        command: Command::ResumePhysics,
                        popup: Some("Physics  Active".to_string()),
                        stop: false,
                    }
                }
            },
            Key::D => {
                self.hide_dailies = !self.hide_dailies;
                let m = if self.hide_dailies {
                    "Dailies  Hidden".to_string()
                } else {
                    "Dailies  Shown".to_string()
                };
                KeyOutcome { command: Command::Nothing, popup: Some(m), stop: false }
            },
            Key::O => {
                self.hide_orphans = !self.hide_orphans;
                let m = if self.hide_orphans {
                    "Orphans  Hidden".to_string()
                } else {
                    "Orphans  Shown".to_string()
                };
                KeyOutcome { command: Command::Nothing, popup: Some(m), stop: false }
            },
            Key::G => {
                self.show_tags = !self.show_tags;
                let m = if self.show_tags {
                    "Tag Colors  On".to_string()
                } else {
                    "Tag Colors  Off".to_string()
                };
                KeyOutcome { command: Command::Nothing, popup: Some(m), stop: false }
            },
            Key::A => {
                self.show_age = !self.show_age;
                let m = if self.show_age {
                    "Age View  On".to_string()
                } else {
                    "Age View  Off".to_string()
                };
                KeyOutcome { command: Command::Nothing, popup: Some(m), stop: false }
            },
            Key::F => {
                self.show_fps = !self.show_fps;
                let m = if self.show_fps {
                    "FPS  On".to_string()
                } else {
                    "FPS  Off".to_string()
                };
                KeyOutcome { command: Command::Nothing, popup: Some(m), stop: false }
            },
            Key::V => {
                let (mode, name, resume) = cycle_layout(self.layout_mode);
                self.layout_mode = mode;
                let layout = if mode == 1 {
                    Layout::Column
                } else if mode == 2 {
                    Layout::Tree
                } else {
                    Layout::Disk
                };
                KeyOutcome { command: Command::Relayout { layout, resume }, popup: Some(name), stop: false }
            },
            Key::W => KeyOutcome {
                command: Command::Reload,
                popup: Some("Reloading…".to_string()),
                stop: false,
            },
            Key::R => KeyOutcome {
                command: Command::ResetView,
                popup: Some("View  Reset".to_string()),
                stop: false,
            },
            Key::L => {
                self.local_hops = if self.local_hops >= 3 {
                    0
                } else {
                    self.local_hops + 1
                };
                let m = if self.local_hops == 0 {
                    "Local Graph  Off".to_string()
                } else if self.local_hops == 1 {
                    "Local Graph  1 Hop".to_string()
                } else if self.local_hops == 2 {
                    "Local Graph  2 Hops".to_string()
                } else {
                    "Local Graph  3 Hops".to_string()
                };
                KeyOutcome { command: Command::Nothing, popup: Some(m), stop: false }
            },
            Key::Slash => {
                self.search_active = true;
                self.search_query = String::new();
                KeyOutcome { command: Command::Nothing, popup: None, stop: false }
            },
            Key::Tab => {
                let popup = self.tab(shift, graph);
                KeyOutcome { command: Command::Nothing, popup, stop: false }
            },
            Key::Enter | Key::Space => {
                match &self.selected {
                    Some(id) => KeyOutcome {
                        command: Command::Open(id.clone()),
                        popup: Some("Opening in Emacs…".to_string()),
                        stop: false,
                    },
                    None => KeyOutcome { command: Command::Nothing, popup: None, stop: false },
                }
            },
            _ => KeyOutcome { command: Command::Nothing, popup: None, stop: false },
        }
    }

    /// Drops the last character of the search query, if there is one.
    fn pop_query(&mut self)
        ensures
            final(self)@ == (ViewModel {
                search_query: if old(self)@.search_query.len() > 0 {
                    old(self)@.search_query.drop_last()
                } else {
                    old(self)@.search_query
                },
                ..old(self)@
            }),
    {
        let c = chars_of(self.search_query.as_str());
        if c.len() > 0 {
            let mut head: Vec<char> = Vec::new();
            let mut i: usize = 0;
            while i + 1 < c.len()
                invariant
                    i < c.len(),
                    head@ == c@.take(i as int),
                decreases c.len() - i,
            {
                head.push(c[i]);
                proof {
                    assert(head@ =~= c@.take(i + 1));
                }
                i += 1;
            }
            proof {
                assert(head@ =~= c@.drop_last());
            }
            self.search_query = string_of(head.as_slice());
        }
    }

    /// Moves the selection one node on (or back with `back`), and returns the
    /// selected node's title, shortened, to show.
    fn tab(&mut self, back: bool, graph: &Graph) -> (popup: Option<String>)
        requires
            model_ok(old(self)@),
            !old(self).search_active,
            graph.wf(),
            graph.node_list.len() <= i32::MAX,
        ensures
            final(self)@ == next_view(old(self)@, Key::Tab, back, graph.ids()),
            opt_seq(popup) == key_popup(
                old(self)@,
                Key::Tab,
                back,
                false,
                graph.ids(),
                graph.node_list@.map_values(|n: Node| n.title@),
            ),
    {
        let len = graph.node_list.len();
        let n: u64 = if len < 1 {
            1
        } else {
            len as u64
        };
        let t: u64 = if back {
            (self.sel_idx as i64 - 1 + 2 * (n as i64)) as u64
        } else {
            (self.sel_idx as i64 + 1) as u64
        };
        let r: u64 = t % n;
        proof {
            let m = n as int;
            let sel = self.sel_idx as int;
            assert(m >= 1);
            if back {
                assert((sel - 1 + 2 * m) % m == (sel - 1) % m) by (nonlinear_arith)
                    requires
                        m >= 1,
                {
                }
            }
            assert(r == tabbed(sel, len as int, back));
        }
        let s: i32 = r as i32;
        self.sel_idx = s;
        if 0 <= s && (s as usize) < len {
            let id = graph.node_list[s as usize].id.clone();
            self.selected = Some(id);
        } else {
            self.selected = None;
        }
        match &self.selected {
            Some(id) => match graph.nodes.find(id) {
                Some(p) => {
                    proof {
                        lemma_position_of(graph.ids(), id@, p as int);
                        assert(graph.node_list@.map_values(|n: Node| n.title@)[p as int] == graph.node_list@[p as int].title@);
                    }
                    Some(shorten(graph.node_list[p].title.as_str(), 28))
                },
                None => {
                    proof {
                        lemma_position_of_none(graph.ids(), id@);
                    }
                    None
                },
            },
            None => None,
        }
    }
}

/// The layout after `mode`, its name, and whether physics runs on after the
/// move (only for the disk layout).
pub fn cycle_layout(mode: u8) -> (r: (u8, String, bool))
    requires
        mode < 3,
    ensures
        r.0 == (mode + 1) % 3,
        r.1@ == layout_name(r.0 as int),
        r.2 == (r.0 == 0),
{
    let next = (mode + 1) % 3;
    let name = if next == 1 {
        "Column".to_string()
    } else if next == 2 {
        "Tree".to_string()
    } else {
        "Disk".to_string()
    };
    (next, name, next == 0)
}

impl ViewState {
    /// Adds typed text to the search query while a search is open.
    pub fn type_text(&mut self, text: &str)
        ensures
            old(self).search_active ==> final(self)@ == (ViewModel {
                search_query: old(self)@.search_query + text@,
                ..old(self)@
            }),
            !old(self).search_active ==> final(self)@ == old(self)@,
    {
        if self.search_active {
            let a = chars_of(self.search_query.as_str());
            let b = chars_of(text);
            let c = concat(a.as_slice(), b.as_slice());
            self.search_query = string_of(c.as_slice());
        }
    }
}

/// The view after pressing `key` (without Shift) `k` times.
pub open spec fn presses(v: ViewModel, key: Key, k: nat, ids: Seq<Seq<char>>) -> ViewModel
    decreases k,
{
    if k == 0 {
        v
    } else {
        next_view(presses(v, key, (k - 1) as nat, ids), key, false, ids)
    }
}

proof fn lemma_theme_presses(v: ViewModel, k: nat, ids: Seq<Seq<char>>)
    requires
        model_ok(v),
        !v.search_active,
    ensures
        presses(v, Key::T, k, ids) == (ViewModel { theme_idx: (v.theme_idx + k) % (THEME_COUNT as int), ..v }),
    decreases k,
{
    if k > 0 {
        lemma_theme_presses(v, (k - 1) as nat, ids);
        let t = v.theme_idx;
        assert(((t + (k - 1)) % 11 + 1) % 11 == (t + k) % 11) by (nonlinear_arith)
            requires
                k >= 1,
        {
        }
    } else {
        assert(v.theme_idx % 11 == v.theme_idx);
    }
}

/// Pressing `T` once per theme brings back the theme one started from, and
/// changes nothing else.
pub proof fn law_themes_cycle(v: ViewModel, ids: Seq<Seq<char>>)
    requires
        model_ok(v),
        !v.search_active,
    ensures
        presses(v, Key::T, THEME_COUNT as nat, ids) == v,
{
    lemma_theme_presses(v, THEME_COUNT as nat, ids);
    assert((v.theme_idx + 11) % 11 == v.theme_idx);
}

/// Pressing `V` three times brings back the layout one started from
/// (disk, column, tree, disk).
pub proof fn law_layouts_cycle(v: ViewModel, ids: Seq<Seq<char>>)
    requires
        model_ok(v),
        !v.search_active,
    ensures
        presses(v, Key::V, 3, ids) == v,
{
    reveal_with_fuel(presses, 4);
}

/// Pressing `L` four times brings back the local-graph setting (off, one,
/// two, three hops, off).
pub proof fn law_hops_cycle(v: ViewModel, ids: Seq<Seq<char>>)
    requires
        model_ok(v),
        !v.search_active,
    ensures
        presses(v, Key::L, 4, ids) == v,
{
    reveal_with_fuel(presses, 5);
}

/// The toggles (`D`, `O`, `G`, `A`, `F`) undo themselves: pressing one twice
/// leaves the view as it was.
pub proof fn law_toggles_undo(v: ViewModel, key: Key, ids: Seq<Seq<char>>)
    requires
        !v.search_active,
        key == Key::D || key == Key::O || key == Key::G || key == Key::A || key == Key::F,
    ensures
        next_view(next_view(v, key, false, ids), key, false, ids) == v,
{
}

/// Outside a search, Enter and Space both open the selected note: the same
/// command (open the selected id) and the same message.
pub proof fn law_enter_opens_like_space(
    v: ViewModel,
    shift: bool,
    physics_on: bool,
    ids: Seq<Seq<char>>,
    titles: Seq<Seq<char>>,
    c: Command,
)
    requires
        !v.search_active,
        v.selected is Some,
    ensures
        key_popup(v, Key::Enter, shift, physics_on, ids, titles) == Some("Opening in Emacs…"@),
        key_popup(v, Key::Space, shift, physics_on, ids, titles) == Some("Opening in Emacs…"@),
        key_command(v, Key::Enter, physics_on, c) <==> key_command(v, Key::Space, physics_on, c),
        key_command(v, Key::Enter, physics_on, c) <==> (c matches Command::Open(s) && s@ == v.selected->0),
{
}

/// Shift-Tab after Tab comes back to the node selected before.
pub proof fn law_tab_back(v: ViewModel, ids: Seq<Seq<char>>)
    requires
        model_ok(v),
        !v.search_active,
        0 <= v.sel_idx < ids.len(),
        v.selected == Some(ids[v.sel_idx]),
    ensures
        next_view(next_view(v, Key::Tab, false, ids), Key::Tab, true, ids) == v,
{
    let n = ids.len() as int;
    let s = v.sel_idx;
    assert(((s + 1) % n - 1) % n == s) by (nonlinear_arith)
        requires
            0 <= s < n,
    {
    }
}

/// Opening a search and cancelling it with Escape leaves an empty, closed
/// search and everything else as it was.
pub proof fn law_search_cancel(v: ViewModel, ids: Seq<Seq<char>>)
    requires
        !v.search_active,
    ensures
        next_view(next_view(v, Key::Slash, false, ids), Key::Escape, false, ids) == (ViewModel {
            search_query: Seq::empty(),
            ..v
        }),
{
}

/// While a search is open, keys touch only the search: the filters, toggles,
/// layout, theme and selection stay as they are.
pub proof fn law_search_keeps_view(v: ViewModel, key: Key, shift: bool, ids: Seq<Seq<char>>)
    requires
        v.search_active,
    ensures
        ({
            let w = next_view(v, key, shift, ids);
            w == ViewModel { search_active: w.search_active, search_query: w.search_query, ..v }
        }),
{
}

/// How close two clicks on one node must be to open it, in milliseconds.
pub const DOUBLE_CLICK_MS: u64 = 350;

/// A press on node `id` at `now_ms` completes a double click: the previous
/// click, at `last_ms`, hit the same node less than `DOUBLE_CLICK_MS` before
/// (a clock that reads earlier counts as no time passed).
pub open spec fn double_click(last: Option<(Seq<char>, u64)>, id: Seq<char>, now_ms: u64) -> bool {
    match last {
        Some((lid, t)) => lid == id && (if now_ms >= t {
            now_ms - t
        } else {
            0
        }) < DOUBLE_CLICK_MS,
        None => false,
    }
}

/// Whether a press on node `id` at `now_ms` completes a double click.
pub fn is_double_click(last: &Option<(String, u64)>, id: &String, now_ms: u64) -> (r: bool)
    ensures
        r == double_click(
            match last {
                Some((s, t)) => Some((s@, *t)),
                None => None,
            },
            id@,
            now_ms,
        ),
{
    match last {
        Some((lid, t)) => {
            let gap = if now_ms >= *t {
                now_ms - *t
            } else {
                0
            };
            lid.eq(id) && gap < DOUBLE_CLICK_MS
        },
        None => false,
    }
}

impl ViewState {
    /// Selects node `id` (clicked or dragged): `sel_idx` is its first
    /// position, -1 where the graph lacks it.
    pub fn select(&mut self, id: &String, graph: &Graph)
        requires
            graph.n() <= i32::MAX,
        ensures
            final(self).selected matches Some(s) && s@ == id@,
            graph.ids().contains(id@) ==> crate::filters::first_position(graph.ids(), id@, final(self).sel_idx as int),
            !graph.ids().contains(id@) ==> final(self).sel_idx == -1,
            final(self)@ == (ViewModel { selected: final(self)@.selected, sel_idx: final(self)@.sel_idx, ..old(self)@ }),
    {
        let n = graph.node_list.len();
        let mut p: usize = 0;
        while p < n && !graph.node_list[p].id.eq(id)
            invariant
                p <= n,
                n == graph.n(),
                forall|k: int| 0 <= k < p ==> graph.ids()[k] != id@,
            decreases n - p,
        {
            proof {
                assert(graph.ids()[p as int] == graph.node_list@[p as int].id@);
            }
            p += 1;
        }
        if p < n {
            proof {
                assert(graph.ids()[p as int] == graph.node_list@[p as int].id@);
            }
            self.sel_idx = p as i32;
        } else {
            self.sel_idx = -1;
        }
        self.selected = Some(id.clone());
    }

    /// Drops the selection (a click on empty space).
    pub fn clear_selection(&mut self)
        ensures
            final(self)@ == (ViewModel { selected: None, sel_idx: -1, ..old(self)@ }),
    {
        self.selected = None;
        self.sel_idx = -1;
    }
}

} // verus!
