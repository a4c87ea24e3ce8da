use crate::graph::{lemma_position_of, lemma_position_of_none, position_of, Graph, Node};
use crate::reach::{joined, within};
use crate::text::{begins_with, chars_of, contains_chars, occurs_in, starts_with_chars};
use vstd::prelude::*;

verus! {

/// `regex::Regex`, a compiled expression, declared so that a `Pattern` can
/// hold one; nothing inside it is visible here.
#[verifier::external_type_specification]
#[verifier::external_body]
pub struct ExRegex(regex::Regex);

/// `regex::Error`, why a pattern did not compile; carried, never read.
#[verifier::external_type_specification]
#[verifier::external_body]
pub struct ExRegexError(regex::Error);

/// Whether `regex::Regex::new` accepts `pattern`.
pub uninterp spec fn regex_compiles(pattern: Seq<char>) -> bool;

/// Whether the regular expression `pattern` matches somewhere in `text`
/// (`regex::Regex::is_match`).
pub uninterp spec fn regex_matches(pattern: Seq<char>, text: Seq<char>) -> bool;

/// The lower-case form of `s` (`str::to_lowercase`).
pub uninterp spec fn lowercased(s: Seq<char>) -> Seq<char>;

/// Compiles `pattern` with `regex::Regex::new`. The contract says that it
/// succeeds exactly for the patterns the name `regex_compiles` holds of (a
/// function of the pattern alone, the crate's default size limits being
/// fixed); which patterns those are is not stated.
#[verifier::external_body]
fn compile_regex(pattern: &str) -> (r: Result<regex::Regex, regex::Error>)
    ensures
        r is Ok <==> regex_compiles(pattern@),
{
    regex::Regex::new(pattern)
}

/// `str::to_lowercase`: the contract names the result `lowercased(s)`, a
/// function of `s` alone (Unicode's lower-case mapping); the mapping itself is
/// not stated.
#[verifier::external_body]
fn lowercase(s: &str) -> (r: String)
    ensures
        r@ == lowercased(s@),
{
    s.to_lowercase()
}

/// A compiled regular expression together with its source text.
pub struct Pattern {
    source: String,
    re: regex::Regex,
}

impl View for Pattern {
    type V = Seq<char>;

    closed spec fn view(&self) -> Seq<char> {
        self.source@
    }
}

/// `regex::Regex::is_match` on the expression held by `p`, which was compiled
/// from `p`'s source by `Pattern::new`, the only way to make a `Pattern`. The
/// contract names the answer `regex_matches(source, text)`; which texts a
/// pattern matches is not stated.
#[verifier::external_body]
fn pattern_is_match(p: &Pattern, text: &str) -> (b: bool)
    ensures
        b == regex_matches(p@, text@),
{
    p.re.is_match(text)
}

impl Pattern {
    /// Compiles `source`; `None` where the regex crate refuses it.
    pub fn new(source: &str) -> (r: Option<Pattern>)
        ensures
            r is Some <==> regex_compiles(source@),
            r matches Some(p) ==> p@ == source@,
    {
        match compile_regex(source) {
            Ok(re) => Some(Pattern { source: source.to_string(), re }),
            Err(_) => None,
        }
    }

    /// Whether the expression matches somewhere in `text`.
    pub fn is_match(&self, text: &str) -> (b: bool)
        ensures
            b == regex_matches(self@, text@),
    {
        pattern_is_match(self, text)
    }
}

/// The titles of daily notes: a date such as `2024-05-31` and nothing else.
pub open spec fn daily_title() -> Seq<char> {
    "^\\d{4}-\\d{2}-\\d{2}$"@
}

/// The expression for the titles of daily notes.
pub fn daily_title_pattern() -> (s: String)
    ensures
        s@ == daily_title(),
{
    "^\\d{4}-\\d{2}-\\d{2}$".to_string()
}

/// `c` separates the parts of a path (either slash).
pub open spec fn is_sep(c: char) -> bool {
    c == '/' || c == '\\'
}

/// The folders daily notes live in.
pub open spec fn daily_name(s: Seq<char>) -> bool {
    s == "daily"@ || s == "dailies"@ || s == "journal"@ || s == "journals"@
}

/// `f[i..j]` is one part of the path `f`: bounded by separators or the ends,
/// with none inside.
pub open spec fn part_at(f: Seq<char>, i: int, j: int) -> bool {
    &&& 0 <= i <= j <= f.len()
    &&& (i == 0 || is_sep(f[i - 1]))
    &&& (j == f.len() || is_sep(f[j]))
    &&& forall|k: int| i <= k < j ==> !is_sep(#[trigger] f[k])
}

/// Some part of the path `f` names a daily-notes folder.
pub open spec fn in_daily_dir(f: Seq<char>) -> bool {
    exists|i: int, j: int| #[trigger] part_at(f, i, j) && daily_name(f.subrange(i, j))
}

/// Whether `a` and `b` hold the same characters.
fn same_chars(a: &[char], b: &[char]) -> (r: bool)
    ensures
        r == (a@ == b@),
{
    if a.len() != b.len() {
        return false;
    }
    let mut i: usize = 0;
    while i < a.len()
        invariant
            a.len() == b.len(),
            i <= a.len(),
            forall|k: int| 0 <= k < i ==> a@[k] == b@[k],
        decreases a.len() - i,
    {
        if a[i] != b[i] {
            return false;
        }
        i += 1;
    }
    assert(a@ =~= b@);
    true
}

/// Whether `c[i..j]` names a daily-notes folder.
fn daily_part(c: &Vec<char>, i: usize, j: usize) -> (r: bool)
    requires
        i <= j <= c.len(),
    ensures
        r == daily_name(c@.subrange(i as int, j as int)),
{
    let mut part: Vec<char> = Vec::new();
    let mut k: usize = i;
    while k < j
        invariant
            i <= k <= j <= c.len(),
            part@ == c@.subrange(i as int, k as int),
        decreases j - k,
    {
        part.push(c[k]);
        proof {
            assert(part@ =~= c@.subrange(i as int, k + 1));
        }
        k += 1;
    }
    let s = part.as_slice();
    same_chars(s, chars_of("daily").as_slice()) || same_chars(s, chars_of("dailies").as_slice()) || same_chars(
        s,
        chars_of("journal").as_slice(),
    ) || same_chars(s, chars_of("journals").as_slice())
}

/// Whether some folder on the path `file` is `daily`, `dailies`, `journal`
/// or `journals` (either slash separating the parts).
pub fn in_daily_folder(file: &str) -> (r: bool)
    ensures
        r == in_daily_dir(file@),
{
    let c = chars_of(file);
    let n = c.len();
    let mut start: usize = 0;
    let mut k: usize = 0;
    while k < n
        invariant
            n == c.len(),
            c@ == file@,
            start <= k <= n,
            start == 0 || is_sep(c@[start - 1]),
            forall|q: int| start <= q < k ==> !is_sep(#[trigger] c@[q]),
            forall|i: int, j: int| #[trigger] part_at(c@, i, j) && j < k ==> !daily_name(c@.subrange(i, j)),
        decreases n - k,
    {
        if c[k] == '/' || c[k] == '\\' {
            if daily_part(&c, start, k) {
                proof {
                    assert(part_at(c@, start as int, k as int));
                }
                return true;
            }
            proof {
                assert forall|i: int, j: int| #[trigger] part_at(c@, i, j) && j < k + 1 implies !daily_name(
                    c@.subrange(i, j),
                ) by {
                    if j == k {
                        if i < start {
                            assert(is_sep(c@[start - 1]));
                        } else if i > start {
                            assert(is_sep(c@[i - 1]));
                        }
                    }
                }
            }
            start = k + 1;
        } else {
            proof {
                assert forall|i: int, j: int| #[trigger] part_at(c@, i, j) && j < k + 1 implies !daily_name(
                    c@.subrange(i, j),
                ) by {
                    if j == k {
                        assert(!is_sep(c@[k as int]));
                    }
                }
            }
        }
        k += 1;
    }
    if daily_part(&c, start, n) {
        proof {
            assert(part_at(c@, start as int, n as int));
        }
        return true;
    }
    proof {
        assert(!in_daily_dir(file@)) by {
            if exists|i: int, j: int| #[trigger] part_at(file@, i, j) && daily_name(file@.subrange(i, j)) {
                let (i, j) = choose|i: int, j: int| #[trigger] part_at(file@, i, j) && daily_name(file@.subrange(i, j));
                assert(part_at(c@, i, j));
                if j == n {
                    if i < start {
                        assert(is_sep(c@[start - 1]));
                    } else if i > start {
                        assert(is_sep(c@[i - 1]));
                    }
                }
            }
        }
    }
    false
}

/// Node `i` is hidden: a daily note (date title or daily folder) while
/// dailies are hidden, or a node without links while orphans are hidden.
pub open spec fn hidden_at(g: Graph, i: int, hide_dailies: bool, hide_orphans: bool, dates: Seq<char>) -> bool {
    let n = g.node_list@[i];
    ||| hide_dailies && (regex_matches(dates, n.title@) || in_daily_dir(n.file@))
    ||| hide_orphans && n.degree == 0
}

/// Which nodes are hidden, by position; `dates` recognises daily-note titles.
pub fn hidden_mask(graph: &Graph, hide_dailies: bool, hide_orphans: bool, dates: &Pattern) -> (m: Vec<bool>)
    ensures
        m.len() == graph.n(),
        forall|i: int| 0 <= i < graph.n() ==> #[trigger] m[i] == hidden_at(*graph, i, hide_dailies, hide_orphans, dates@),
{
    let mut m: Vec<bool> = Vec::new();
    let mut i: usize = 0;
    while i < graph.node_list.len()
        invariant
            i <= graph.node_list.len(),
            m.len() == i,
            forall|k: int| 0 <= k < i ==> #[trigger] m[k] == hidden_at(*graph, k, hide_dailies, hide_orphans, dates@),
        decreases graph.node_list.len() - i,
    {
        let nd = &graph.node_list[i];
        let mut h = false;
        if hide_dailies {
            if dates.is_match(nd.title.as_str()) || in_daily_folder(nd.file.as_str()) {
                h = true;
            }
        }
        if hide_orphans && nd.degree == 0 {
            h = true;
        }
        m.push(h);
        i += 1;
    }
    m
}

/// Node `n` answers the lower-case query `q`: it occurs in the lower-case
/// title or in a lower-case alias.
pub open spec fn answers(n: Node, q: Seq<char>) -> bool {
    ||| occurs_in(q, lowercased(n.title@))
    ||| exists|a: int| 0 <= a < n.aliases.len() && occurs_in(q, lowercased(#[trigger] n.aliases@[a]@))
}

/// Node `j` lies within `hops` links of the selected node `sel` (the last
/// node with that id), or is it.
pub open spec fn near(g: Graph, sel: Seq<char>, hops: nat, j: int) -> bool {
    ||| g.ids()[j] == sel
    ||| match position_of(g.ids(), sel) {
        Some(p) => within(g.edges@, p, j, hops),
        None => false,
    }
}

/// Node `j` is drawn faded: it is shown, and a search is typed or the local
/// graph is on, and it misses the search or lies outside the local graph.
pub open spec fn faded_at(
    g: Graph,
    hidden: Seq<bool>,
    query: Seq<char>,
    hops: nat,
    sel: Option<Seq<char>>,
    j: int,
) -> bool {
    let searching = query.len() > 0;
    let local = hops > 0 && sel is Some;
    &&& !hidden[j]
    &&& (searching && !answers(g.node_list@[j], lowercased(query))) || (local && !near(g, sel->0, hops, j))
}

/// Whether node `nd` answers the lower-case query `q`.
fn node_answers(nd: &Node, q: &Vec<char>) -> (r: bool)
    ensures
        r == answers(*nd, q@),
{
    let t = lowercase(nd.title.as_str());
    if contains_chars(chars_of(t.as_str()).as_slice(), q.as_slice()) {
        return true;
    }
    let mut a: usize = 0;
    while a < nd.aliases.len()
        invariant
            a <= nd.aliases.len(),
            !occurs_in(q@, lowercased(nd.title@)),
            forall|b: int| 0 <= b < a ==> !occurs_in(q@, lowercased(#[trigger] nd.aliases@[b]@)),
        decreases nd.aliases.len() - a,
    {
        let l = lowercase(nd.aliases[a].as_str());
        if contains_chars(chars_of(l.as_str()).as_slice(), q.as_slice()) {
            return true;
        }
        a += 1;
    }
    false
}

/// Which nodes are drawn faded, by position, given the hidden ones, the
/// search text, the local-graph depth and the selected id.
pub fn faded_mask(
    graph: &Graph,
    hidden: &Vec<bool>,
    query: &str,
    local_hops: usize,
    selected: &Option<String>,
) -> (m: Vec<bool>)
    requires
        graph.wf(),
        hidden.len() == graph.n(),
    ensures
        m.len() == graph.n(),
        forall|j: int|
            0 <= j < graph.n() ==> #[trigger] m[j] == faded_at(
                *graph,
                hidden@,
                query@,
                local_hops as nat,
                match selected {
                    Some(s) => Some(s@),
                    None => None,
                },
                j,
            ),
{
    let ghost sel = match selected {
        Some(s) => Some(s@),
        None => None::<Seq<char>>,
    };
    let q = chars_of(lowercase(query).as_str());
    let searching = chars_of(query).len() > 0;
    let local = local_hops > 0 && selected.is_some();
    let n = graph.node_list.len();
    let mut near_marks: Vec<bool> = Vec::new();
    let mut start: Option<usize> = None;
    if local {
        let sid = match selected {
            Some(s) => s,
            None => {
                return Vec::new();
            },
        };
        start = graph.nodes.find(sid);
        match start {
            Some(p) => {
                proof {
                    lemma_position_of(graph.ids(), sid@, p as int);
                }
                near_marks = graph.reach_marks(p, local_hops);
            },
            None => {
                proof {
                    lemma_position_of_none(graph.ids(), sid@);
                }
            },
        }
    }
    let mut m: Vec<bool> = Vec::new();
    let mut j: usize = 0;
    while j < n
        invariant
            graph.wf(),
            n == graph.n(),
            hidden.len() == n,
            j <= n,
            m.len() == j,
            q@ == lowercased(query@),
            searching == (query@.len() > 0),
            local == (local_hops > 0 && sel is Some),
            sel == match selected {
                Some(s) => Some(s@),
                None => None,
            },
            local ==> match start {
                Some(p) => near_marks.len() == n && position_of(graph.ids(), sel->0) == Some(p as int) && forall|v: int|
                    0 <= v < n ==> #[trigger] near_marks[v] == within(graph.edges@, p as int, v, local_hops as nat),
                None => position_of(graph.ids(), sel->0) is None,
            },
            forall|k: int|
                0 <= k < j ==> #[trigger] m[k] == faded_at(*graph, hidden@, query@, local_hops as nat, sel, k),
        decreases n - j,
    {
        let mut f = false;
        if !hidden[j] {
            if searching && !node_answers(&graph.node_list[j], &q) {
                f = true;
            }
            if local {
                let is_near = match selected {
                    Some(s) => {
                        if graph.node_list[j].id.eq(s) {
                            true
                        } else {
                            match start {
                                Some(_) => near_marks[j],
                                None => false,
                            }
                        }
                    },
                    None => true,
                };
                proof {
                    assert(graph.ids()[j as int] == graph.node_list@[j as int].id@);
                    assert(is_near == near(*graph, sel->0, local_hops as nat, j as int));
                }
                if !is_near {
                    f = true;
                }
            }
        }
        m.push(f);
        j += 1;
    }
    m
}

/// Node `j` is shown and answers the lower-case query `q`.
pub open spec fn found_at(g: Graph, hidden: Seq<bool>, q: Seq<char>, j: int) -> bool {
    !hidden[j] && answers(g.node_list@[j], q)
}

/// Node `j` is found and its lower-case title begins with `q`.
pub open spec fn found_first_at(g: Graph, hidden: Seq<bool>, q: Seq<char>, j: int) -> bool {
    found_at(g, hidden, q, j) && begins_with(lowercased(g.node_list@[j].title@), q)
}

/// `r` is the search's pick: the first found node whose title begins with
/// the query, else the first found node, else none.
pub open spec fn best_match(g: Graph, hidden: Seq<bool>, q: Seq<char>, r: Option<int>) -> bool {
    match r {
        Some(j) => {
            &&& 0 <= j < g.n()
            &&& found_at(g, hidden, q, j)
            &&& if found_first_at(g, hidden, q, j) {
                forall|k: int| 0 <= k < j ==> !found_first_at(g, hidden, q, k)
            } else {
                &&& forall|k: int| 0 <= k < g.n() ==> !found_first_at(g, hidden, q, k)
                &&& forall|k: int| 0 <= k < j ==> !found_at(g, hidden, q, k)
            }
        },
        None => forall|k: int| 0 <= k < g.n() ==> !found_at(g, hidden, q, k),
    }
}

/// The search's pick for the lower-case query `q`.
pub fn pick_match(graph: &Graph, hidden: &Vec<bool>, q: &Vec<char>) -> (r: Option<usize>)
    requires
        hidden.len() == graph.n(),
    ensures
        best_match(*graph, hidden@, q@, match r {
            Some(j) => Some(j as int),
            None => None,
        }),
{
    let n = graph.node_list.len();
    let mut first_any: Option<usize> = None;
    let mut j: usize = 0;
    while j < n
        invariant
            n == graph.n(),
            hidden.len() == n,
            j <= n,
            forall|k: int| 0 <= k < j ==> !found_first_at(*graph, hidden@, q@, k),
            match first_any {
                Some(a) => a < j && found_at(*graph, hidden@, q@, a as int) && forall|k: int|
                    0 <= k < a ==> !found_at(*graph, hidden@, q@, k),
                None => forall|k: int| 0 <= k < j ==> !found_at(*graph, hidden@, q@, k),
            },
        decreases n - j,
    {
        if !hidden[j] && node_answers(&graph.node_list[j], q) {
            let t = lowercase(graph.node_list[j].title.as_str());
            if starts_with_chars(chars_of(t.as_str()).as_slice(), q.as_slice()) {
                return Some(j);
            }
            if first_any.is_none() {
                first_any = Some(j);
            }
        }
        j += 1;
    }
    first_any
}

/// The first position of `ids` holding `id`.
pub open spec fn first_position(ids: Seq<Seq<char>>, id: Seq<char>, j: int) -> bool {
    &&& 0 <= j < ids.len()
    &&& ids[j] == id
    &&& forall|k: int| 0 <= k < j ==> ids[k] != id
}

impl crate::view::ViewState {
    /// Ends a search: selects the best match for the query (see
    /// `best_match`) among the shown nodes and returns its position so the
    /// view can move to it; the query is emptied either way. An empty query
    /// selects nothing.
    pub fn commit_search(&mut self, graph: &Graph, hidden: &Vec<bool>) -> (r: Option<usize>)
        requires
            hidden.len() == graph.n(),
            graph.n() <= i32::MAX,
        ensures
            final(self).search_query@.len() == 0,
            lowercased(old(self).search_query@).len() == 0 ==> r is None,
            lowercased(old(self).search_query@).len() > 0 ==> best_match(
                *graph,
                hidden@,
                lowercased(old(self).search_query@),
                match r {
                    Some(j) => Some(j as int),
                    None => None,
                },
            ),
            match r {
                Some(j) => {
                    &&& final(self).selected matches Some(s) && s@ == graph.ids()[j as int]
                    &&& first_position(graph.ids(), graph.ids()[j as int], final(self).sel_idx as int)
                },
                None => final(self).selected == old(self).selected && final(self).sel_idx == old(self).sel_idx,
            },
            final(self).hide_dailies == old(self).hide_dailies,
            final(self).hide_orphans == old(self).hide_orphans,
            final(self).local_hops == old(self).local_hops,
            final(self).show_tags == old(self).show_tags,
            final(self).show_age == old(self).show_age,
            final(self).show_fps == old(self).show_fps,
            final(self).layout_mode == old(self).layout_mode,
            final(self).theme_idx == old(self).theme_idx,
            final(self).search_active == old(self).search_active,
    {
        let q = chars_of(lowercase(self.search_query.as_str()).as_str());
        self.search_query = String::new();
        if q.len() == 0 {
            return None;
        }
        let r = pick_match(graph, hidden, &q);
        if let Some(j) = r {
            let id = graph.node_list[j].id.clone();
            let mut p: usize = 0;
            while p < j && !graph.node_list[p].id.eq(&id)
                invariant
                    p <= j < graph.n(),
                    id@ == graph.ids()[j as int],
                    forall|k: int| 0 <= k < p ==> graph.ids()[k] != id@,
                decreases j - p,
            {
                proof {
                    assert(graph.ids()[p as int] == graph.node_list@[p as int].id@);
                }
                p += 1;
            }
            proof {
                assert(graph.ids()[p as int] == graph.node_list@[p as int].id@);
                assert(graph.ids()[j as int] == graph.node_list@[j as int].id@);
            }
            self.selected = Some(id);
            self.sel_idx = p as i32;
        }
        r
    }
}

/// Node `j` is the hovered node `h` (by id) or linked to the last node with
/// that id.
pub open spec fn by_hover(g: Graph, h: Seq<char>, j: int) -> bool {
    ||| g.ids()[j] == h
    ||| match position_of(g.ids(), h) {
        Some(p) => joined(g.edges@, p, j),
        None => false,
    }
}

/// Which nodes are the hovered one or its neighbours, by position; all off
/// where nothing is hovered.
pub fn hover_marks(graph: &Graph, hovered: &Option<String>) -> (m: Vec<bool>)
    requires
        graph.wf(),
    ensures
        m.len() == graph.n(),
        forall|j: int|
            0 <= j < graph.n() ==> #[trigger] m[j] == match hovered {
                Some(h) => by_hover(*graph, h@, j),
                None => false,
            },
{
    let n = graph.node_list.len();
    let mut m: Vec<bool> = Vec::new();
    match hovered {
        None => {
            let mut j: usize = 0;
            while j < n
                invariant
                    j <= n,
                    m.len() == j,
                    forall|k: int| 0 <= k < j ==> !#[trigger] m[k],
                decreases n - j,
            {
                m.push(false);
                j += 1;
            }
            m
        },
        Some(h) => {
            let p = graph.nodes.find(h);
            let near: Vec<bool> = match p {
                Some(p) => {
                    proof {
                        lemma_position_of(graph.ids(), h@, p as int);
                    }
                    graph.reach_marks(p, 1)
                },
                None => {
                    proof {
                        lemma_position_of_none(graph.ids(), h@);
                    }
                    Vec::new()
                },
            };
            let mut j: usize = 0;
            while j < n
                invariant
                    graph.wf(),
                    n == graph.n(),
                    j <= n,
                    m.len() == j,
                    match p {
                        Some(q) => near.len() == n && position_of(graph.ids(), h@) == Some(q as int) && forall|v: int|
                            0 <= v < n ==> #[trigger] near[v] == within(graph.edges@, q as int, v, 1),
                        None => position_of(graph.ids(), h@) is None,
                    },
                    forall|k: int| 0 <= k < j ==> #[trigger] m[k] == by_hover(*graph, h@, k),
                decreases n - j,
            {
                let b = if graph.node_list[j].id.eq(h) {
                    true
                } else {
                    match p {
                        Some(_) => near[j],
                        None => false,
                    }
                };
                proof {
                    assert(graph.ids()[j as int] == graph.node_list@[j as int].id@);
                    if let Some(q) = p {
                        crate::reach::lemma_within_one(graph.edges@, q as int, j as int);
                    }
                    assert(b == by_hover(*graph, h@, j as int));
                }
                m.push(b);
                j += 1;
            }
            m
        },
    }
}

/// A hidden node is never drawn faded, and with no search typed and the
/// local graph off nothing is faded.
pub proof fn law_fading_needs_a_filter(
    g: Graph,
    hidden: Seq<bool>,
    query: Seq<char>,
    hops: nat,
    sel: Option<Seq<char>>,
    j: int,
)
    ensures
        faded_at(g, hidden, query, hops, sel, j) ==> !hidden[j],
        query.len() == 0 && (hops == 0 || sel is None) ==> !faded_at(g, hidden, query, hops, sel, j),
{
}

/// Widening the local graph never fades a node that a narrower one showed
/// (searching aside).
pub proof fn law_wider_local_graph_fades_less(
    g: Graph,
    hidden: Seq<bool>,
    sel: Seq<char>,
    near_hops: nat,
    far_hops: nat,
    j: int,
)
    requires
        0 < near_hops <= far_hops,
    ensures
        faded_at(g, hidden, Seq::empty(), far_hops, Some(sel), j) ==> faded_at(
            g,
            hidden,
            Seq::empty(),
            near_hops,
            Some(sel),
            j,
        ),
{
    if let Some(p) = position_of(g.ids(), sel) {
        if within(g.edges@, p, j, near_hops) {
            crate::reach::lemma_within_monotone(g.edges@, p, j, near_hops, far_hops);
        }
    }
}

/// The hovered node is always among the marked ones, and so are its
/// neighbours.
pub proof fn law_hover_marks_neighbours(g: Graph, h: Seq<char>, j: int)
    ensures
        g.ids()[j] == h ==> by_hover(g, h, j),
        (position_of(g.ids(), h) matches Some(p) && joined(g.edges@, p, j)) ==> by_hover(g, h, j),
{
}

} // verus!
