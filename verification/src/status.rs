use crate::config::opt_view;
use crate::filters::first_position;
use crate::graph::{lemma_position_of, lemma_position_of_none, position_of, Graph};
use crate::text::{concat_text, decimal, number_text, views};
use crate::view::{ViewModel, ViewState};
use vstd::prelude::*;
use vstd::string::StringSliceAdditionalSpecFns;
use vstd::utf8::{encode_utf8, is_char_boundary};

verus! {

/// The filter notes of the status line, in order.
pub open spec fn filter_notes(v: ViewModel) -> Seq<Seq<char>> {
    let a: Seq<Seq<char>> = if v.show_tags {
        seq!["Tags:On"@]
    } else {
        Seq::empty()
    };
    let b: Seq<Seq<char>> = if v.hide_dailies {
        seq!["Daily:On"@]
    } else {
        Seq::empty()
    };
    let c: Seq<Seq<char>> = if v.local_hops == 1 {
        seq!["Local:1hop"@]
    } else if v.local_hops == 2 {
        seq!["Local:2hop"@]
    } else if v.local_hops == 3 {
        seq!["Local:3hop"@]
    } else {
        Seq::empty()
    };
    a + b + c
}

/// The status line reports the local graph as `Local:` and the number of
/// hops and `hop` whenever one is on, and has no `Local:` note when it is off.
pub proof fn law_local_note(v: ViewModel)
    requires
        0 <= v.local_hops <= 3,
    ensures
        v.local_hops >= 1 ==> filter_notes(v).contains("Local:"@ + decimal(v.local_hops as nat) + "hop"@),
        (exists|i: int| 0 <= i < filter_notes(v).len() && (#[trigger] filter_notes(v)[i]).take(6) == "Local:"@)
            <==> v.local_hops != 0,
{
    reveal_strlit("Local:");
    reveal_strlit("hop");
    reveal_strlit("Local:1hop");
    reveal_strlit("Local:2hop");
    reveal_strlit("Local:3hop");
    reveal_strlit("Tags:On");
    reveal_strlit("Daily:On");
    let n = filter_notes(v);
    if v.local_hops >= 1 {
        let d = decimal(v.local_hops as nat);
        let note = "Local:"@ + d + "hop"@;
        assert(n.last() == note);
        assert(n[n.len() - 1] == note);
        assert(note.take(6) =~= "Local:"@);
    } else {
        assert forall|i: int| 0 <= i < n.len() implies (#[trigger] n[i]).take(6) != "Local:"@ by {
            assert(n[i] == "Tags:On"@ || n[i] == "Daily:On"@);
            assert(n[i].take(6)[0] != "Local:"@[0]);
        }
    }
}

/// `parts` with `sep` between each two.
pub open spec fn joined_by(parts: Seq<Seq<char>>, sep: Seq<char>) -> Seq<char>
    decreases parts.len(),
{
    if parts.len() == 0 {
        Seq::empty()
    } else if parts.len() == 1 {
        parts[0]
    } else {
        joined_by(parts.drop_last(), sep) + sep + parts.last()
    }
}

/// The filter part of the status line: empty, or `  ·  ` and the notes.
pub open spec fn filter_tail(v: ViewModel) -> Seq<char> {
    if filter_notes(v).len() == 0 {
        Seq::empty()
    } else {
        "  ·  "@ + joined_by(filter_notes(v), "  "@)
    }
}

/// `t` is the part of `title` the status line shows: its first 52 bytes
/// where it is longer.
pub open spec fn title_head(t: Seq<char>, title: Seq<char>) -> bool {
    let b = encode_utf8(title);
    if (b.len() as usize) > 52 {
        encode_utf8(t) == b.subrange(0, 52)
    } else {
        t == title
    }
}

/// The counts part of the status line.
pub open spec fn counts_text(n: nat, e: nat) -> Seq<char> {
    decimal(n) + " Nodes  ·  "@ + decimal(e) + " Edges"@
}

/// The status line: the open search, else the live message, else the
/// selected node's title (its head `t`) and the counts and filters.
pub open spec fn status_line(
    v: ViewModel,
    n: nat,
    e: nat,
    message: Option<Seq<char>>,
    t: Option<Seq<char>>,
) -> Seq<char> {
    if v.search_active {
        "  Search: "@ + v.search_query + "█   ESC: Cancel  Enter: Jump"@
    } else if message is Some {
        "  "@ + message->0
    } else {
        match t {
            Some(t) => "  "@ + t + "  ·  "@ + counts_text(n, e) + filter_tail(v),
            None => "  "@ + counts_text(n, e) + filter_tail(v),
        }
    }
}

/// The title of the selected node (the last with its id), if it is in the graph.
pub open spec fn selected_title(g: Graph, sel: Option<Seq<char>>) -> Option<Seq<char>> {
    match sel {
        Some(s) => match position_of(g.ids(), s) {
            Some(p) => Some(g.node_list@[p].title@),
            None => None,
        },
        None => None,
    }
}

/// The selected title can be cut after 52 bytes where it is longer.
pub open spec fn status_cuttable(g: Graph, sel: Option<Seq<char>>) -> bool {
    match selected_title(g, sel) {
        Some(t) => (encode_utf8(t).len() as usize) > 52 ==> is_char_boundary(encode_utf8(t), 52),
        None => true,
    }
}

/// The filter notes joined, as built step by step.
fn filter_text(view: &ViewState) -> (r: String)
    ensures
        r@ == filter_tail(view@),
{
    let mut notes: Vec<String> = Vec::new();
    if view.show_tags {
        notes.push("Tags:On".to_string());
    }
    if view.hide_dailies {
        notes.push("Daily:On".to_string());
    }
    if view.local_hops == 1 {
        notes.push("Local:1hop".to_string());
    } else if view.local_hops == 2 {
        notes.push("Local:2hop".to_string());
    } else if view.local_hops == 3 {
        notes.push("Local:3hop".to_string());
    }
    assert(views(notes@) =~= filter_notes(view@));
    if notes.len() == 0 {
        return String::new();
    }
    let mut acc = notes[0].clone();
    let mut i: usize = 1;
    while i < notes.len()
        invariant
            1 <= i <= notes.len(),
            acc@ == joined_by(views(notes@).take(i as int), "  "@),
        decreases notes.len() - i,
    {
        let sep = concat_text(acc.as_str(), "  ");
        acc = concat_text(sep.as_str(), notes[i].as_str());
        proof {
            let t = views(notes@).take(i + 1);
            assert(t.drop_last() =~= views(notes@).take(i as int));
            assert(t.last() == notes@[i as int]@);
        }
        i += 1;
    }
    proof {
        assert(views(notes@).take(notes.len() as int) =~= views(notes@));
        assert(joined_by(views(notes@).take(1), "  "@) == views(notes@)[0]);
    }
    concat_text("  ·  ", acc.as_str())
}

/// The status line at the bottom of the window. `message` is the status
/// message while it is still shown.
pub fn build_status(view: &ViewState, graph: &Graph, message: Option<&str>) -> (r: String)
    requires
        graph.wf(),
        status_cuttable(*graph, view@.selected),
    ensures
        ({
            let n = graph.node_list.len() as nat;
            let e = graph.edges.len() as nat;
            match selected_title(*graph, view@.selected) {
                Some(title) if !view.search_active && message is None => exists|h: Seq<char>|
                    title_head(h, title) && r@ == #[trigger] status_line(view@, n, e, None, Some(h)),
                _ => r@ == status_line(view@, n, e, opt_view(message), None),
            }
        }),
{
    let ghost msg = opt_view(message);
    if view.search_active {
        let a = concat_text("  Search: ", view.search_query.as_str());
        let r = concat_text(a.as_str(), "█   ESC: Cancel  Enter: Jump");
        return r;
    }
    if let Some(m) = message {
        let r = concat_text("  ", m);
        return r;
    }
    let n = number_text(graph.node_list.len() as u64);
    let e = number_text(graph.edges.len() as u64);
    let c1 = concat_text(n.as_str(), " Nodes  ·  ");
    let c2 = concat_text(c1.as_str(), e.as_str());
    let counts = concat_text(c2.as_str(), " Edges");
    let filt = filter_text(view);
    let tail = concat_text(counts.as_str(), filt.as_str());
    assert(counts@ == counts_text(graph.node_list.len() as nat, graph.edges.len() as nat));
    match &view.selected {
        Some(sel) => match graph.nodes.find(sel) {
            Some(p) => {
                proof {
                    lemma_position_of(graph.ids(), sel@, p as int);
                }
                let title = graph.node_list[p].title.as_str();
                let head = title_prefix(title);
                let a = concat_text("  ", head.as_str());
                let b = concat_text(a.as_str(), "  ·  ");
                let r = concat_text(b.as_str(), tail.as_str());
                proof {
                    assert(r@ == status_line(
                        view@,
                        graph.node_list.len() as nat,
                        graph.edges.len() as nat,
                        msg,
                        Some(head@),
                    ));
                }
                r
            },
            None => {
                proof {
                    lemma_position_of_none(graph.ids(), sel@);
                }
                let r = concat_text("  ", tail.as_str());
                proof {
                    assert(r@ == status_line(view@, graph.node_list.len() as nat, graph.edges.len() as nat, msg, None));
                }
                r
            },
        },
        None => {
            let r = concat_text("  ", tail.as_str());
            proof {
                assert(r@ == status_line(view@, graph.node_list.len() as nat, graph.edges.len() as nat, msg, None));
            }
            r
        },
    }
}

/// The first 52 bytes of `title` where it is longer, else all of it.
fn title_prefix(title: &str) -> (r: String)
    requires
        (encode_utf8(title@).len() as usize) > 52 ==> is_char_boundary(encode_utf8(title@), 52),
    ensures
        title_head(r@, title@),
{
    proof {
        assert(title.spec_bytes() == encode_utf8(title@));
    }
    if title.len() > 52 {
        let (head, _) = title.split_at(52);
        let cut = head.to_owned();
        assert(encode_utf8(cut@) == head.spec_bytes());
        cut
    } else {
        title.to_string()
    }
}

/// How many of `s` are missing from `known`.
pub open spec fn count_missing(s: Seq<Seq<char>>, known: Seq<Seq<char>>) -> nat
    decreases s.len(),
{
    if s.len() == 0 {
        0
    } else {
        count_missing(s.drop_last(), known) + if known.contains(s.last()) {
            0nat
        } else {
            1nat
        }
    }
}

/// The message after a reload: the new counts, and how many nodes came and
/// went where any did.
pub open spec fn reload_message(nodes: nat, edges: nat, added: nat, gone: nat) -> Seq<char> {
    "Reloaded — "@ + decimal(nodes) + " nodes  "@ + decimal(edges) + " edges"@ + if added + gone > 0 {
        "  +"@ + decimal(added) + "/−"@ + decimal(gone)
    } else {
        Seq::empty()
    }
}

/// How many of `ids` are missing from `known`.
fn missing_count(ids: &Vec<String>, known: &Vec<String>) -> (c: u64)
    ensures
        c == count_missing(views(ids@), views(known@)),
{
    let mut c: u64 = 0;
    let mut i: usize = 0;
    while i < ids.len()
        invariant
            i <= ids.len(),
            c == count_missing(views(ids@).take(i as int), views(known@)),
            c <= i,
        decreases ids.len() - i,
    {
        let mut found = false;
        let mut k: usize = 0;
        while k < known.len()
            invariant
                k <= known.len(),
                i < ids.len(),
                found == exists|q: int| 0 <= q < k && views(known@)[q] == ids@[i as int]@,
            decreases known.len() - k,
        {
            if known[k].eq(&ids[i]) {
                found = true;
            }
            proof {
                if known@[k as int]@ == ids@[i as int]@ {
                    assert(views(known@)[k as int] == ids@[i as int]@);
                }
            }
            k += 1;
        }
        proof {
            let t = views(ids@).take(i + 1);
            assert(t.drop_last() =~= views(ids@).take(i as int));
            assert(t.last() == ids@[i as int]@);
            if found {
                let q = choose|q: int| 0 <= q < known.len() && views(known@)[q] == ids@[i as int]@;
                assert(views(known@).contains(t.last()));
            } else {
                assert(!views(known@).contains(t.last()));
            }
        }
        if !found {
            c = c + 1;
        }
        i += 1;
    }
    proof {
        assert(views(ids@).take(ids.len() as int) =~= views(ids@));
    }
    c
}

/// The message after a reload from `old_ids` to `new_ids` with `edges` links.
pub fn reload_summary(old_ids: &Vec<String>, new_ids: &Vec<String>, edges: usize) -> (r: String)
    ensures
        r@ == reload_message(
            new_ids.len() as nat,
            edges as nat,
            count_missing(views(new_ids@), views(old_ids@)),
            count_missing(views(old_ids@), views(new_ids@)),
        ),
{
    let added = missing_count(new_ids, old_ids);
    let gone = missing_count(old_ids, new_ids);
    let a = concat_text("Reloaded — ", number_text(new_ids.len() as u64).as_str());
    let b = concat_text(a.as_str(), " nodes  ");
    let c = concat_text(b.as_str(), number_text(edges as u64).as_str());
    let d = concat_text(c.as_str(), " edges");
    if added > 0 || gone > 0 {
        let e = concat_text("  +", number_text(added).as_str());
        let f = concat_text(e.as_str(), "/−");
        let g = concat_text(f.as_str(), number_text(gone).as_str());
        concat_text(d.as_str(), g.as_str())
    } else {
        proof {
            assert(d@ + Seq::<char>::empty() =~= d@);
        }
        d
    }
}

/// The message after a failed reload.
pub fn reload_failed(error: &str) -> (r: String)
    ensures
        r@ == "Reload failed: "@ + error@,
{
    concat_text("Reload failed: ", error)
}

impl ViewState {
    /// After a reload: keeps the selection where the new graph still has the
    /// node, and points `sel_idx` at its first position (-1 for none).
    pub fn keep_selection(&mut self, graph: &Graph)
        requires
            graph.wf(),
            graph.n() <= i32::MAX,
        ensures
            match old(self).selected {
                Some(s) => if graph.ids().contains(s@) {
                    &&& final(self).selected == old(self).selected
                    &&& first_position(graph.ids(), s@, final(self).sel_idx as int)
                } else {
                    final(self).selected is None && final(self).sel_idx == -1
                },
                None => final(self).selected is None && final(self).sel_idx == -1,
            },
            final(self)@ == (ViewModel { selected: final(self)@.selected, sel_idx: final(self)@.sel_idx, ..old(self)@ }),
    {
        let sel = self.selected.clone();
        match sel {
            Some(s) => {
                let n = graph.node_list.len();
                let mut p: usize = 0;
                while p < n && !graph.node_list[p].id.eq(&s)
                    invariant
                        p <= n,
                        n == graph.n(),
                        forall|k: int| 0 <= k < p ==> graph.ids()[k] != s@,
                    decreases n - p,
                {
                    proof {
                        assert(graph.ids()[p as int] == graph.node_list@[p as int].id@);
                    }
                    p += 1;
                }
                if p < n {
                    proof {
                        assert(graph.ids()[p as int] == graph.node_list@[p as int].id@);
                    }
                    self.sel_idx = p as i32;
                } else {
                    proof {
                        assert(!graph.ids().contains(s@));
                    }
                    self.selected = None;
                    self.sel_idx = -1;
                }
            },
            None => {
                self.sel_idx = -1;
            },
        }
    }
}

} // verus!
