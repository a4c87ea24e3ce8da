use crate::graph::last_position;
use crate::keys::IdIndex;
use crate::text::{
    char_is, chars_of, drop_back, drop_front, law_trimmed_of_strips, parse_i64, parsed_i64, split_words, string_of, trim_char,
    stripped_copy, trim_end_char, trim_spaces, trim_start_char, trimmed, trimmed_of, views, words,
};
use vstd::prelude::*;

verus! {

/// A node as read from the org-roam database.
pub struct RawNode {
    pub id: String,
    pub title: String,
    pub file: String,
    pub level: i64,
    pub pos: i64,
    pub mtime: i64,
    pub aliases: Vec<String>,
    pub tags: Vec<String>,
}

/// A row of the node query: id, title, file, level, position and the file's
/// modification time as the database stores them.
pub struct NodeRow {
    pub id: String,
    pub title: Option<String>,
    pub file: Option<String>,
    pub level: Option<i64>,
    pub pos: Option<i64>,
    pub mtime: Option<String>,
}

/// The characters of an optional text, empty where it is absent.
pub open spec fn text_or_empty(o: Option<String>) -> Seq<char> {
    match o {
        Some(s) => s@,
        None => Seq::empty(),
    }
}

/// `o`, or `d` where it is absent.
pub open spec fn or_default(o: Option<i64>, d: i64) -> i64 {
    match o {
        Some(v) => v,
        None => d,
    }
}

/// The modification time, in seconds, that the database's text `raw` stands
/// for: a plain integer; else an Emacs time list `(HIGH LOW ...)`, read as
/// `HIGH * 65536 + LOW` (wrapping, a part that is no integer counting 0); else 0.
pub open spec fn mtime_value(raw: Option<Seq<char>>) -> i64 {
    match raw {
        None => 0,
        Some(s) => if s.len() == 0 {
            0
        } else {
            let t = trimmed(s);
            match parsed_i64(t) {
                Some(n) => n,
                None => {
                    let inner = drop_back(drop_front(t, char_is('(')), char_is(')'));
                    let parts = words(inner);
                    if parts.len() >= 2 {
                        let high = or_default(parsed_i64(parts[0]), 0);
                        let low = or_default(parsed_i64(parts[1]), 0);
                        vstd::wrapping::i64_specs::wrapping_add(
                            vstd::wrapping::i64_specs::wrapping_mul(high, 65536),
                            low,
                        )
                    } else {
                        0
                    }
                },
            }
        },
    }
}

/// Reads the modification time the database stores for a file: a plain
/// integer, or Emacs's `(HIGH LOW MICROSEC PICOSEC)`, or nothing (0).
pub fn parse_mtime(raw: Option<&str>) -> (t: i64)
    ensures
        t == mtime_value(
            match raw {
                Some(s) => Some(s@),
                None => None,
            },
        ),
{
    let s = match raw {
        Some(s) => s,
        None => return 0,
    };
    let cs = chars_of(s);
    if cs.len() == 0 {
        return 0;
    }
    let t = trim_spaces(&cs);
    if let Some(n) = parse_i64(&t) {
        return n;
    }
    let inner = trim_end_char(&trim_start_char(&t, '('), ')');
    let parts = split_words(&inner);
    if parts.len() >= 2 {
        let high = match parse_i64(&parts[0]) {
            Some(v) => v,
            None => 0,
        };
        let low = match parse_i64(&parts[1]) {
            Some(v) => v,
            None => 0,
        };
        high.wrapping_mul(65536).wrapping_add(low)
    } else {
        0
    }
}

/// `node` holds what `row` says (aliases and tags aside): quotes stripped from
/// both ends of title and file, level and position 0 where absent.
pub open spec fn node_of_row(node: RawNode, row: NodeRow) -> bool {
    &&& node.id@ == row.id@
    &&& node.title@ == trimmed_of(text_or_empty(row.title), '"')
    &&& node.file@ == trimmed_of(text_or_empty(row.file), '"')
    &&& node.level == or_default(row.level, 0)
    &&& node.pos == or_default(row.pos, 0)
    &&& node.mtime == mtime_value(
        match row.mtime {
            Some(s) => Some(s@),
            None => None,
        },
    )
}

/// A collected node's title and file are the row's texts with the double
/// quotes org-roam stores around them taken off: the texts between quotes,
/// neither beginning nor ending with a quote.
pub proof fn law_titles_unquoted(node: RawNode, row: NodeRow)
    requires
        node_of_row(node, row),
    ensures
        stripped_copy(node.title@, text_or_empty(row.title), '"'),
        stripped_copy(node.file@, text_or_empty(row.file), '"'),
        node.title@.len() > 0 ==> node.title@[0] != '"' && node.title@.last() != '"',
{
    law_trimmed_of_strips(text_or_empty(row.title), '"');
    law_trimmed_of_strips(text_or_empty(row.file), '"');
}

/// Each alias a node gets is the text of one of its alias rows with the
/// surrounding double quotes taken off, and never empty.
pub proof fn law_aliases_unquoted(rows: Seq<(String, String)>, id: Seq<char>, k: int)
    requires
        0 <= k < aliases_for(rows, id).len(),
    ensures
        exists|r: int|
            0 <= r < rows.len() && (#[trigger] rows[r]).0@ == id && stripped_copy(aliases_for(rows, id)[k], rows[r].1@, '"'),
        aliases_for(rows, id)[k].len() > 0,
    decreases rows.len(),
{
    let pre = aliases_for(rows.drop_last(), id);
    let last = rows.last();
    if k < pre.len() {
        law_aliases_unquoted(rows.drop_last(), id, k);
        let r = choose|r: int|
            0 <= r < rows.drop_last().len() && (#[trigger] rows.drop_last()[r]).0@ == id && stripped_copy(
                pre[k],
                rows.drop_last()[r].1@,
                '"',
            );
        assert(rows[r] == rows.drop_last()[r]);
    } else {
        law_trimmed_of_strips(last.1@, '"');
        assert(rows[rows.len() - 1] == last);
    }
}

/// The ids of the node rows, in order.
pub open spec fn row_ids(rows: Seq<NodeRow>) -> Seq<Seq<char>> {
    rows.map_values(|r: NodeRow| r.id@)
}

/// The aliases the alias rows give node `id`: quotes stripped, empty ones left out.
pub open spec fn aliases_for(rows: Seq<(String, String)>, id: Seq<char>) -> Seq<Seq<char>>
    decreases rows.len(),
{
    if rows.len() == 0 {
        Seq::empty()
    } else {
        let pre = aliases_for(rows.drop_last(), id);
        let r = rows.last();
        let a = trimmed_of(r.1@, '"');
        if r.0@ == id && a.len() > 0 {
            pre.push(a)
        } else {
            pre
        }
    }
}

/// The tags the tag rows give node `id`, empty ones left out.
pub open spec fn tags_for(rows: Seq<(String, String)>, id: Seq<char>) -> Seq<Seq<char>>
    decreases rows.len(),
{
    if rows.len() == 0 {
        Seq::empty()
    } else {
        let pre = tags_for(rows.drop_last(), id);
        let r = rows.last();
        if r.0@ == id && r.1@.len() > 0 {
            pre.push(r.1@)
        } else {
            pre
        }
    }
}

/// The links whose both ends are among `ids`, in order.
pub open spec fn kept_links(links: Seq<(String, String)>, ids: Seq<Seq<char>>) -> Seq<(Seq<char>, Seq<char>)>
    decreases links.len(),
{
    if links.len() == 0 {
        Seq::empty()
    } else {
        let pre = kept_links(links.drop_last(), ids);
        let l = links.last();
        if ids.contains(l.0@) && ids.contains(l.1@) {
            pre.push((l.0@, l.1@))
        } else {
            pre
        }
    }
}

/// The ids of the collected nodes.
pub open spec fn node_ids(nodes: Seq<RawNode>) -> Seq<Seq<char>> {
    nodes.map_values(|n: RawNode| n.id@)
}

/// `a` and `b` agree on everything but aliases and tags.
pub open spec fn same_core(a: RawNode, b: RawNode) -> bool {
    &&& a.id@ == b.id@
    &&& a.title@ == b.title@
    &&& a.file@ == b.file@
    &&& a.level == b.level
    &&& a.pos == b.pos
    &&& a.mtime == b.mtime
}

/// Turns one node row into a node without aliases or tags.
fn node_from_row(row: NodeRow) -> (n: RawNode)
    ensures
        node_of_row(n, row),
        n.aliases@.len() == 0,
        n.tags@.len() == 0,
{
    let ghost r = row;
    let NodeRow { id, title, file, level, pos, mtime } = row;
    let title_chars = match &title {
        Some(t) => chars_of(t.as_str()),
        None => Vec::new(),
    };
    let file_chars = match &file {
        Some(f) => chars_of(f.as_str()),
        None => Vec::new(),
    };
    let mtime_value = match &mtime {
        Some(m) => parse_mtime(Some(m.as_str())),
        None => parse_mtime(None),
    };
    RawNode {
        id,
        title: string_of(trim_char(&title_chars, '"').as_slice()),
        file: string_of(trim_char(&file_chars, '"').as_slice()),
        level: match level {
            Some(v) => v,
            None => 0,
        },
        pos: match pos {
            Some(v) => v,
            None => 0,
        },
        mtime: mtime_value,
        aliases: Vec::new(),
        tags: Vec::new(),
    }
}

/// One node per id, from the last row with that id, in order of first appearance.
fn gather_nodes(node_rows: Vec<NodeRow>) -> (r: (IdIndex, Vec<RawNode>))
    requires
        node_rows.len() < usize::MAX,
    ensures
        r.0.wf(),
        r.0.keys() == node_ids(r.1@),
        node_ids(r.1@).no_duplicates(),
        forall|i: int| 0 <= i < node_rows.len() ==> node_ids(r.1@).contains(#[trigger] node_rows@[i].id@),
        forall|k: int| 0 <= k < r.1.len() ==> row_ids(node_rows@).contains(#[trigger] r.1@[k].id@),
        forall|k: int, i: int|
            0 <= k < r.1.len() && last_position(row_ids(node_rows@), #[trigger] r.1@[k].id@, i) ==> node_of_row(
                r.1@[k],
                #[trigger] node_rows@[i],
            ),
        forall|k: int| 0 <= k < r.1.len() ==> (#[trigger] r.1@[k]).aliases@.len() == 0 && r.1@[k].tags@.len() == 0,
{
    let ghost rows = node_rows@;
    let ghost ids = row_ids(rows);
    let mut index = IdIndex::new();
    let mut out: Vec<RawNode> = Vec::new();
    for row in it: node_rows.into_iter()
        invariant
            it.seq() == rows,
            ids == row_ids(rows),
            rows.len() < usize::MAX,
            out.len() <= it.index(),
            index.wf(),
            index.keys() == node_ids(out@),
            node_ids(out@).no_duplicates(),
            forall|i: int| 0 <= i < it.index() ==> node_ids(out@).contains(#[trigger] rows[i].id@),
            forall|k: int| 0 <= k < out.len() ==> ids.take(it.index() as int).contains(#[trigger] out@[k].id@),
            forall|k: int, i: int|
                0 <= k < out.len() && last_position(ids.take(it.index() as int), #[trigger] out@[k].id@, i)
                    ==> node_of_row(out@[k], #[trigger] rows[i]),
            forall|k: int| 0 <= k < out.len() ==> (#[trigger] out@[k]).aliases@.len() == 0 && out@[k].tags@.len() == 0,
    {
        let ghost i = it.index();
        let ghost before = out@;
        assert(row == rows[i as int]);
        let node = node_from_row(row);
        let found = index.find(&node.id);
        let ghost x = node.id@;
        proof {
            assert(ids.take(i + 1) =~= ids.take(i as int).push(x));
        }
        match found {
            Some(j) => {
                out.set(j, node);
                proof {
                    assert(node_ids(out@) =~= node_ids(before));
                }
            },
            None => {
                index.push(node.id.clone());
                out.push(node);
                proof {
                    assert(node_ids(out@) =~= node_ids(before).push(x));
                    assert(!node_ids(before).contains(x));
                }
            },
        }
        proof {
            assert forall|q: int| 0 <= q < i + 1 implies node_ids(out@).contains(#[trigger] rows[q].id@) by {
                if q == i {
                    match found {
                        Some(j) => assert(node_ids(out@)[j as int] == x),
                        None => assert(node_ids(out@)[out.len() - 1] == x),
                    }
                } else {
                    let z = node_ids(before).index_of(rows[q].id@);
                    assert(node_ids(before)[z] == rows[q].id@);
                    assert(node_ids(out@)[z] == rows[q].id@);
                }
            }
            assert forall|k: int| 0 <= k < out.len() implies ids.take(i + 1).contains(#[trigger] out@[k].id@) by {
                if out@[k].id@ == x {
                    assert(ids.take(i + 1)[i as int] == x);
                } else {
                    assert(out@[k].id@ == before[k].id@);
                    let z = ids.take(i as int).index_of(before[k].id@);
                    assert(ids.take(i + 1)[z] == before[k].id@);
                }
            }
            assert forall|k: int, q: int|
                0 <= k < out.len() && last_position(ids.take(i + 1), #[trigger] out@[k].id@, q) implies node_of_row(
                out@[k],
                #[trigger] rows[q],
            ) by {
                if out@[k].id@ == x {
                    assert(ids.take(i + 1)[i as int] == x);
                    assert(q == i);
                    match found {
                        Some(j) => {
                            assert(node_ids(before)[j as int] == x);
                            if k != j {
                                assert(node_ids(out@)[k] == node_ids(out@)[j as int]);
                            }
                        },
                        None => {
                            if k < before.len() {
                                assert(node_ids(before)[k] == x);
                                assert(node_ids(before).contains(x));
                            }
                        },
                    }
                } else {
                    assert(out@[k] == before[k]);
                    assert(last_position(ids.take(i as int), before[k].id@, q)) by {
                        assert forall|z: int| q < z < ids.take(i as int).len() implies #[trigger] ids.take(i as int)[z]
                            != before[k].id@ by {
                            assert(ids.take(i as int)[z] == ids.take(i + 1)[z]);
                        }
                    }
                }
            }
        }
    }
    proof {
        assert(ids.take(rows.len() as int) =~= ids);
    }
    (index, out)
}

/// The links whose both ends are among the keys of `index`.
fn keep_links(index: &IdIndex, links: &Vec<(String, String)>, Ghost(ids): Ghost<Seq<Seq<char>>>) -> (kept: Vec<
    (String, String),
>)
    requires
        index.wf(),
        forall|k: Seq<char>| #[trigger] index.keys().contains(k) <==> ids.contains(k),
    ensures
        kept@.map_values(|l: (String, String)| (l.0@, l.1@)) == kept_links(links@, ids),
{
    let mut kept: Vec<(String, String)> = Vec::new();
    let mut li: usize = 0;
    assert(links@.take(0) =~= Seq::<(String, String)>::empty());
    while li < links.len()
        invariant
            li <= links.len(),
            index.wf(),
            forall|k: Seq<char>| #[trigger] index.keys().contains(k) <==> ids.contains(k),
            kept@.map_values(|l: (String, String)| (l.0@, l.1@)) == kept_links(links@.take(li as int), ids),
        decreases links.len() - li,
    {
        let ghost pre = links@.take(li as int);
        let ghost now = links@.take(li + 1);
        proof {
            assert(now.drop_last() =~= pre);
            assert(now.last() == links@[li as int]);
        }
        let fa = index.find(&links[li].0);
        let fb = index.find(&links[li].1);
        proof {
            if let Some(j) = fa {
                assert(index.keys()[j as int] == links@[li as int].0@);
            }
            if let Some(j) = fb {
                assert(index.keys()[j as int] == links@[li as int].1@);
            }
            if index.keys().contains(links@[li as int].0@) {
                let z = index.keys().index_of(links@[li as int].0@);
                assert(index.keys()[z] == links@[li as int].0@);
            }
            if index.keys().contains(links@[li as int].1@) {
                let z = index.keys().index_of(links@[li as int].1@);
                assert(index.keys()[z] == links@[li as int].1@);
            }
        }
        if fa.is_some() && fb.is_some() {
            let ghost before = kept@;
            kept.push((links[li].0.clone(), links[li].1.clone()));
            proof {
                assert(kept@.map_values(|l: (String, String)| (l.0@, l.1@)) =~= before.map_values(
                    |l: (String, String)| (l.0@, l.1@),
                ).push((links@[li as int].0@, links@[li as int].1@)));
            }
        }
        li += 1;
    }
    proof {
        assert(links@.take(links.len() as int) =~= links@);
    }
    kept
}

/// Gives each node its aliases from the alias rows.
fn attach_aliases(index: &IdIndex, out: &mut Vec<RawNode>, alias_rows: &Vec<(String, String)>)
    requires
        index.wf(),
        index.keys() == node_ids(old(out)@),
        node_ids(old(out)@).no_duplicates(),
        forall|k: int| 0 <= k < old(out).len() ==> (#[trigger] old(out)@[k]).aliases@.len() == 0,
    ensures
        final(out).len() == old(out).len(),
        forall|k: int| 0 <= k < final(out).len() ==> same_core(#[trigger] final(out)@[k], old(out)@[k]),
        forall|k: int| 0 <= k < final(out).len() ==> (#[trigger] final(out)@[k]).tags == old(out)@[k].tags,
        forall|k: int| 0 <= k < final(out).len() ==> views(#[trigger] final(out)@[k].aliases@) == aliases_for(
            alias_rows@,
            final(out)@[k].id@,
        ),
{
    let ghost base = out@;
    let mut ai: usize = 0;
    assert(alias_rows@.take(0) =~= Seq::<(String, String)>::empty());
    proof {
        assert forall|k: int| 0 <= k < out.len() implies views(#[trigger] out@[k].aliases@) == aliases_for(
            alias_rows@.take(0),
            out@[k].id@,
        ) by {
            assert(views(out@[k].aliases@) =~= Seq::<Seq<char>>::empty());
        }
    }
    while ai < alias_rows.len()
        invariant
            ai <= alias_rows.len(),
            index.wf(),
            index.keys() == node_ids(out@),
            node_ids(out@).no_duplicates(),
            out.len() == base.len(),
            forall|k: int| 0 <= k < out.len() ==> same_core(#[trigger] out@[k], base[k]),
            forall|k: int| 0 <= k < out.len() ==> (#[trigger] out@[k]).tags == base[k].tags,
            forall|k: int| 0 <= k < out.len() ==> views(#[trigger] out@[k].aliases@) == aliases_for(
                alias_rows@.take(ai as int),
                out@[k].id@,
            ),
        decreases alias_rows.len() - ai,
    {
        let ghost pre = alias_rows@.take(ai as int);
        let ghost now = alias_rows@.take(ai + 1);
        proof {
            assert(now.drop_last() =~= pre);
            assert(now.last() == alias_rows@[ai as int]);
        }
        let ghost before = out@;
        if let Some(j) = index.find(&alias_rows[ai].0) {
            let a = trim_char(&chars_of(alias_rows[ai].1.as_str()), '"');
            if a.len() > 0 {
                let alias = string_of(a.as_slice());
                out[j].aliases.push(alias);
            }
            proof {
                assert(node_ids(out@) =~= node_ids(before));
                assert forall|k: int| 0 <= k < out.len() implies views(#[trigger] out@[k].aliases@) == aliases_for(
                    now,
                    out@[k].id@,
                ) by {
                    if k == j {
                        assert(views(out@[k].aliases@) =~= if a@.len() > 0 {
                            views(before[k].aliases@).push(a@)
                        } else {
                            views(before[k].aliases@)
                        });
                    } else {
                        assert(out@[k] == before[k]);
                        assert(node_ids(out@)[k] != node_ids(out@)[j as int]);
                    }
                }
            }
        } else {
            proof {
                assert forall|k: int| 0 <= k < out.len() implies views(#[trigger] out@[k].aliases@) == aliases_for(
                    now,
                    out@[k].id@,
                ) by {
                    assert(node_ids(out@)[k] == out@[k].id@);
                }
            }
        }
        ai += 1;
    }
    proof {
        assert(alias_rows@.take(alias_rows.len() as int) =~= alias_rows@);
    }
}

/// Gives each node its tags from the tag rows.
fn attach_tags(index: &IdIndex, out: &mut Vec<RawNode>, tag_rows: &Vec<(String, String)>)
    requires
        index.wf(),
        index.keys() == node_ids(old(out)@),
        node_ids(old(out)@).no_duplicates(),
        forall|k: int| 0 <= k < old(out).len() ==> (#[trigger] old(out)@[k]).tags@.len() == 0,
    ensures
        final(out).len() == old(out).len(),
        forall|k: int| 0 <= k < final(out).len() ==> same_core(#[trigger] final(out)@[k], old(out)@[k]),
        forall|k: int| 0 <= k < final(out).len() ==> (#[trigger] final(out)@[k]).aliases == old(out)@[k].aliases,
        forall|k: int| 0 <= k < final(out).len() ==> views(#[trigger] final(out)@[k].tags@) == tags_for(
            tag_rows@,
            final(out)@[k].id@,
        ),
{
    let ghost base = out@;
    let mut ti: usize = 0;
    assert(tag_rows@.take(0) =~= Seq::<(String, String)>::empty());
    proof {
        assert forall|k: int| 0 <= k < out.len() implies views(#[trigger] out@[k].tags@) == tags_for(
            tag_rows@.take(0),
            out@[k].id@,
        ) by {
            assert(views(out@[k].tags@) =~= Seq::<Seq<char>>::empty());
        }
    }
    while ti < tag_rows.len()
        invariant
            ti <= tag_rows.len(),
            index.wf(),
            index.keys() == node_ids(out@),
            node_ids(out@).no_duplicates(),
            out.len() == base.len(),
            forall|k: int| 0 <= k < out.len() ==> same_core(#[trigger] out@[k], base[k]),
            forall|k: int| 0 <= k < out.len() ==> (#[trigger] out@[k]).aliases == base[k].aliases,
            forall|k: int| 0 <= k < out.len() ==> views(#[trigger] out@[k].tags@) == tags_for(
                tag_rows@.take(ti as int),
                out@[k].id@,
            ),
        decreases tag_rows.len() - ti,
    {
        let ghost pre = tag_rows@.take(ti as int);
        let ghost now = tag_rows@.take(ti + 1);
        proof {
            assert(now.drop_last() =~= pre);
            assert(now.last() == tag_rows@[ti as int]);
        }
        let ghost before = out@;
        if let Some(j) = index.find(&tag_rows[ti].0) {
            if !tag_rows[ti].1.as_str().is_empty() {
                out[j].tags.push(tag_rows[ti].1.clone());
            }
            proof {
                assert(node_ids(out@) =~= node_ids(before));
                assert forall|k: int| 0 <= k < out.len() implies views(#[trigger] out@[k].tags@) == tags_for(
                    now,
                    out@[k].id@,
                ) by {
                    if k == j {
                        assert(views(out@[k].tags@) =~= if tag_rows@[ti as int].1@.len() > 0 {
                            views(before[k].tags@).push(tag_rows@[ti as int].1@)
                        } else {
                            views(before[k].tags@)
                        });
                    } else {
                        assert(out@[k] == before[k]);
                        assert(node_ids(out@)[k] != node_ids(out@)[j as int]);
                    }
                }
            }
        } else {
            proof {
                assert forall|k: int| 0 <= k < out.len() implies views(#[trigger] out@[k].tags@) == tags_for(
                    now,
                    out@[k].id@,
                ) by {
                    assert(node_ids(out@)[k] == out@[k].id@);
                }
            }
        }
        ti += 1;
    }
    proof {
        assert(tag_rows@.take(tag_rows.len() as int) =~= tag_rows@);
    }
}

/// Collects the rows of the node, link, alias and tag queries into the nodes
/// (one per id, from the last row with that id; order unspecified by the
/// database, here that of first appearance) and the links whose both ends are
/// known nodes.
pub fn collect_graph(
    node_rows: Vec<NodeRow>,
    links: Vec<(String, String)>,
    alias_rows: Vec<(String, String)>,
    tag_rows: Vec<(String, String)>,
) -> (r: (Vec<RawNode>, Vec<(String, String)>))
    requires
        node_rows.len() < usize::MAX,
    ensures
        node_ids(r.0@).no_duplicates(),
        forall|i: int| 0 <= i < node_rows.len() ==> node_ids(r.0@).contains(#[trigger] node_rows@[i].id@),
        forall|k: int| 0 <= k < r.0.len() ==> row_ids(node_rows@).contains(#[trigger] r.0@[k].id@),
        forall|k: int, i: int|
            0 <= k < r.0.len() && last_position(row_ids(node_rows@), #[trigger] r.0@[k].id@, i) ==> node_of_row(
                r.0@[k],
                #[trigger] node_rows@[i],
            ),
        forall|k: int| 0 <= k < r.0.len() ==> views(#[trigger] r.0@[k].aliases@) == aliases_for(alias_rows@, r.0@[k].id@),
        forall|k: int| 0 <= k < r.0.len() ==> views(#[trigger] r.0@[k].tags@) == tags_for(tag_rows@, r.0@[k].id@),
        r.1@.map_values(|l: (String, String)| (l.0@, l.1@)) == kept_links(links@, row_ids(node_rows@)),
{
    let ghost rows = node_rows@;
    let ghost ids = row_ids(rows);
    let (index, mut out) = gather_nodes(node_rows);
    proof {
        assert forall|k: Seq<char>| #[trigger] index.keys().contains(k) <==> ids.contains(k) by {
            lemma_known_iff(ids, node_ids(out@), k, rows);
        }
    }
    let kept = keep_links(&index, &links, Ghost(ids));
    let ghost base = out@;
    attach_aliases(&index, &mut out, &alias_rows);
    let ghost mid = out@;
    proof {
        assert(node_ids(mid) =~= node_ids(base)) by {
            assert forall|k: int| 0 <= k < mid.len() implies node_ids(mid)[k] == node_ids(base)[k] by {
                assert(same_core(mid[k], base[k]));
            }
        }
        assert forall|k: int| 0 <= k < mid.len() implies (#[trigger] mid[k]).tags@.len() == 0 by {
            assert(mid[k].tags == base[k].tags);
        }
    }
    attach_tags(&index, &mut out, &tag_rows);
    proof {
        assert(node_ids(out@) =~= node_ids(base)) by {
            assert forall|k: int| 0 <= k < out.len() implies node_ids(out@)[k] == node_ids(base)[k] by {
                assert(same_core(out@[k], mid[k]));
                assert(same_core(mid[k], base[k]));
            }
        }
        assert forall|k: int| 0 <= k < out.len() implies views(#[trigger] out@[k].aliases@) == aliases_for(
            alias_rows@,
            out@[k].id@,
        ) by {
            assert(out@[k].aliases == mid[k].aliases);
            assert(same_core(out@[k], mid[k]));
        }
        assert forall|k: int| 0 <= k < out.len() implies row_ids(node_rows@).contains(#[trigger] out@[k].id@) by {
            assert(node_ids(out@)[k] == node_ids(base)[k]);
        }
        assert forall|k: int, i: int|
            0 <= k < out.len() && last_position(row_ids(node_rows@), #[trigger] out@[k].id@, i) implies node_of_row(
            out@[k],
            #[trigger] node_rows@[i],
        ) by {
            assert(same_core(out@[k], mid[k]));
            assert(same_core(mid[k], base[k]));
            assert(node_of_row(base[k], rows[i]));
        }
        assert forall|i: int| 0 <= i < node_rows.len() implies node_ids(out@).contains(#[trigger] node_rows@[i].id@) by {
            assert(node_ids(base).contains(rows[i].id@));
        }
    }
    (out, kept)
}

/// A key is held by the collected nodes exactly when some row has it.
proof fn lemma_known_iff(ids: Seq<Seq<char>>, held: Seq<Seq<char>>, k: Seq<char>, rows: Seq<NodeRow>)
    requires
        ids == row_ids(rows),
        forall|i: int| 0 <= i < rows.len() ==> held.contains(#[trigger] rows[i].id@),
        forall|j: int| 0 <= j < held.len() ==> ids.contains(#[trigger] held[j]),
    ensures
        held.contains(k) <==> ids.contains(k),
{
    if ids.contains(k) {
        let i = ids.index_of(k);
        assert(rows[i].id@ == k);
    }
    if held.contains(k) {
        let j = held.index_of(k);
        assert(ids.contains(held[j]));
    }
}

} // verus!
