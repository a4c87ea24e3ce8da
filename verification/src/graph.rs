use crate::db::RawNode;
use crate::keys::IdIndex;
use crate::reach::{adjacency, adjacency_of, edges_in_range, layers_exact, layers_from, within, Layers};
use crate::text::{insert_sorted_unique, strictly_sorted, views};
use vstd::prelude::*;
use vstd::string::StringSliceAdditionalSpecFns;
use vstd::utf8::{encode_utf8, is_char_boundary};

verus! {

/// A node of the graph: what the database says of it, and its number of edge ends.
pub struct Node {
    pub id: String,
    pub title: String,
    pub file: String,
    pub level: i64,
    pub pos: i64,
    pub mtime: i64,
    pub aliases: Vec<String>,
    pub tags: Vec<String>,
    pub degree: usize,
}

/// The link graph of the notes, by node position.
pub struct Graph {
    /// Finds the position of a node by its id (the last node with that id).
    pub nodes: IdIndex,
    pub node_list: Vec<Node>,
    /// Links whose both ends are known nodes, as node positions.
    pub edges: Vec<(usize, usize)>,
    /// `adj[v]` lists the neighbours of node `v`.
    pub adj: Vec<Vec<usize>>,
    /// Every tag of every node, sorted, each once.
    pub tag_list: Vec<String>,
}

/// `j` is the last position of `keys` that holds `k`.
pub open spec fn last_position(keys: Seq<Seq<char>>, k: Seq<char>, j: int) -> bool {
    &&& 0 <= j < keys.len()
    &&& keys[j] == k
    &&& forall|q: int| j < q < keys.len() ==> #[trigger] keys[q] != k
}

/// The last position of `keys` that holds `k`, if any.
pub open spec fn position_of(keys: Seq<Seq<char>>, k: Seq<char>) -> Option<int> {
    if exists|j: int| last_position(keys, k, j) {
        Some(choose|j: int| last_position(keys, k, j))
    } else {
        None
    }
}

/// Where `j` is the last position holding `k`, `position_of` names it.
pub proof fn lemma_position_of(keys: Seq<Seq<char>>, k: Seq<char>, j: int)
    requires
        last_position(keys, k, j),
    ensures
        position_of(keys, k) == Some(j),
{
    let i = choose|i: int| last_position(keys, k, i);
    if i < j {
        assert(keys[j] == k);
    } else if j < i {
        assert(keys[i] == k);
    }
}

/// Where no position holds `k`, `position_of` names none.
pub proof fn lemma_position_of_none(keys: Seq<Seq<char>>, k: Seq<char>)
    requires
        forall|q: int| 0 <= q < keys.len() ==> #[trigger] keys[q] != k,
    ensures
        position_of(keys, k) == None::<int>,
{
    if exists|j: int| last_position(keys, k, j) {
        let j = choose|j: int| last_position(keys, k, j);
        assert(keys[j] == k);
    }
}

/// The ids of `raw`, in order.
pub open spec fn raw_ids(raw: Seq<RawNode>) -> Seq<Seq<char>> {
    raw.map_values(|r: RawNode| r.id@)
}

/// The links of `raw` whose both ends name a node of `keys`, as positions
/// (the last node with each id), in the order of `raw`.
pub open spec fn resolved_edges(keys: Seq<Seq<char>>, raw: Seq<(String, String)>) -> Seq<(usize, usize)>
    decreases raw.len(),
{
    if raw.len() == 0 {
        Seq::empty()
    } else {
        let pre = resolved_edges(keys, raw.drop_last());
        let e = raw.last();
        match (position_of(keys, e.0@), position_of(keys, e.1@)) {
            (Some(a), Some(b)) => pre.push((a as usize, b as usize)),
            _ => pre,
        }
    }
}

/// How many edge ends of `edges` are at node `v` (a loop counts twice).
pub open spec fn endpoint_count(edges: Seq<(usize, usize)>, v: int) -> nat
    decreases edges.len(),
{
    if edges.len() == 0 {
        0
    } else {
        let e = edges.last();
        endpoint_count(edges.drop_last(), v) + (if e.0 == v {
            1nat
        } else {
            0nat
        }) + (if e.1 == v {
            1nat
        } else {
            0nat
        })
    }
}

/// A node is an endpoint at most twice per edge.
pub proof fn lemma_endpoint_count_bound(edges: Seq<(usize, usize)>, v: int)
    ensures
        endpoint_count(edges, v) <= 2 * edges.len(),
    decreases edges.len(),
{
    if edges.len() > 0 {
        lemma_endpoint_count_bound(edges.drop_last(), v);
    }
}

/// The byte length of the id prefix shown as a title: at most 12 bytes.
pub open spec fn short_len(n: int) -> int {
    if n < 12 {
        n
    } else {
        12
    }
}

/// `title` is what a node built from `raw` shows: its title, or, where that is
/// empty, the first 12 bytes of its id.
pub open spec fn title_shown(title: Seq<char>, raw: RawNode) -> bool {
    if raw.title@.len() > 0 {
        title == raw.title@
    } else {
        encode_utf8(title) == encode_utf8(raw.id@).subrange(0, short_len((encode_utf8(raw.id@).len() as usize) as int))
    }
}

/// `node` holds what `raw` says, with the title `title_shown` gives.
pub open spec fn node_from(node: Node, raw: RawNode) -> bool {
    &&& node.id@ == raw.id@
    &&& title_shown(node.title@, raw)
    &&& node.file@ == raw.file@
    &&& node.level == raw.level
    &&& node.pos == raw.pos
    &&& node.mtime == raw.mtime
    &&& node.aliases@ == raw.aliases@
    &&& node.tags@ == raw.tags@
}

/// The ids of `raw` with an empty title can be cut after their first 12 bytes.
pub open spec fn titles_cuttable(raw: Seq<RawNode>) -> bool {
    forall|i: int|
        0 <= i < raw.len() && (#[trigger] raw[i]).title@.len() == 0 ==> is_char_boundary(
            encode_utf8(raw[i].id@),
            short_len((encode_utf8(raw[i].id@).len() as usize) as int),
        )
}

/// Every tag of every node of `raw`.
pub open spec fn all_tags(nodes: Seq<Node>) -> Set<Seq<char>> {
    Set::new(
        |t: Seq<char>|
            exists|i: int, j: int|
                0 <= i < nodes.len() && 0 <= j < nodes[i].tags@.len() && #[trigger] nodes[i].tags@[j]@ == t,
    )
}

/// The tags of the first `i` nodes, and the first `j` tags of node `i`.
pub open spec fn tags_seen(nodes: Seq<Node>, i: int, j: int) -> Set<Seq<char>> {
    Set::new(
        |t: Seq<char>|
            (exists|a: int, b: int|
                0 <= a < i && 0 <= b < nodes[a].tags@.len() && #[trigger] nodes[a].tags@[b]@ == t) || (exists|b: int|
                0 <= b < j && #[trigger] nodes[i].tags@[b]@ == t),
    )
}

proof fn lemma_tags_seen_step(nodes: Seq<Node>, i: int, j: int)
    requires
        0 <= i < nodes.len(),
        0 <= j < nodes[i].tags@.len(),
    ensures
        tags_seen(nodes, i, j + 1) == tags_seen(nodes, i, j).insert(nodes[i].tags@[j]@),
{
    let t0 = nodes[i].tags@[j]@;
    assert forall|t: Seq<char>| #[trigger] tags_seen(nodes, i, j + 1).contains(t) implies tags_seen(
        nodes,
        i,
        j,
    ).insert(t0).contains(t) by {
        if !(exists|a: int, b: int|
            0 <= a < i && 0 <= b < nodes[a].tags@.len() && #[trigger] nodes[a].tags@[b]@ == t) {
            let b = choose|b: int| 0 <= b < j + 1 && #[trigger] nodes[i].tags@[b]@ == t;
            if b < j {
                assert(tags_seen(nodes, i, j).contains(t));
            }
        }
    }
    assert forall|t: Seq<char>| #[trigger] tags_seen(nodes, i, j).insert(t0).contains(t) implies tags_seen(
        nodes,
        i,
        j + 1,
    ).contains(t) by {
        if t == t0 {
            assert(nodes[i].tags@[j]@ == t);
        } else if !(exists|a: int, b: int|
            0 <= a < i && 0 <= b < nodes[a].tags@.len() && #[trigger] nodes[a].tags@[b]@ == t) {
            let b = choose|b: int| 0 <= b < j && #[trigger] nodes[i].tags@[b]@ == t;
            assert(nodes[i].tags@[b]@ == t);
        }
    }
    assert(tags_seen(nodes, i, j + 1) =~= tags_seen(nodes, i, j).insert(t0));
}

proof fn lemma_tags_seen_next(nodes: Seq<Node>, i: int)
    requires
        0 <= i < nodes.len(),
    ensures
        tags_seen(nodes, i, nodes[i].tags@.len() as int) == tags_seen(nodes, i + 1, 0),
{
    let m = nodes[i].tags@.len() as int;
    assert forall|t: Seq<char>| #[trigger] tags_seen(nodes, i, m).contains(t) implies tags_seen(
        nodes,
        i + 1,
        0,
    ).contains(t) by {
        if !(exists|a: int, b: int|
            0 <= a < i && 0 <= b < nodes[a].tags@.len() && #[trigger] nodes[a].tags@[b]@ == t) {
            let b = choose|b: int| 0 <= b < m && #[trigger] nodes[i].tags@[b]@ == t;
            assert(nodes[i].tags@[b]@ == t);
        } else {
            let (a, b) = choose|a: int, b: int|
                0 <= a < i && 0 <= b < nodes[a].tags@.len() && #[trigger] nodes[a].tags@[b]@ == t;
            assert(nodes[a].tags@[b]@ == t);
        }
    }
    assert forall|t: Seq<char>| #[trigger] tags_seen(nodes, i + 1, 0).contains(t) implies tags_seen(
        nodes,
        i,
        m,
    ).contains(t) by {
        let (a, b) = choose|a: int, b: int|
            0 <= a < i + 1 && 0 <= b < nodes[a].tags@.len() && #[trigger] nodes[a].tags@[b]@ == t;
        if a == i {
            assert(nodes[i].tags@[b]@ == t);
        } else {
            assert(nodes[a].tags@[b]@ == t);
        }
    }
    assert(tags_seen(nodes, i, m) =~= tags_seen(nodes, i + 1, 0));
}

impl Graph {
    /// The ids of the nodes, in order.
    pub open spec fn ids(&self) -> Seq<Seq<char>> {
        self.node_list@.map_values(|n: Node| n.id@)
    }

    /// The number of nodes.
    pub open spec fn n(&self) -> int {
        self.node_list@.len() as int
    }

    /// The parts of the graph agree with each other.
    pub open spec fn wf(&self) -> bool {
        &&& self.nodes.wf()
        &&& self.nodes.keys() == self.ids()
        &&& adjacency_of(self.adj@, self.edges@, self.n())
        &&& forall|v: int| 0 <= v < self.n() ==> (#[trigger] self.node_list@[v]).degree == endpoint_count(self.edges@, v)
        &&& strictly_sorted(views(self.tag_list@))
        &&& views(self.tag_list@).to_set() == all_tags(self.node_list@)
        &&& self.n() < usize::MAX
    }

    /// Builds the graph from the database's nodes and links. Links naming an
    /// unknown node are dropped; where ids repeat, the last node with an id is
    /// the one that links reach.
    pub fn new(raw_nodes: Vec<RawNode>, raw_edges: Vec<(String, String)>) -> (g: Graph)
        requires
            raw_nodes.len() < usize::MAX,
            raw_edges.len() < usize::MAX / 2,
            titles_cuttable(raw_nodes@),
        ensures
            g.wf(),
            g.node_list.len() == raw_nodes.len(),
            forall|i: int| 0 <= i < raw_nodes.len() ==> node_from(#[trigger] g.node_list@[i], raw_nodes@[i]),
            g.edges@ == resolved_edges(raw_ids(raw_nodes@), raw_edges@),
            forall|v: int| 0 <= v < g.n() ==> (#[trigger] g.node_list@[v]).degree == endpoint_count(g.edges@, v),
    {
        let ghost raw = raw_nodes@;
        let mut index = IdIndex::new();
        let mut node_list: Vec<Node> = Vec::new();
        for rn in it: raw_nodes.into_iter()
            invariant
                it.seq() == raw,
                raw.len() < usize::MAX,
                titles_cuttable(raw),
                node_list.len() == it.index(),
                index.wf(),
                index.keys() == node_list@.map_values(|n: Node| n.id@),
                forall|i: int| 0 <= i < node_list.len() ==> node_from(#[trigger] node_list@[i], raw[i]),
                forall|i: int| 0 <= i < node_list.len() ==> (#[trigger] node_list@[i]).degree == 0,
        {
            let ghost i = it.index();
            let ghost r = rn;
            assert(r == raw[i as int]);
            let RawNode { id, title, file, level, pos, mtime, aliases, tags } = rn;
            let shown = if title.as_str().is_empty() {
                let whole = id.as_str();
                let m = if whole.len() < 12 {
                    whole.len()
                } else {
                    12
                };
                proof {
                    assert(raw[i as int].title@.len() == 0);
                    assert(whole.spec_bytes() == encode_utf8(raw[i as int].id@));
                    assert(m == short_len((encode_utf8(raw[i as int].id@).len() as usize) as int));
                }
                let (head, _) = whole.split_at(m);
                let cut = head.to_owned();
                assert(encode_utf8(cut@) == head.spec_bytes());
                cut
            } else {
                title
            };
            index.push(id.clone());
            let node = Node { id, title: shown, file, level, pos, mtime, aliases, tags, degree: 0 };
            assert(node_from(node, raw[i as int]));
            node_list.push(node);
            assert(index.keys() =~= node_list@.map_values(|n: Node| n.id@));
        }
        let ghost keys = node_list@.map_values(|n: Node| n.id@);
        assert(keys =~= raw_ids(raw));
        let n = node_list.len();
        let mut degree: Vec<usize> = Vec::new();
        let mut v: usize = 0;
        while v < n
            invariant
                v <= n,
                degree.len() == v,
                forall|u: int| 0 <= u < v ==> #[trigger] degree[u] == 0,
            decreases n - v,
        {
            degree.push(0);
            v += 1;
        }
        let mut edges: Vec<(usize, usize)> = Vec::new();
        let mut k: usize = 0;
        assert(raw_edges@.take(0) =~= Seq::<(String, String)>::empty());
        while k < raw_edges.len()
            invariant
                k <= raw_edges.len(),
                raw_edges.len() < usize::MAX / 2,
                n == node_list.len(),
                index.wf(),
                index.keys() == keys,
                keys.len() == n,
                degree.len() == n,
                edges@ == resolved_edges(keys, raw_edges@.take(k as int)),
                edges.len() <= k,
                edges_in_range(edges@, n as int),
                forall|u: int| 0 <= u < n ==> #[trigger] degree[u] == endpoint_count(edges@, u),
            decreases raw_edges.len() - k,
        {
            let ghost pre = raw_edges@.take(k as int);
            let ghost now = raw_edges@.take(k + 1);
            assert(now.drop_last() =~= pre);
            assert(now.last() == raw_edges@[k as int]);
            let a = index.find(&raw_edges[k].0);
            let b = index.find(&raw_edges[k].1);
            proof {
                match a {
                    Some(j) => lemma_position_of(keys, raw_edges@[k as int].0@, j as int),
                    None => lemma_position_of_none(keys, raw_edges@[k as int].0@),
                }
                match b {
                    Some(j) => lemma_position_of(keys, raw_edges@[k as int].1@, j as int),
                    None => lemma_position_of_none(keys, raw_edges@[k as int].1@),
                }
            }
            if let (Some(si), Some(di)) = (a, b) {
                let ghost old_edges = edges@;
                let ghost old_degree = degree@;
                proof {
                    lemma_endpoint_count_bound(old_edges, si as int);
                    lemma_endpoint_count_bound(old_edges, di as int);
                }
                edges.push((si, di));
                let ds = degree[si];
                degree.set(si, ds + 1);
                let dd = degree[di];
                degree.set(di, dd + 1);
                proof {
                    assert(edges@.drop_last() =~= old_edges);
                    assert forall|u: int| 0 <= u < n implies #[trigger] degree[u] == endpoint_count(edges@, u) by {
                        assert(endpoint_count(edges@, u) == endpoint_count(old_edges, u) + (if si == u {
                            1nat
                        } else {
                            0nat
                        }) + (if di == u {
                            1nat
                        } else {
                            0nat
                        }));
                    }
                }
            } else {
                proof {
                    assert(resolved_edges(keys, now) == resolved_edges(keys, pre));
                }
            }
            k += 1;
        }
        assert(raw_edges@.take(raw_edges.len() as int) =~= raw_edges@);
        let mut v: usize = 0;
        while v < n
            invariant
                v <= n,
                n == node_list.len(),
                degree.len() == n,
                forall|u: int| 0 <= u < n ==> #[trigger] degree[u] == endpoint_count(edges@, u),
                forall|u: int| 0 <= u < v ==> (#[trigger] node_list@[u]).degree == degree[u],
                forall|i: int| 0 <= i < n ==> node_from(#[trigger] node_list@[i], raw[i]),
                node_list@.map_values(|n: Node| n.id@) == keys,
            decreases n - v,
        {
            let ghost before = node_list@;
            node_list[v].degree = degree[v];
            proof {
                assert forall|i: int| 0 <= i < n implies node_from(#[trigger] node_list@[i], raw[i]) by {
                    assert(node_list@[i].id == before[i].id);
                }
                assert(node_list@.map_values(|n: Node| n.id@) =~= keys);
            }
            v += 1;
        }
        let adj = adjacency(n, &edges);
        let mut tag_list: Vec<String> = Vec::new();
        let mut i: usize = 0;
        assert(views(tag_list@).to_set() =~= tags_seen(node_list@, 0, 0));
        while i < n
            invariant
                i <= n,
                n == node_list.len(),
                strictly_sorted(views(tag_list@)),
                views(tag_list@).to_set() == tags_seen(node_list@, i as int, 0),
            decreases n - i,
        {
            let tags = &node_list[i].tags;
            let mut j: usize = 0;
            while j < tags.len()
                invariant
                    i < n,
                    n == node_list.len(),
                    tags == node_list@[i as int].tags,
                    j <= tags.len(),
                    strictly_sorted(views(tag_list@)),
                    views(tag_list@).to_set() == tags_seen(node_list@, i as int, j as int),
                decreases tags.len() - j,
            {
                insert_sorted_unique(&mut tag_list, &tags[j]);
                proof {
                    lemma_tags_seen_step(node_list@, i as int, j as int);
                }
                j += 1;
            }
            proof {
                lemma_tags_seen_next(node_list@, i as int);
            }
            i += 1;
        }
        proof {
            assert(tags_seen(node_list@, n as int, 0) =~= all_tags(node_list@));
        }
        let g = Graph { nodes: index, node_list, edges, adj, tag_list };
        assert(views(g.tag_list@).to_set() =~= all_tags(g.node_list@));
        g
    }
}

} // verus!
