use crate::graph::{lemma_position_of, lemma_position_of_none, position_of, Graph};
use crate::text::views;
use crate::reach::{
    adjacency_of, edges_in_range, is_walk, joined, lemma_joined_in_range, lemma_neighbours_joined,
    layers_exact, layers_from, neighbours, reachable, within, Layers,
};
use vstd::prelude::*;
use vstd::set_lib::*;

verus! {

/// The breadth-first spanning tree that the tree and ring layouts are drawn from.
pub struct Tree {
    /// The node the walk starts from.
    pub root: usize,
    /// Nodes in the order the walk takes them off its queue.
    pub order: Vec<usize>,
    /// `children[p]` lists the nodes first reached from `p`, most links first.
    pub children: Vec<Vec<usize>>,
    /// Edges from the root down to each reached node (0 for the others).
    pub depth: Vec<usize>,
    /// The nodes the walk never reaches, in increasing order.
    pub disconnected: Vec<usize>,
    /// Leaves below each node: 1 for a leaf, else the sum over its children
    /// (saturating at `u64::MAX`).
    pub width: Vec<u64>,
}

/// `s` is sorted by `key` from largest to smallest.
pub open spec fn desc_by(s: Seq<usize>, key: Seq<usize>) -> bool {
    forall|i: int, j: int|
        0 <= i < j < s.len() ==> key[#[trigger] s[i] as int] >= key[#[trigger] s[j] as int]
}

/// The position of the last largest value of `key` (the last node with the
/// most links).
pub open spec fn is_hub(key: Seq<usize>, h: int) -> bool {
    &&& 0 <= h < key.len()
    &&& forall|j: int| 0 <= j < key.len() ==> #[trigger] key[j] <= key[h]
    &&& forall|j: int| h < j < key.len() ==> #[trigger] key[j] < key[h]
}

/// The sum of `w` over `s`, held at `u64::MAX` once it would pass it.
pub open spec fn capped_sum(s: Seq<usize>, w: Seq<u64>) -> u64
    decreases s.len(),
{
    if s.len() == 0 {
        0
    } else {
        let pre = capped_sum(s.drop_last(), w) as int;
        let x = w[s.last() as int] as int;
        if pre + x > u64::MAX {
            u64::MAX
        } else {
            (pre + x) as u64
        }
    }
}

/// `r` is `list` rearranged by `perm` (`r[k]` is `list[perm[k]]`, each
/// position of `list` used once) so that entries with equal keys keep the
/// order they had in `list`.
#[verifier::opaque]
pub open spec fn stable_arrangement(list: Seq<usize>, r: Seq<usize>, key: Seq<usize>, perm: Seq<int>) -> bool {
    &&& perm.len() == list.len()
    &&& r.len() == list.len()
    &&& forall|k: int| 0 <= k < perm.len() ==> 0 <= #[trigger] perm[k] < list.len() && r[k] == list[perm[k]]
    &&& forall|a: int, b: int| 0 <= a < b < perm.len() ==> #[trigger] perm[a] != #[trigger] perm[b]
    &&& forall|a: int, b: int|
        0 <= a < b < r.len() && key[#[trigger] r[a] as int] == key[#[trigger] r[b] as int] ==> perm[a] < perm[b]
}

proof fn lemma_insert_multiset(old_r: Seq<usize>, r: Seq<usize>, p: int, x: usize, pre: Seq<usize>)
    requires
        0 <= p <= old_r.len(),
        r == old_r.take(p).push(x) + old_r.skip(p),
        old_r.to_multiset() == pre.to_multiset(),
    ensures
        r.to_multiset() == pre.push(x).to_multiset(),
{
    broadcast use vstd::seq_lib::group_to_multiset_ensures;
    assert(r.remove(p) =~= old_r);
    assert(r[p] == x);
    assert(r.remove(p).to_multiset() =~= r.to_multiset().remove(x));
    assert(r.contains(x));
    assert(r.to_multiset().count(x) > 0);
    assert(r.to_multiset() =~= r.to_multiset().remove(x).insert(x));
    assert(pre.push(x).to_multiset() =~= pre.to_multiset().insert(x));
}

/// Sorts `list` by `key`, largest first, keeping tied entries in their order.
#[verifier::rlimit(40)]
#[verifier::spinoff_prover]
pub fn sort_desc(list: &Vec<usize>, key: &Vec<usize>) -> (r: Vec<usize>)
    requires
        forall|i: int| 0 <= i < list.len() ==> #[trigger] list[i] < key.len(),
    ensures
        r@.to_multiset() == list@.to_multiset(),
        forall|x: usize| r@.contains(x) <==> list@.contains(x),
        forall|i: int| 0 <= i < r.len() ==> #[trigger] r[i] < key.len(),
        desc_by(r@, key@),
        exists|perm: Seq<int>| #[trigger] stable_arrangement(list@, r@, key@, perm),
{
    let mut r: Vec<usize> = Vec::new();
    let mut i: usize = 0;
    let ghost mut perm: Seq<int> = Seq::empty();
    assert(list@.take(0) =~= r@);
    while i < list.len()
        invariant
            i <= list.len(),
            r.len() == i,
            forall|k: int| 0 <= k < list.len() ==> #[trigger] list[k] < key.len(),
            forall|x: usize| r@.contains(x) <==> list@.take(i as int).contains(x),
            forall|k: int| 0 <= k < r.len() ==> #[trigger] r[k] < key.len(),
            desc_by(r@, key@),
            r@.to_multiset() == list@.take(i as int).to_multiset(),
            perm.len() == i,
            forall|k: int| 0 <= k < perm.len() ==> 0 <= #[trigger] perm[k] < i && r[k] == list[perm[k]],
            forall|a: int, b: int| 0 <= a < b < perm.len() ==> #[trigger] perm[a] != #[trigger] perm[b],
            forall|a: int, b: int|
                0 <= a < b < r.len() && key[#[trigger] r[a] as int] == key[#[trigger] r[b] as int] ==> perm[a] < perm[b],
        decreases list.len() - i,
    {
        let x = list[i];
        let mut p: usize = 0;
        while p < r.len() && key[r[p]] >= key[x]
            invariant
                p <= r.len(),
                x < key.len(),
                forall|k: int| 0 <= k < r.len() ==> #[trigger] r[k] < key.len(),
                forall|k: int| 0 <= k < p ==> key[#[trigger] r[k] as int] >= key[x as int],
            decreases r.len() - p,
        {
            p += 1;
        }
        let ghost old_r = r@;
        let ghost old_perm = perm;
        r.insert(p, x);
        proof {
            assert(r@ =~= old_r.take(p as int).push(x) + old_r.skip(p as int));
            perm = old_perm.take(p as int).push(i as int) + old_perm.skip(p as int);
            assert(r@.remove(p as int) =~= old_r);
            assert(r@[p as int] == x);
            assert(list@.take(i + 1) =~= list@.take(i as int).push(x));
            lemma_insert_multiset(old_r, r@, p as int, x, list@.take(i as int));
            assert forall|k: int| 0 <= k < perm.len() implies 0 <= #[trigger] perm[k] < i + 1 && r[k] == list[perm[k]] by {
                if k < p {
                    assert(perm[k] == old_perm[k]);
                    assert(r[k] == old_r[k]);
                } else if k > p {
                    assert(perm[k] == old_perm[k - 1]);
                    assert(r[k] == old_r[k - 1]);
                }
            }
            assert forall|a: int, b: int| 0 <= a < b < perm.len() implies #[trigger] perm[a] != #[trigger] perm[b] by {
                let oa = if a < p { a } else { a - 1 };
                let ob = if b < p { b } else { b - 1 };
                if a != p && b != p {
                    assert(perm[a] == old_perm[oa]);
                    assert(perm[b] == old_perm[ob]);
                } else if a == p {
                    assert(perm[b] == old_perm[ob]);
                    assert(old_perm[ob] < i);
                } else {
                    assert(perm[a] == old_perm[oa]);
                    assert(old_perm[oa] < i);
                }
            }
            assert forall|a: int, b: int|
                0 <= a < b < r.len() && key[#[trigger] r[a] as int] == key[#[trigger] r[b] as int] implies perm[a]
                < perm[b] by {
                let oa = if a < p { a } else { a - 1 };
                let ob = if b < p { b } else { b - 1 };
                if a != p && b != p {
                    assert(perm[a] == old_perm[oa] && r[a] == old_r[oa]);
                    assert(perm[b] == old_perm[ob] && r[b] == old_r[ob]);
                } else if a == p {
                    assert(r[b] == old_r[ob]);
                    assert(key[old_r[p as int] as int] < key[x as int]);
                    if ob > p {
                        assert(key[old_r[p as int] as int] >= key[old_r[ob] as int]);
                    }
                } else {
                    assert(perm[a] == old_perm[oa]);
                    assert(old_perm[oa] < i);
                }
            }
            assert forall|a: int, b: int| 0 <= a < b < r@.len() implies key[#[trigger] r@[a] as int] >= key[
                #[trigger] r@[b] as int] by {
                if b == p {
                    assert(r@[a] == old_r[a]);
                } else if a == p {
                    assert(r@[b] == old_r[b - 1]);
                    assert(key[old_r[p as int] as int] < key[x as int]);
                    if b - 1 > p {
                        assert(key[old_r[p as int] as int] >= key[old_r[b - 1] as int]);
                    }
                } else if b < p {
                    assert(r@[a] == old_r[a] && r@[b] == old_r[b]);
                } else if a < p {
                    assert(r@[a] == old_r[a] && r@[b] == old_r[b - 1]);
                    assert(key[old_r[a] as int] >= key[x as int]);
                    assert(key[old_r[p as int] as int] < key[x as int]);
                    if b - 1 > p {
                        assert(key[old_r[p as int] as int] >= key[old_r[b - 1] as int]);
                    }
                } else {
                    assert(r@[a] == old_r[a - 1] && r@[b] == old_r[b - 1]);
                }
            }
            assert(list@.take(i + 1) =~= list@.take(i as int).push(x));
            assert forall|y: usize| r@.contains(y) <==> list@.take(i + 1).contains(y) by {
                if r@.contains(y) {
                    let k = r@.index_of(y);
                    if k < p {
                        assert(old_r[k] == y);
                    } else if k > p {
                        assert(old_r[k - 1] == y);
                    }
                    if y != x {
                        assert(old_r.contains(y));
                        assert(list@.take(i as int).contains(y));
                        let q = list@.take(i as int).index_of(y);
                        assert(list@.take(i + 1)[q] == y);
                    } else {
                        assert(list@.take(i + 1)[i as int] == y);
                    }
                }
                if list@.take(i + 1).contains(y) {
                    let q = list@.take(i + 1).index_of(y);
                    if q < i {
                        assert(list@.take(i as int)[q] == y);
                        assert(old_r.contains(y));
                        let k = old_r.index_of(y);
                        if k < p {
                            assert(r@[k] == y);
                        } else {
                            assert(r@[k + 1] == y);
                        }
                    } else {
                        assert(r@[p as int] == y);
                    }
                }
            }
            assert forall|k: int| 0 <= k < r.len() implies #[trigger] r[k] < key.len() by {
                if k < p {
                    assert(r[k] == old_r[k]);
                } else if k > p {
                    assert(r[k] == old_r[k - 1]);
                }
            }
        }
        i += 1;
    }
    assert(list@.take(list.len() as int) =~= list@);
    assert(stable_arrangement(list@, r@, key@, perm)) by {
        reveal(stable_arrangement);
    }
    r
}

/// A set of nodes that holds `root` and every neighbour of its members holds
/// every node reachable from `root`.
proof fn lemma_closed_holds_reachable(edges: Seq<(usize, usize)>, root: int, vis: Seq<bool>, v: int, k: nat)
    requires
        edges_in_range(edges, vis.len() as int),
        0 <= root < vis.len(),
        vis[root],
        forall|u: int, w: int| 0 <= u < vis.len() && vis[u] && #[trigger] joined(edges, u, w) ==> vis[w],
        within(edges, root, v, k),
    ensures
        0 <= v < vis.len() && vis[v],
    decreases k,
{
    if k == 0 || within(edges, root, v, (k - 1) as nat) {
        if k == 0 {
            crate::reach::lemma_within_zero(edges, root, v);
        } else {
            lemma_closed_holds_reachable(edges, root, vis, v, (k - 1) as nat);
        }
    } else {
        let u = crate::reach::lemma_last_step(edges, root, v, k);
        lemma_closed_holds_reachable(edges, root, vis, u, (k - 1) as nat);
        lemma_joined_in_range(edges, u, v, vis.len() as int);
    }
}

impl Graph {
    /// The degree of every node, in node order.
    pub open spec fn degrees(&self) -> Seq<usize> {
        Seq::new(self.node_list@.len(), |i: int| self.node_list@[i].degree)
    }

    /// The node with the most links (the last of them where several tie).
    pub fn hub(&self) -> (h: usize)
        requires
            self.node_list.len() > 0,
        ensures
            is_hub(self.degrees(), h as int),
    {
        let n = self.node_list.len();
        let mut h: usize = 0;
        let mut i: usize = 1;
        while i < n
            invariant
                n == self.node_list.len(),
                1 <= i <= n,
                h < i,
                forall|j: int| 0 <= j < i ==> #[trigger] self.degrees()[j] <= self.degrees()[h as int],
                forall|j: int| h < j < i ==> #[trigger] self.degrees()[j] < self.degrees()[h as int],
            decreases n - i,
        {
            if self.node_list[i].degree >= self.node_list[h].degree {
                h = i;
            }
            i += 1;
        }
        h
    }

    /// The shells around `hub`: `layer_of[v]` is the number of links between
    /// `hub` and `v` (or `n + 1` where `v` is cut off), and `layers[k]` the
    /// nodes `k` links away.
    pub fn shells(&self, hub: usize) -> (l: Layers)
        requires
            self.wf(),
            hub < self.node_list.len(),
        ensures
            layers_exact(l, self.edges@, hub as int, self.n()),
    {
        layers_from(&self.adj, hub, Ghost(self.edges@))
    }

    /// Which nodes lie at most `hops` links from node `start`.
    pub fn reach_marks(&self, start: usize, hops: usize) -> (m: Vec<bool>)
        requires
            self.wf(),
            start < self.node_list.len(),
        ensures
            m.len() == self.n(),
            forall|v: int| 0 <= v < self.n() ==> #[trigger] m[v] == within(self.edges@, start as int, v, hops as nat),
    {
        let l = layers_from(&self.adj, start, Ghost(self.edges@));
        let n = self.node_list.len();
        let mut m: Vec<bool> = Vec::new();
        let mut v: usize = 0;
        while v < n
            invariant
                n == self.n(),
                n < usize::MAX,
                layers_exact(l, self.edges@, start as int, n as int),
                v <= n,
                m.len() == v,
                forall|u: int| 0 <= u < v ==> #[trigger] m[u] == within(self.edges@, start as int, u, hops as nat),
            decreases n - v,
        {
            let k = l.layer_of[v];
            m.push(k != n + 1 && k <= hops);
            proof {
                assert(within(self.edges@, start as int, v as int, hops as nat) <==> (l.layer_of[v as int] != n + 1
                    && l.layer_of[v as int] <= hops));
            }
            v += 1;
        }
        m
    }
}

/// The facts the walk keeps while it builds the tree.
pub open spec fn walk_state(
    edges: Seq<(usize, usize)>,
    n: int,
    root: int,
    key: Seq<usize>,
    visited: Seq<bool>,
    queue: Seq<usize>,
    head: int,
    children: Seq<Vec<usize>>,
    depth: Seq<usize>,
    seen: Set<int>,
) -> bool {
    &&& n <= usize::MAX
    &&& visited.len() == n
    &&& children.len() == n
    &&& depth.len() == n
    &&& key.len() == n
    &&& 0 <= root < n
    &&& 0 <= head <= queue.len()
    &&& queue.len() > 0
    &&& queue[0] == root
    &&& seen == Set::new(|u: int| 0 <= u < n && visited[u])
    &&& seen.finite()
    &&& seen.len() <= n
    &&& forall|i: int| 0 <= i < queue.len() ==> #[trigger] queue[i] < n && visited[queue[i] as int]
    &&& forall|v: int| 0 <= v < n && #[trigger] visited[v] ==> queue.contains(v as usize)
    &&& forall|i: int, w: int|
        0 <= i < head && #[trigger] joined(edges, queue[i] as int, w) ==> 0 <= w < n && visited[w]
    &&& forall|v: int| 0 <= v < n && #[trigger] visited[v] ==> reachable(edges, root, v)
    &&& forall|v: int| 0 <= v < n && #[trigger] visited[v] ==> depth[v] < seen.len()
    &&& forall|v: int| 0 <= v < n && !visited[v] ==> #[trigger] depth[v] == 0
    &&& depth[root] == 0
    &&& forall|p: int, j: int|
        0 <= p < n && 0 <= j < children[p]@.len() ==> {
            let c = #[trigger] children[p]@[j] as int;
            &&& 0 <= c < n
            &&& c != root
            &&& joined(edges, p, c)
            &&& visited[p]
            &&& visited[c]
            &&& depth[c] == depth[p] + 1
        }
    &&& forall|p: int| 0 <= p < n ==> desc_by((#[trigger] children[p])@, key)
    &&& forall|p: int, w: int|
        0 <= p < n && children[p]@.len() > 0 && #[trigger] joined(edges, p, w) ==> visited[w]
    &&& forall|p1: int, j1: int, p2: int, j2: int|
        0 <= p1 < n && 0 <= p2 < n && 0 <= j1 < children[p1]@.len() && 0 <= j2 < children[p2]@.len()
            && #[trigger] children[p1]@[j1] == #[trigger] children[p2]@[j2] ==> p1 == p2
}

/// Some list of `children` holds `v`: it hangs below some node.
pub open spec fn has_parent(children: Seq<Vec<usize>>, v: int) -> bool {
    exists|p: int, j: int| 0 <= p < children.len() && 0 <= j < children[p]@.len() && #[trigger] children[p]@[j] == v
}

/// `a` comes before `b` in `order`.
pub open spec fn listed_before(order: Seq<usize>, a: int, b: int) -> bool {
    exists|i: int, k: int| 0 <= i < k < order.len() && #[trigger] order[i] == a && #[trigger] order[k] == b
}

/// `d` is the number of links between `root` and `v` along a shortest walk.
pub open spec fn is_distance(edges: Seq<(usize, usize)>, root: int, v: int, d: nat) -> bool {
    &&& within(edges, root, v, d)
    &&& forall|k: nat| k < d ==> !#[trigger] within(edges, root, v, k)
}

/// The breadth-first facts the walk keeps: depths are walk lengths, the
/// queue holds depths in order within one of its head, each processed node's
/// neighbours lie at most one deeper, every reached node but the root hangs
/// below a node, and parents are queued before their children.
pub open spec fn walk_order(
    edges: Seq<(usize, usize)>,
    n: int,
    root: int,
    visited: Seq<bool>,
    queue: Seq<usize>,
    head: int,
    children: Seq<Vec<usize>>,
    depth: Seq<usize>,
) -> bool {
    &&& forall|v: int| 0 <= v < n && #[trigger] visited[v] ==> within(edges, root, v, depth[v] as nat)
    &&& forall|i: int, j: int|
        0 <= i <= j < queue.len() ==> depth[#[trigger] queue[i] as int] <= depth[#[trigger] queue[j] as int]
    &&& head < queue.len() ==> forall|i: int|
        0 <= i < queue.len() ==> depth[#[trigger] queue[i] as int] <= depth[queue[head] as int] + 1
    &&& forall|i: int, w: int|
        0 <= i < head && #[trigger] joined(edges, queue[i] as int, w) ==> depth[w] <= depth[queue[i] as int] + 1
    &&& forall|v: int| 0 <= v < n && #[trigger] visited[v] && v != root ==> has_parent(children, v)
    &&& forall|p: int, j: int|
        0 <= p < n && 0 <= j < children[p]@.len() ==> listed_before(queue, p, #[trigger] children[p]@[j] as int)
}

/// No earlier entry of `q` equals the one at position `i`.
pub open spec fn first_at(q: Seq<usize>, i: int) -> bool {
    forall|k: int| 0 <= k < i ==> #[trigger] q[k] != q[i]
}

/// The entries of `s`, in order, that `before` does not hold.
pub open spec fn not_in(s: Seq<usize>, before: Seq<usize>) -> Seq<usize>
    decreases s.len(),
{
    if s.len() == 0 {
        Seq::empty()
    } else {
        let pre = not_in(s.drop_last(), before);
        if before.contains(s.last()) {
            pre
        } else {
            pre.push(s.last())
        }
    }
}

/// What taking entry `i` off `queue` appended to it: the children of that node
/// the first time it comes up, nothing at a later time.
pub open spec fn appended(queue: Seq<usize>, children: Seq<Vec<usize>>, i: int) -> Seq<usize> {
    if first_at(queue, i) {
        children[queue[i] as int]@
    } else {
        Seq::empty()
    }
}

/// What taking the first `m` entries off `queue` appended to it, in turn.
pub open spec fn grown(queue: Seq<usize>, children: Seq<Vec<usize>>, m: int) -> Seq<usize>
    decreases m,
{
    if m <= 0 {
        Seq::empty()
    } else {
        grown(queue, children, m - 1) + appended(queue, children, m - 1)
    }
}

/// Child `c` of `p` hangs below the first of the first `m` entries of `queue`
/// joined to it, and that entry is where `p` first comes up.
pub open spec fn first_reached_from(edges: Seq<(usize, usize)>, queue: Seq<usize>, m: int, p: int, c: int) -> bool {
    exists|i: int|
        0 <= i < m && #[trigger] queue[i] == p && first_at(queue, i) && forall|k: int|
            0 <= k < i ==> !#[trigger] joined(edges, queue[k] as int, c)
}

/// The first `head` entries of `queue` have been taken off in turn: the queue
/// is `root` followed by what each of them appended; the first time a node
/// came up it took as children its neighbours not yet queued, sorted by `key`
/// from largest to smallest with ties in neighbour-list order; and each child
/// hangs below the first queued node joined to it.
#[verifier::opaque]
pub open spec fn expands_in_order(
    edges: Seq<(usize, usize)>,
    key: Seq<usize>,
    root: int,
    queue: Seq<usize>,
    head: int,
    children: Seq<Vec<usize>>,
) -> bool {
    &&& queue == seq![root as usize] + grown(queue, children, head)
    &&& forall|i: int|
        0 <= i < head && #[trigger] first_at(queue, i) ==> exists|perm: Seq<int>|
            #[trigger] stable_arrangement(
                not_in(neighbours(edges, queue[i] as int), queue.take(grown(queue, children, i).len() + 1int)),
                children[queue[i] as int]@,
                key,
                perm,
            )
    &&& forall|p: int, j: int|
        0 <= p < children.len() && 0 <= j < children[p]@.len() ==> first_reached_from(
            edges,
            queue,
            head,
            p,
            #[trigger] children[p]@[j] as int,
        )
}

/// `grown` depends only on the entries it takes off and their children.
proof fn lemma_grown_same(q1: Seq<usize>, c1: Seq<Vec<usize>>, q2: Seq<usize>, c2: Seq<Vec<usize>>, m: int)
    requires
        0 <= m <= q1.len(),
        m <= q2.len(),
        forall|k: int| 0 <= k < m ==> #[trigger] q1[k] == q2[k],
        forall|k: int| 0 <= k < m && #[trigger] first_at(q1, k) ==> c1[q1[k] as int]@ == c2[q1[k] as int]@,
    ensures
        grown(q1, c1, m) == grown(q2, c2, m),
        forall|k: int| 0 <= k < m ==> #[trigger] first_at(q1, k) == first_at(q2, k),
    decreases m,
{
    assert forall|k: int| 0 <= k < m implies #[trigger] first_at(q1, k) == first_at(q2, k) by {
        if first_at(q1, k) {
            assert forall|z: int| 0 <= z < k implies #[trigger] q2[z] != q2[k] by {
                assert(q1[z] != q1[k]);
            }
        }
        if first_at(q2, k) {
            assert forall|z: int| 0 <= z < k implies #[trigger] q1[z] != q1[k] by {
                assert(q2[z] != q2[k]);
            }
        }
    }
    if m > 0 {
        lemma_grown_same(q1, c1, q2, c2, m - 1);
        assert(appended(q1, c1, m - 1) == appended(q2, c2, m - 1));
    }
}

/// `grown` only lengthens as more entries are taken off.
proof fn lemma_grown_len(q: Seq<usize>, c: Seq<Vec<usize>>, i: int, m: int)
    requires
        0 <= i <= m,
    ensures
        grown(q, c, i).len() <= grown(q, c, m).len(),
    decreases m - i,
{
    if i < m {
        lemma_grown_len(q, c, i, m - 1);
    }
}

/// What the tree says of the graph it was built from.
pub open spec fn tree_of(t: Tree, edges: Seq<(usize, usize)>, n: int, key: Seq<usize>) -> bool {
    &&& is_hub(key, t.root as int)
    &&& t.children.len() == n
    &&& t.depth.len() == n
    &&& t.width.len() == n
    &&& t.order@.len() > 0
    &&& t.order@[0] == t.root
    &&& forall|i: int| 0 <= i < t.order@.len() ==> #[trigger] t.order@[i] < n
    &&& forall|v: int| 0 <= v < n ==> (t.order@.contains(v as usize) <==> #[trigger] reachable(edges, t.root as int, v))
    &&& forall|i: int| 0 <= i < t.disconnected@.len() ==> #[trigger] t.disconnected@[i] < n
    &&& forall|v: int|
        0 <= v < n ==> (t.disconnected@.contains(v as usize) <==> !#[trigger] reachable(edges, t.root as int, v))
    &&& forall|i: int, j: int| 0 <= i < j < t.disconnected@.len() ==> t.disconnected@[i] < t.disconnected@[j]
    &&& t.depth[t.root as int] == 0
    &&& forall|v: int| 0 <= v < n && !reachable(edges, t.root as int, v) ==> #[trigger] t.depth[v] == 0
    &&& forall|p: int, j: int|
        0 <= p < n && 0 <= j < t.children[p]@.len() ==> {
            let c = #[trigger] t.children[p]@[j] as int;
            &&& 0 <= c < n
            &&& c != t.root
            &&& joined(edges, p, c)
            &&& t.depth[c] == t.depth[p] + 1
        }
    &&& forall|p: int| 0 <= p < n ==> desc_by((#[trigger] t.children[p])@, key)
    &&& forall|p1: int, j1: int, p2: int, j2: int|
        0 <= p1 < n && 0 <= p2 < n && 0 <= j1 < t.children[p1]@.len() && 0 <= j2 < t.children[p2]@.len()
            && #[trigger] t.children[p1]@[j1] == #[trigger] t.children[p2]@[j2] ==> p1 == p2
    &&& forall|v: int|
        0 <= v < n && #[trigger] reachable(edges, t.root as int, v) ==> is_distance(edges, t.root as int, v, t.depth[v] as nat)
    &&& forall|v: int|
        0 <= v < n && v != t.root && #[trigger] reachable(edges, t.root as int, v) ==> has_parent(t.children@, v)
    &&& forall|p: int, j: int|
        0 <= p < n && 0 <= j < t.children[p]@.len() ==> listed_before(t.order@, p, #[trigger] t.children[p]@[j] as int)
    &&& expands_in_order(edges, key, t.root as int, t.order@, t.order@.len() as int, t.children@)
    &&& forall|v: int|
        0 <= v < n ==> #[trigger] t.width[v] == if t.children[v]@.len() == 0 {
            1
        } else {
            capped_sum(t.children[v]@, t.width@)
        }
}

impl Graph {
    /// The degrees as a vector.
    pub fn degree_list(&self) -> (key: Vec<usize>)
        ensures
            key@ == self.degrees(),
    {
        let mut key: Vec<usize> = Vec::new();
        let mut i: usize = 0;
        while i < self.node_list.len()
            invariant
                i <= self.node_list.len(),
                key@ == self.degrees().take(i as int),
            decreases self.node_list.len() - i,
        {
            key.push(self.node_list[i].degree);
            proof {
                assert(key@ =~= self.degrees().take(i + 1));
            }
            i += 1;
        }
        assert(key@ =~= self.degrees());
        key
    }

    /// The breadth-first tree from the hub: each node hangs below the first
    /// node it is reached from, with the best-linked neighbours taken first.
    #[verifier::rlimit(40)]
    #[verifier::spinoff_prover]
    pub fn spanning_tree(&self) -> (t: Tree)
        requires
            self.wf(),
            self.node_list.len() > 0,
        ensures
            tree_of(t, self.edges@, self.n(), self.degrees()),
    {
        let n = self.node_list.len();
        let root = self.hub();
        let key = self.degree_list();
        let mut visited: Vec<bool> = Vec::new();
        let mut children: Vec<Vec<usize>> = Vec::new();
        let mut depth: Vec<usize> = Vec::new();
        let mut v: usize = 0;
        while v < n
            invariant
                v <= n,
                visited.len() == v,
                children.len() == v,
                depth.len() == v,
                forall|u: int| 0 <= u < v ==> !#[trigger] visited[u],
                forall|u: int| 0 <= u < v ==> (#[trigger] children[u])@.len() == 0,
                forall|u: int| 0 <= u < v ==> #[trigger] depth[u] == 0,
            decreases n - v,
        {
            visited.push(false);
            children.push(Vec::new());
            depth.push(0);
            v += 1;
        }
        visited.set(root, true);
        let mut queue: Vec<usize> = Vec::new();
        queue.push(root);
        let mut head: usize = 0;
        let ghost mut seen: Set<int> = set![root as int];
        proof {
            assert(seen =~= Set::new(|u: int| 0 <= u < n && visited[u]));
            lemma_int_range(0, n as int);
            lemma_len_subset(seen, set_int_range(0, n as int));
            assert forall|u: int| 0 <= u < n && #[trigger] visited[u] implies queue@.contains(u as usize) by {
                assert(u == root);
                assert(queue@[0] == root);
            }
            assert forall|u: int| 0 <= u < n && #[trigger] visited[u] implies reachable(self.edges@, root as int, u) by {
                crate::reach::lemma_within_zero(self.edges@, root as int, u);
                assert(within(self.edges@, root as int, u, 0));
            }
            assert forall|p: int| 0 <= p < n implies desc_by((#[trigger] children[p])@, key@) by {}
            assert forall|v: int| 0 <= v < n && #[trigger] visited[v] implies within(
                self.edges@,
                root as int,
                v,
                depth[v] as nat,
            ) by {
                assert(v == root);
                crate::reach::lemma_within_zero(self.edges@, root as int, v);
            }
            assert forall|v: int| 0 <= v < n && #[trigger] visited[v] && v != root implies has_parent(children@, v) by {}
            assert(walk_order(self.edges@, n as int, root as int, visited@, queue@, head as int, children@, depth@));
            assert(queue@ =~= seq![root] + grown(queue@, children@, 0));
            assert(expands_in_order(self.edges@, key@, root as int, queue@, 0, children@)) by {
                reveal(expands_in_order);
            }
        }
        while head < queue.len()
            invariant
                n == self.node_list.len(),
                self.wf(),
                key@ == self.degrees(),
                is_hub(key@, root as int),
                walk_state(
                    self.edges@,
                    n as int,
                    root as int,
                    key@,
                    visited@,
                    queue@,
                    head as int,
                    children@,
                    depth@,
                    seen,
                ),
                walk_order(self.edges@, n as int, root as int, visited@, queue@, head as int, children@, depth@),
                expands_in_order(self.edges@, key@, root as int, queue@, head as int, children@),
            decreases n - seen.len(), queue.len() - head,
        {
            let cur = queue[head];
            let row = &self.adj[cur];
            proof {
                assert(row@ == neighbours(self.edges@, cur as int));
            }
            proof {
                assert forall|u: int| 0 <= u < n implies (#[trigger] visited[u] <==> queue@.contains(u as usize)) by {
                    if queue@.contains(u as usize) {
                        let z = queue@.index_of(u as usize);
                        assert(queue[z] == u);
                    }
                }
                assert(row@.take(0) =~= Seq::<usize>::empty());
            }
            let mut fresh: Vec<usize> = Vec::new();
            let mut j: usize = 0;
            while j < row.len()
                invariant
                    n == self.node_list.len(),
                    self.wf(),
                    cur < n,
                    row@ == neighbours(self.edges@, cur as int),
                    visited.len() == n,
                    j <= row.len(),
                    forall|q: int| 0 <= q < fresh.len() ==> #[trigger] fresh[q] < n && !visited[fresh[q] as int]
                        && joined(self.edges@, cur as int, fresh[q] as int),
                    forall|q: int| 0 <= q < j && !visited[#[trigger] row@[q] as int] ==> fresh@.contains(row@[q]),
                    forall|u: int| 0 <= u < n ==> (#[trigger] visited[u] <==> queue@.contains(u as usize)),
                    fresh@ == not_in(row@.take(j as int), queue@),
                decreases row.len() - j,
            {
                let w = row[j];
                proof {
                    lemma_neighbours_joined(self.edges@, cur as int, w as int);
                    assert(row@[j as int] == w);
                    lemma_joined_in_range(self.edges@, cur as int, w as int, n as int);
                }
                let ghost prev = fresh@;
                if !visited[w] {
                    fresh.push(w);
                    proof {
                        assert(fresh@[fresh.len() - 1] == w);
                    }
                }
                proof {
                    assert forall|q: int| 0 <= q < j + 1 && !visited[#[trigger] row@[q] as int] implies fresh@.contains(
                        row@[q],
                    ) by {
                        if q < j {
                            assert(prev.contains(row@[q]));
                            let z = prev.index_of(row@[q]);
                            assert(fresh@[z] == row@[q]);
                        } else {
                            assert(fresh@[fresh.len() - 1] == w);
                        }
                    }
                    assert(row@.take(j + 1).drop_last() =~= row@.take(j as int));
                    assert(row@.take(j + 1).last() == w);
                    assert(visited[w as int] <==> queue@.contains(w));
                }
                j += 1;
            }
            proof {
                assert(row@.take(row.len() as int) =~= row@);
            }
            let nbs = sort_desc(&fresh, &key);
            let ghost perm = choose|perm: Seq<int>| #[trigger] stable_arrangement(fresh@, nbs@, key@, perm);
            let ghost old_children = children@;
            let ghost old_seen = seen;
            let ghost old_queue = queue@;
            let ghost old_visited = visited@;
            let ghost old_depth = depth@;
            proof {
                // a node already parent to some children had all its neighbours visited
                assert forall|q: int| 0 <= q < nbs.len() implies !old_visited[#[trigger] nbs[q] as int] && joined(
                    self.edges@,
                    cur as int,
                    nbs[q] as int,
                ) by {
                    assert(nbs@.contains(nbs[q]));
                    assert(fresh@.contains(nbs[q]));
                    let z = fresh@.index_of(nbs[q]);
                    assert(fresh[z] == nbs[q]);
                }
                if old_children[cur as int]@.len() > 0 && nbs.len() > 0 {
                    assert(!old_visited[nbs[0] as int]);
                    assert(joined(self.edges@, cur as int, nbs[0] as int));
                }
                assert forall|q: int| 0 <= q < row@.len() && !old_visited[#[trigger] row@[q] as int] implies nbs@.contains(
                    row@[q],
                ) by {
                    assert(fresh@.contains(row@[q]));
                }
            }
            let mut k: usize = 0;
            while k < nbs.len()
                invariant
                    n == self.node_list.len(),
                    self.wf(),
                    cur < n,
                    head < old_queue.len(),
                    old_queue[head as int] == cur,
                    key@ == self.degrees(),
                    k <= nbs.len(),
                    forall|q: int| 0 <= q < nbs.len() ==> #[trigger] nbs[q] < n,
                    forall|q: int|
                        0 <= q < nbs.len() ==> !old_visited[#[trigger] nbs[q] as int] && joined(
                            self.edges@,
                            cur as int,
                            nbs[q] as int,
                        ),
                    desc_by(nbs@, key@),
                    old_children[cur as int]@.len() > 0 ==> nbs.len() == 0,
                    expands_in_order(self.edges@, key@, root as int, old_queue, head as int, old_children),
                    stable_arrangement(not_in(neighbours(self.edges@, cur as int), old_queue), nbs@, key@, perm),
                    walk_state(
                        self.edges@,
                        n as int,
                        root as int,
                        key@,
                        old_visited,
                        old_queue,
                        head as int,
                        old_children,
                        old_depth,
                        old_seen,
                    ),
                    walk_order(self.edges@, n as int, root as int, old_visited, old_queue, head as int, old_children, old_depth),
                    visited.len() == n,
                    children.len() == n,
                    depth.len() == n,
                    queue@ == old_queue + nbs@.take(k as int),
                    children[cur as int]@ == old_children[cur as int]@ + nbs@.take(k as int),
                    forall|p: int| 0 <= p < n && p != cur ==> #[trigger] children[p] == old_children[p],
                    forall|u: int|
                        0 <= u < n ==> #[trigger] visited[u] == (old_visited[u] || nbs@.take(k as int).contains(
                            u as usize,
                        )),
                    forall|u: int| 0 <= u < n && !nbs@.take(k as int).contains(u as usize) ==> #[trigger] depth[u] == old_depth[u],
                    forall|u: int| 0 <= u < n && nbs@.take(k as int).contains(u as usize) ==> #[trigger] depth[u] == old_depth[cur as int] + 1,
                    seen == Set::new(|u: int| 0 <= u < n && visited[u]),
                    k > 0 ==> seen.len() > old_seen.len(),
                    seen.len() <= n,
                    seen.finite(),
                decreases nbs.len() - k,
            {
                let nb = nbs[k];
                let ghost pre_seen = seen;
                visited.set(nb, true);
                children[cur].push(nb);
                let dc = depth[cur];
                proof {
                    assert(dc == old_depth[cur as int]);
                    assert(old_depth[cur as int] < old_seen.len());
                }
                depth.set(nb, dc + 1);
                queue.push(nb);
                proof {
                    seen = seen.insert(nb as int);
                    assert(seen =~= Set::new(|u: int| 0 <= u < n && visited[u]));
                    lemma_int_range(0, n as int);
                    lemma_len_subset(seen, set_int_range(0, n as int));
                    if !pre_seen.contains(nb as int) {
                        assert(seen.len() == pre_seen.len() + 1);
                    } else {
                        assert(seen =~= pre_seen);
                    }
                    assert(nbs@.take(k + 1) =~= nbs@.take(k as int).push(nb));
                    assert forall|u: int| 0 <= u < n implies (#[trigger] nbs@.take(k + 1).contains(u as usize) <==> (nbs@.take(k as int).contains(u as usize) || u == nb)) by {
                        if nbs@.take(k + 1).contains(u as usize) {
                            let z = nbs@.take(k + 1).index_of(u as usize);
                            if z < k {
                                assert(nbs@.take(k as int)[z] == u);
                            }
                        }
                        if nbs@.take(k as int).contains(u as usize) {
                            let z = nbs@.take(k as int).index_of(u as usize);
                            assert(nbs@.take(k + 1)[z] == u);
                        }
                        if u == nb {
                            assert(nbs@.take(k + 1)[k as int] == u);
                        }
                    }
                    assert(queue@ =~= old_queue + nbs@.take(k + 1));
                    assert(children[cur as int]@ =~= old_children[cur as int]@ + nbs@.take(k + 1));
                    if k == 0 {
                        assert(!old_visited[nb as int]);
                        assert(!old_seen.contains(nb as int));
                        assert(pre_seen == old_seen);
                    }
                }
                k += 1;
            }
            proof {
                assert(nbs@.take(nbs.len() as int) =~= nbs@);
                lemma_walk_step(
                    self.edges@,
                    n as int,
                    root as int,
                    key@,
                    cur as int,
                    nbs@,
                    old_visited,
                    old_queue,
                    head as int,
                    old_children,
                    old_depth,
                    old_seen,
                    visited@,
                    queue@,
                    children@,
                    depth@,
                    seen,
                    row@,
                );
                lemma_queue_step(
                    self.edges@,
                    n as int,
                    root as int,
                    key@,
                    cur as int,
                    nbs@,
                    perm,
                    old_visited,
                    old_queue,
                    head as int,
                    old_children,
                    queue@,
                    children@,
                );
                lemma_order_step(
                    self.edges@,
                    n as int,
                    root as int,
                    key@,
                    cur as int,
                    nbs@,
                    old_visited,
                    old_queue,
                    head as int,
                    old_children,
                    old_depth,
                    old_seen,
                    visited@,
                    queue@,
                    children@,
                    depth@,
                    row@,
                );
            }
            head += 1;
        }
        let mut disconnected: Vec<usize> = Vec::new();
        let mut v: usize = 0;
        while v < n
            invariant
                v <= n,
                visited.len() == n,
                forall|i: int| 0 <= i < disconnected.len() ==> #[trigger] disconnected[i] < v,
                forall|u: int| 0 <= u < v ==> (disconnected@.contains(u as usize) <==> !#[trigger] visited[u]),
                forall|i: int, j: int| 0 <= i < j < disconnected@.len() ==> disconnected@[i] < disconnected@[j],
            decreases n - v,
        {
            let ghost prev = disconnected@;
            if !visited[v] {
                disconnected.push(v);
                proof {
                    assert(disconnected@[disconnected.len() - 1] == v);
                }
            }
            proof {
                assert forall|u: int| 0 <= u < v + 1 implies (disconnected@.contains(u as usize) <==> !#[trigger] visited[u]) by {
                    if disconnected@.contains(u as usize) {
                        let z = disconnected@.index_of(u as usize);
                        assert(disconnected@[z] == u);
                        if z < prev.len() {
                            assert(prev[z] == u);
                            assert(prev[z] < v);
                        }
                    }
                    if u < v && prev.contains(u as usize) {
                        let z = prev.index_of(u as usize);
                        assert(disconnected@[z] == u);
                    }
                    if u == v && !visited[u] {
                        assert(disconnected@[disconnected.len() - 1] == v);
                    }
                }
            }
            v += 1;
        }
        proof {
            assert forall|u: int| 0 <= u < n implies (#[trigger] visited[u] <==> reachable(self.edges@, root as int, u)) by {
                if reachable(self.edges@, root as int, u) {
                    let k = choose|k: nat| #[trigger] within(self.edges@, root as int, u, k);
                    assert forall|a: int, w: int| 0 <= a < visited@.len() && visited@[a] && #[trigger] joined(self.edges@, a, w) implies visited@[w] by {
                        assert(queue@.contains(a as usize));
                        let i = queue@.index_of(a as usize);
                        assert(queue@[i] == a);
                    }
                    lemma_closed_holds_reachable(self.edges@, root as int, visited@, u, k);
                }
            }
        }
        let width = tree_widths(&children, &depth, &visited, n);
        let t = Tree { root, order: queue, children, depth, disconnected, width };
        proof {
            assert forall|u: int| 0 <= u < n implies (t.order@.contains(u as usize) <==> #[trigger] reachable(self.edges@, root as int, u)) by {
                if t.order@.contains(u as usize) {
                    let i = t.order@.index_of(u as usize);
                    assert(visited[t.order@[i] as int]);
                }
                assert(visited[u] <==> reachable(self.edges@, root as int, u));
            }
            assert forall|u: int| 0 <= u < n implies (t.disconnected@.contains(u as usize) <==> !#[trigger] reachable(self.edges@, root as int, u)) by {
                assert(visited[u] <==> reachable(self.edges@, root as int, u));
            }
            assert forall|u: int| 0 <= u < n && !reachable(self.edges@, root as int, u) implies #[trigger] t.depth[u] == 0 by {
                assert(visited[u] <==> reachable(self.edges@, root as int, u));
            }
            assert forall|u: int| 0 <= u < n implies (#[trigger] visited@[u] <==> reachable(self.edges@, root as int, u)) by {
                assert(visited[u] <==> reachable(self.edges@, root as int, u));
            }
            assert forall|v: int|
                0 <= v < n && #[trigger] reachable(self.edges@, root as int, v) implies is_distance(
                self.edges@,
                root as int,
                v,
                t.depth[v] as nat,
            ) by {
                assert(visited[v]);
                assert forall|k: nat| k < t.depth[v] implies !#[trigger] within(self.edges@, root as int, v, k) by {
                    if within(self.edges@, root as int, v, k) {
                        lemma_depth_at_most(self.edges@, n as int, root as int, visited@, queue@, depth@, v, k);
                    }
                }
            }
            assert forall|v: int|
                0 <= v < n && v != root && #[trigger] reachable(self.edges@, root as int, v) implies has_parent(
                t.children@,
                v,
            ) by {
                assert(visited[v]);
            }
        }
        t
    }
}

/// The ids within `hops` links of the node with id `start` (the last node with
/// that id), together with `start` itself, known or not.
pub open spec fn bfs_ids(g: Graph, start: Seq<char>, hops: nat) -> Set<Seq<char>> {
    match position_of(g.ids(), start) {
        None => set![start],
        Some(p) => Set::new(
            |t: Seq<char>|
                t == start || exists|v: int|
                    0 <= v < g.n() && #[trigger] g.ids()[v] == t && within(g.edges@, p, v, hops),
        ),
    }
}

/// `t` is not `start` and some node before position `v` has id `t`.
pub open spec fn found_before(ids: Seq<Seq<char>>, t: Seq<char>, start: Seq<char>, v: int) -> bool {
    t != start && exists|u: int| 0 <= u < v && #[trigger] ids[u] == t
}

impl Graph {
    /// The first neighbour of `v` (in neighbour-list order) whose shell in
    /// `layer_of` comes before `shell`: the node a layout lines `v` up with.
    pub fn earlier_neighbour(&self, v: usize, layer_of: &Vec<usize>, shell: usize) -> (r: Option<usize>)
        requires
            self.wf(),
            v < self.node_list.len(),
            layer_of.len() == self.n(),
        ensures
            ({
                let row = neighbours(self.edges@, v as int);
                match r {
                    Some(w) => exists|j: int|
                        0 <= j < row.len() && #[trigger] row[j] == w && layer_of[w as int] < shell && forall|k: int|
                            0 <= k < j ==> layer_of[#[trigger] row[k] as int] >= shell,
                    None => forall|k: int| 0 <= k < row.len() ==> layer_of[#[trigger] row[k] as int] >= shell,
                }
            }),
    {
        let row = &self.adj[v];
        proof {
            assert(row@ == neighbours(self.edges@, v as int));
        }
        let mut j: usize = 0;
        while j < row.len()
            invariant
                self.wf(),
                v < self.node_list.len(),
                layer_of.len() == self.n(),
                row@ == neighbours(self.edges@, v as int),
                j <= row.len(),
                forall|k: int| 0 <= k < j ==> layer_of[#[trigger] row@[k] as int] >= shell,
            decreases row.len() - j,
        {
            let w = row[j];
            proof {
                lemma_neighbours_joined(self.edges@, v as int, w as int);
                assert(row@[j as int] == w);
                lemma_joined_in_range(self.edges@, v as int, w as int, self.n());
            }
            if layer_of[w] < shell {
                return Some(w);
            }
            j += 1;
        }
        None
    }

    /// The ring layout's order: the walk of `spanning_tree` (`Tree::order`),
    /// then the nodes it never reaches in increasing order. Every node
    /// appears.
    pub fn ring_order(&self) -> (r: Vec<usize>)
        requires
            self.wf(),
            self.node_list.len() > 0,
        ensures
            r.len() > 0,
            is_hub(self.degrees(), r[0] as int),
            forall|i: int| 0 <= i < r.len() ==> #[trigger] r[i] < self.n(),
            forall|v: int| 0 <= v < self.n() ==> #[trigger] r@.contains(v as usize),
            exists|t: Tree| #[trigger] tree_of(t, self.edges@, self.n(), self.degrees()) && r@ == t.order@ + t.disconnected@,
    {
        let t = self.spanning_tree();
        let ghost tg = t;
        let mut r = t.order;
        let ghost first = r@;
        let mut i: usize = 0;
        while i < t.disconnected.len()
            invariant
                i <= t.disconnected.len(),
                tree_of(t, self.edges@, self.n(), self.degrees()),
                r@ == first + t.disconnected@.take(i as int),
                first == t.order@,
            decreases t.disconnected.len() - i,
        {
            r.push(t.disconnected[i]);
            proof {
                assert(t.disconnected@.take(i + 1) =~= t.disconnected@.take(i as int).push(t.disconnected@[i as int]));
            }
            i += 1;
        }
        proof {
            assert(t.disconnected@.take(t.disconnected.len() as int) =~= t.disconnected@);
            assert(r@[0] == first[0]);
            assert forall|i: int| 0 <= i < r.len() implies #[trigger] r[i] < self.n() by {
                if i >= first.len() {
                    assert(r@[i] == t.disconnected@[i - first.len()]);
                }
            }
            assert forall|v: int| 0 <= v < self.n() implies #[trigger] r@.contains(v as usize) by {
                if reachable(self.edges@, t.root as int, v) {
                    let z = first.index_of(v as usize);
                    assert(r@[z] == v);
                } else {
                    assert(t.disconnected@.contains(v as usize));
                    let z = t.disconnected@.index_of(v as usize);
                    assert(r@[first.len() + z] == v);
                }
            }
            assert(tree_of(tg, self.edges@, self.n(), self.degrees()) && r@ == tg.order@ + tg.disconnected@);
        }
        r
    }

    /// The ids of the nodes within `hops` links of the node with id
    /// `start_id`, and `start_id` itself; each once where ids are distinct.
    pub fn bfs(&self, start_id: &String, hops: usize) -> (r: Vec<String>)
        requires
            self.wf(),
        ensures
            views(r@).to_set() == bfs_ids(*self, start_id@, hops as nat),
            self.ids().no_duplicates() ==> views(r@).no_duplicates(),
    {
        let mut r: Vec<String> = Vec::new();
        r.push(start_id.clone());
        let found = self.nodes.find(start_id);
        match found {
            None => {
                proof {
                    lemma_position_of_none(self.ids(), start_id@);
                    assert(views(r@).to_set() =~= set![start_id@]) by {
                        assert(views(r@)[0] == start_id@);
                    }
                }
                r
            },
            Some(p) => {
                proof {
                    lemma_position_of(self.ids(), start_id@, p as int);
                }
                let marks = self.reach_marks(p, hops);
                proof {
                    assert(views(r@).to_set() =~= Set::new(
                        |t: Seq<char>|
                            t == start_id@ || exists|u: int|
                                0 <= u < 0 && #[trigger] self.ids()[u] == t && within(self.edges@, p as int, u, hops as nat),
                    )) by {
                        assert(views(r@)[0] == start_id@);
                    }
                }
                let n = self.node_list.len();
                let mut v: usize = 0;
                while v < n
                    invariant
                        n == self.n(),
                        v <= n,
                        self.wf(),
                        p < n,
                        marks.len() == n,
                        r@.len() > 0,
                        r@[0]@ == start_id@,
                        forall|u: int| 0 <= u < n ==> #[trigger] marks[u] == within(self.edges@, p as int, u, hops as nat),
                        views(r@).to_set() == Set::new(
                            |t: Seq<char>|
                                t == start_id@ || exists|u: int|
                                    0 <= u < v && #[trigger] self.ids()[u] == t && within(self.edges@, p as int, u, hops as nat),
                        ),
                        self.ids().no_duplicates() ==> views(r@).no_duplicates(),
                        forall|i: int| 1 <= i < r@.len() ==> #[trigger] found_before(self.ids(), views(r@)[i], start_id@, v as int),
                    decreases n - v,
                {
                    let ghost before = views(r@);
                    if marks[v] && !self.node_list[v].id.eq(start_id) {
                        r.push(self.node_list[v].id.clone());
                        proof {
                            assert(views(r@) =~= before.push(self.ids()[v as int]));
                            if self.ids().no_duplicates() {
                                assert forall|a: int, b: int|
                                    0 <= a < b < views(r@).len() implies views(r@)[a] != views(r@)[b] by {
                                    if b == before.len() {
                                        if a == 0 {
                                            assert(views(r@)[a] == start_id@);
                                        } else {
                                            assert(found_before(self.ids(), before[a], start_id@, v as int));
                                            let u = choose|u: int| 0 <= u < v && #[trigger] self.ids()[u] == before[a];
                                            assert(self.ids()[u] != self.ids()[v as int]);
                                        }
                                    } else {
                                        assert(views(r@)[a] == before[a]);
                                        assert(views(r@)[b] == before[b]);
                                    }
                                }
                            }
                        }
                    }
                    proof {
                        let target = Set::new(
                            |t: Seq<char>|
                                t == start_id@ || exists|u: int|
                                    0 <= u < v + 1 && #[trigger] self.ids()[u] == t && within(self.edges@, p as int, u, hops as nat),
                        );
                        assert forall|t: Seq<char>| #[trigger] views(r@).to_set().contains(t) <==> target.contains(t) by {
                            if views(r@).to_set().contains(t) {
                                let z = views(r@).index_of(t);
                                if z < before.len() {
                                    assert(before[z] == t);
                                    assert(before.to_set().contains(t));
                                } else {
                                    assert(self.ids()[v as int] == t);
                                }
                            }
                            if target.contains(t) && t != start_id@ {
                                let u = choose|u: int|
                                    0 <= u < v + 1 && #[trigger] self.ids()[u] == t && within(self.edges@, p as int, u, hops as nat);
                                if u < v {
                                    assert(before.to_set().contains(t));
                                    let z = before.index_of(t);
                                    assert(views(r@)[z] == t);
                                } else if t != self.ids()[v as int] || views(r@).len() > before.len() {
                                    assert(views(r@)[views(r@).len() - 1] == t);
                                }
                            }
                            if t == start_id@ {
                                assert(before[0] == t);
                                assert(views(r@)[0] == t);
                            }
                        }
                        assert(views(r@).to_set() =~= target);
                        assert forall|i: int| 1 <= i < r@.len() implies #[trigger] found_before(
                            self.ids(),
                            views(r@)[i],
                            start_id@,
                            v + 1,
                        ) by {
                            if i < before.len() {
                                assert(views(r@)[i] == before[i]);
                                assert(found_before(self.ids(), before[i], start_id@, v as int));
                                let u = choose|u: int| 0 <= u < v && #[trigger] self.ids()[u] == before[i];
                                assert(self.ids()[u] == views(r@)[i]);
                            } else {
                                assert(self.ids()[v as int] == views(r@)[i]);
                            }
                        }
                    }
                    v += 1;
                }
                r
            },
        }
    }

    /// For each node, the position in `old` of the node with the same id (the
    /// last one), so that a reloaded graph can keep the places of known nodes.
    pub fn transplant_map(&self, old: &Graph) -> (m: Vec<Option<usize>>)
        requires
            self.wf(),
            old.wf(),
        ensures
            m.len() == self.n(),
            forall|i: int|
                0 <= i < self.n() ==> match #[trigger] m[i] {
                    Some(j) => position_of(old.ids(), self.ids()[i]) == Some(j as int),
                    None => position_of(old.ids(), self.ids()[i]) == None::<int>,
                },
    {
        let mut m: Vec<Option<usize>> = Vec::new();
        let mut i: usize = 0;
        while i < self.node_list.len()
            invariant
                i <= self.node_list.len(),
                old.wf(),
                m.len() == i,
                forall|k: int|
                    0 <= k < i ==> match #[trigger] m[k] {
                        Some(j) => position_of(old.ids(), self.ids()[k]) == Some(j as int),
                        None => position_of(old.ids(), self.ids()[k]) == None::<int>,
                    },
            decreases self.node_list.len() - i,
        {
            let f = old.nodes.find(&self.node_list[i].id);
            proof {
                match f {
                    Some(j) => lemma_position_of(old.ids(), self.ids()[i as int], j as int),
                    None => lemma_position_of_none(old.ids(), self.ids()[i as int]),
                }
            }
            m.push(f);
            i += 1;
        }
        m
    }
}

/// One step of the walk keeps its facts: `cur` (at `head`) took the unvisited
/// neighbours `nbs` as children.
proof fn lemma_walk_step(
    edges: Seq<(usize, usize)>,
    n: int,
    root: int,
    key: Seq<usize>,
    cur: int,
    nbs: Seq<usize>,
    visited0: Seq<bool>,
    queue0: Seq<usize>,
    head: int,
    children0: Seq<Vec<usize>>,
    depth0: Seq<usize>,
    seen0: Set<int>,
    visited: Seq<bool>,
    queue: Seq<usize>,
    children: Seq<Vec<usize>>,
    depth: Seq<usize>,
    seen: Set<int>,
    row: Seq<usize>,
)
    requires
        walk_state(edges, n, root, key, visited0, queue0, head, children0, depth0, seen0),
        edges_in_range(edges, n),
        head < queue0.len(),
        queue0[head] == cur,
        row == neighbours(edges, cur),
        forall|q: int| 0 <= q < nbs.len() ==> #[trigger] nbs[q] < n,
        forall|q: int| 0 <= q < nbs.len() ==> !visited0[#[trigger] nbs[q] as int] && joined(edges, cur, nbs[q] as int),
        forall|q: int| 0 <= q < row.len() && !visited0[#[trigger] row[q] as int] ==> nbs.contains(row[q]),
        desc_by(nbs, key),
        children0[cur]@.len() > 0 ==> nbs.len() == 0,
        visited.len() == n,
        children.len() == n,
        depth.len() == n,
        queue == queue0 + nbs,
        children[cur]@ == children0[cur]@ + nbs,
        forall|p: int| 0 <= p < n && p != cur ==> #[trigger] children[p] == children0[p],
        forall|u: int| 0 <= u < n ==> #[trigger] visited[u] == (visited0[u] || nbs.contains(u as usize)),
        forall|u: int| 0 <= u < n && !nbs.contains(u as usize) ==> #[trigger] depth[u] == depth0[u],
        forall|u: int| 0 <= u < n && nbs.contains(u as usize) ==> #[trigger] depth[u] == depth0[cur] + 1,
        seen == Set::new(|u: int| 0 <= u < n && visited[u]),
        nbs.len() > 0 ==> seen.len() > seen0.len(),
        seen.len() <= n,
        seen.finite(),
    ensures
        walk_state(edges, n, root, key, visited, queue, head + 1, children, depth, seen),
        nbs.len() == 0 ==> seen == seen0,
{
    if nbs.len() == 0 {
        assert(seen =~= seen0);
    }
    assert forall|i: int| 0 <= i < queue.len() implies #[trigger] queue[i] < n && visited[queue[i] as int] by {
        if i >= queue0.len() {
            assert(queue[i] == nbs[i - queue0.len()]);
            assert(nbs.contains(queue[i]));
        }
    }
    assert forall|v: int| 0 <= v < n && #[trigger] visited[v] implies queue.contains(v as usize) by {
        if visited0[v] {
            assert(queue0.contains(v as usize));
            let i = queue0.index_of(v as usize);
            assert(queue0[i] == v);
            assert(queue[i] == queue0[i]);
        } else {
            assert(nbs.contains(v as usize));
            let i = nbs.index_of(v as usize);
            assert(nbs[i] == v);
            assert(queue[queue0.len() + i] == nbs[i]);
        }
    }
    assert forall|i: int, w: int| 0 <= i < head + 1 && #[trigger] joined(edges, queue[i] as int, w) implies 0 <= w < n
        && visited[w] by {
        assert(queue[i] == queue0[i]);
        lemma_joined_in_range(edges, queue[i] as int, w, n);
        if i == head {
            lemma_neighbours_joined(edges, cur, w);
            let q = row.index_of(w as usize);
            assert(row[q] == w);
        }
    }
    assert forall|v: int| 0 <= v < n && #[trigger] visited[v] implies reachable(edges, root, v) by {
        if !visited0[v] {
            let q = nbs.index_of(v as usize);
            assert(joined(edges, cur, nbs[q] as int));
            assert(reachable(edges, root, cur));
            let k = choose|k: nat| #[trigger] within(edges, root, cur, k);
            crate::reach::lemma_within_step(edges, root, cur, v, k);
        }
    }
    assert forall|v: int| 0 <= v < n && #[trigger] visited[v] implies depth[v] < seen.len() by {
        if nbs.contains(v as usize) {
            assert(depth0[cur] < seen0.len());
        } else {
            assert(visited0[v]);
        }
    }
    assert forall|v: int| 0 <= v < n && !visited[v] implies #[trigger] depth[v] == 0 by {
        assert(!nbs.contains(v as usize));
    }
    assert(depth[root] == 0) by {
        if nbs.contains(root as usize) {
            let q = nbs.index_of(root as usize);
            assert(!visited0[nbs[q] as int]);
        }
    }
    assert forall|p: int, j: int| 0 <= p < n && 0 <= j < children[p]@.len() implies {
        let c = #[trigger] children[p]@[j] as int;
        &&& 0 <= c < n
        &&& c != root
        &&& joined(edges, p, c)
        &&& visited[p]
        &&& visited[c]
        &&& depth[c] == depth[p] + 1
    } by {
        let c = children[p]@[j] as int;
        if p == cur && j >= children0[cur]@.len() {
            let q = j - children0[cur]@.len();
            assert(nbs[q] == c);
            assert(nbs.contains(c as usize));
            assert(!visited0[c]);
            assert(!nbs.contains(cur as usize)) by {
                if nbs.contains(cur as usize) {
                    let z = nbs.index_of(cur as usize);
                    assert(!visited0[nbs[z] as int]);
                }
            }
        } else {
            assert(children[p]@[j] == children0[p]@[j]);
            assert(visited0[c]);
            assert(visited0[p]);
            assert(!nbs.contains(c as usize)) by {
                if nbs.contains(c as usize) {
                    let z = nbs.index_of(c as usize);
                    assert(!visited0[nbs[z] as int]);
                }
            }
            assert(!nbs.contains(p as usize)) by {
                if nbs.contains(p as usize) {
                    let z = nbs.index_of(p as usize);
                    assert(!visited0[nbs[z] as int]);
                }
            }
        }
    }
    assert forall|p: int| 0 <= p < n implies desc_by((#[trigger] children[p])@, key) by {
        if p == cur {
            if children0[cur]@.len() > 0 {
                assert(children[cur]@ =~= children0[cur]@);
            } else {
                assert(children[cur]@ =~= nbs);
            }
        }
    }
    assert forall|p: int, w: int| 0 <= p < n && children[p]@.len() > 0 && #[trigger] joined(edges, p, w) implies visited[w] by {
        if p == cur {
            lemma_joined_in_range(edges, p, w, n);
            lemma_neighbours_joined(edges, cur, w);
            let q = row.index_of(w as usize);
            assert(row[q] == w);
        } else {
            assert(children[p] == children0[p]);
        }
    }
    assert forall|p1: int, j1: int, p2: int, j2: int|
        0 <= p1 < n && 0 <= p2 < n && 0 <= j1 < children[p1]@.len() && 0 <= j2 < children[p2]@.len()
            && #[trigger] children[p1]@[j1] == #[trigger] children[p2]@[j2] implies p1 == p2 by {
        let new1 = p1 == cur && j1 >= children0[cur]@.len();
        let new2 = p2 == cur && j2 >= children0[cur]@.len();
        if new1 && !new2 {
            let c = children[p2]@[j2];
            assert(c == children0[p2]@[j2]);
            assert(visited0[c as int]);
            assert(nbs[j1 - children0[cur]@.len()] == c);
        } else if new2 && !new1 {
            let c = children[p1]@[j1];
            assert(c == children0[p1]@[j1]);
            assert(visited0[c as int]);
            assert(nbs[j2 - children0[cur]@.len()] == c);
        } else if !new1 && !new2 {
            assert(children[p1]@[j1] == children0[p1]@[j1]);
            assert(children[p2]@[j2] == children0[p2]@[j2]);
        }
    }
}

/// What taking entry `head` off the queue does to the children lists: the
/// first time the node comes up it had none and takes `nbs`; a later time all
/// its neighbours are queued already, so `nbs` is empty and nothing changes.
proof fn lemma_queue_step_basics(
    edges: Seq<(usize, usize)>,
    n: int,
    root: int,
    key: Seq<usize>,
    cur: int,
    nbs: Seq<usize>,
    old_visited: Seq<bool>,
    old_queue: Seq<usize>,
    head: int,
    old_children: Seq<Vec<usize>>,
    queue: Seq<usize>,
    children: Seq<Vec<usize>>,
)
    requires
        forall|i: int, w: int| 0 <= i < head && #[trigger] joined(edges, old_queue[i] as int, w) ==> old_visited[w],
        expands_in_order(edges, key, root, old_queue, head, old_children),
        0 <= head < old_queue.len(),
        cur == old_queue[head],
        old_children.len() == n,
        forall|i: int| 0 <= i < old_queue.len() ==> 0 <= #[trigger] old_queue[i] < n,
        forall|q: int| 0 <= q < nbs.len() ==> !old_visited[#[trigger] nbs[q] as int] && joined(edges, cur, nbs[q] as int),
        queue == old_queue + nbs,
        children.len() == n,
        children[cur]@ == old_children[cur]@ + nbs,
        forall|p: int| 0 <= p < n && p != cur ==> #[trigger] children[p] == old_children[p],
    ensures
        first_at(old_queue, head) ==> children[cur]@ == nbs,
        !first_at(old_queue, head) ==> nbs.len() == 0 && queue == old_queue && children[cur]@ == old_children[cur]@,
        first_at(queue, head) == first_at(old_queue, head),
        forall|k: int| 0 <= k < head + 1 ==> #[trigger] queue[k] == old_queue[k],
        forall|k: int| 0 <= k < head ==> #[trigger] first_at(queue, k) == first_at(old_queue, k),
        forall|k: int|
            0 <= k < head && #[trigger] first_at(old_queue, k) ==> old_children[old_queue[k] as int]@
                == children[old_queue[k] as int]@,
        grown(queue, children, head) == grown(old_queue, old_children, head),
{
    reveal(expands_in_order);
    let first = first_at(old_queue, head);
    if !first {
        let k = choose|k: int| 0 <= k < head && #[trigger] old_queue[k] == old_queue[head];
        if nbs.len() > 0 {
            assert(joined(edges, old_queue[k] as int, nbs[0] as int));
        }
        assert(nbs =~= Seq::<usize>::empty());
        assert(children[cur]@ =~= old_children[cur]@);
        assert(queue =~= old_queue);
    } else {
        if old_children[cur]@.len() > 0 {
            assert(first_reached_from(edges, old_queue, head, cur, old_children[cur]@[0] as int));
            let i = choose|i: int|
                0 <= i < head && #[trigger] old_queue[i] == cur && first_at(old_queue, i) && forall|k: int|
                    0 <= k < i ==> !#[trigger] joined(edges, old_queue[k] as int, old_children[cur]@[0] as int);
            assert(old_queue[i] != old_queue[head]);
        }
        assert(children[cur]@ =~= nbs);
    }
    assert forall|k: int| 0 <= k < head + 1 implies #[trigger] queue[k] == old_queue[k] by {}
    if first_at(queue, head) {
        assert forall|k: int| 0 <= k < head implies #[trigger] old_queue[k] != old_queue[head] by {
            assert(queue[k] != queue[head]);
        }
    }
    if first {
        assert forall|k: int| 0 <= k < head implies #[trigger] queue[k] != queue[head] by {
            assert(old_queue[k] != old_queue[head]);
        }
    }
    assert forall|k: int| 0 <= k < head && #[trigger] first_at(old_queue, k) implies old_children[old_queue[k] as int]@
        == children[old_queue[k] as int]@ by {
        if old_queue[k] as int == cur {
            assert(old_queue[k] == old_queue[head]);
        }
    }
    lemma_grown_same(old_queue, old_children, queue, children, head);
}

/// Taking entry `head` off the queue keeps the queue equal to the root
/// followed by what was appended.
proof fn lemma_queue_step_shape(
    root: int,
    nbs: Seq<usize>,
    old_queue: Seq<usize>,
    head: int,
    old_children: Seq<Vec<usize>>,
    queue: Seq<usize>,
    children: Seq<Vec<usize>>,
)
    requires
        0 <= head < old_queue.len(),
        old_queue == seq![root as usize] + grown(old_queue, old_children, head),
        queue == old_queue + nbs,
        first_at(old_queue, head) ==> children[old_queue[head] as int]@ == nbs,
        !first_at(old_queue, head) ==> nbs.len() == 0,
        first_at(queue, head) == first_at(old_queue, head),
        queue[head] == old_queue[head],
        grown(queue, children, head) == grown(old_queue, old_children, head),
    ensures
        queue == seq![root as usize] + grown(queue, children, head + 1),
{
    assert(grown(queue, children, head + 1) == grown(queue, children, head) + appended(queue, children, head));
    if first_at(old_queue, head) {
        assert(appended(queue, children, head) == nbs);
    } else {
        assert(appended(queue, children, head) =~= Seq::<usize>::empty());
        assert(nbs =~= Seq::<usize>::empty());
    }
    assert(queue =~= seq![root as usize] + grown(queue, children, head + 1));
}

/// Taking entry `head` off the queue keeps, for each node up so far, the
/// children it took its first time up.
proof fn lemma_queue_step_children(
    edges: Seq<(usize, usize)>,
    key: Seq<usize>,
    nbs: Seq<usize>,
    perm: Seq<int>,
    old_queue: Seq<usize>,
    head: int,
    old_children: Seq<Vec<usize>>,
    queue: Seq<usize>,
    children: Seq<Vec<usize>>,
)
    requires
        0 <= head < old_queue.len(),
        old_queue.len() == grown(old_queue, old_children, head).len() + 1,
        forall|i: int|
            0 <= i < head && #[trigger] first_at(old_queue, i) ==> exists|pm: Seq<int>|
                #[trigger] stable_arrangement(
                    not_in(neighbours(edges, old_queue[i] as int), old_queue.take(grown(old_queue, old_children, i).len() + 1int)),
                    old_children[old_queue[i] as int]@,
                    key,
                    pm,
                ),
        first_at(old_queue, head) ==> children[old_queue[head] as int]@ == nbs,
        stable_arrangement(not_in(neighbours(edges, old_queue[head] as int), old_queue), nbs, key, perm),
        queue == old_queue + nbs,
        forall|k: int| 0 <= k < head + 1 ==> #[trigger] queue[k] == old_queue[k],
        forall|k: int| 0 <= k < head ==> #[trigger] first_at(queue, k) == first_at(old_queue, k),
        first_at(queue, head) == first_at(old_queue, head),
        forall|k: int|
            0 <= k < head && #[trigger] first_at(old_queue, k) ==> old_children[old_queue[k] as int]@
                == children[old_queue[k] as int]@,
        grown(queue, children, head) == grown(old_queue, old_children, head),
    ensures
        forall|i: int|
            0 <= i < head + 1 && #[trigger] first_at(queue, i) ==> exists|pm: Seq<int>|
                #[trigger] stable_arrangement(
                    not_in(neighbours(edges, queue[i] as int), queue.take(grown(queue, children, i).len() + 1int)),
                    children[queue[i] as int]@,
                    key,
                    pm,
                ),
{
    assert forall|i: int|
        0 <= i < head + 1 && #[trigger] first_at(queue, i) implies exists|pm: Seq<int>|
        #[trigger] stable_arrangement(
            not_in(neighbours(edges, queue[i] as int), queue.take(grown(queue, children, i).len() + 1int)),
            children[queue[i] as int]@,
            key,
            pm,
        ) by {
        if i < head {
            assert(first_at(old_queue, i));
            lemma_grown_same(old_queue, old_children, queue, children, i);
            lemma_grown_len(old_queue, old_children, i, head);
            assert(queue.take(grown(queue, children, i).len() + 1int) =~= old_queue.take(
                grown(old_queue, old_children, i).len() + 1int,
            ));
            let pm = choose|pm: Seq<int>|
                #[trigger] stable_arrangement(
                    not_in(neighbours(edges, old_queue[i] as int), old_queue.take(grown(old_queue, old_children, i).len() + 1int)),
                    old_children[old_queue[i] as int]@,
                    key,
                    pm,
                );
            assert(stable_arrangement(
                not_in(neighbours(edges, queue[i] as int), queue.take(grown(queue, children, i).len() + 1int)),
                children[queue[i] as int]@,
                key,
                pm,
            ));
        } else {
            assert(queue.take(grown(queue, children, i).len() + 1int) =~= old_queue);
            assert(stable_arrangement(
                not_in(neighbours(edges, queue[i] as int), queue.take(grown(queue, children, i).len() + 1int)),
                children[queue[i] as int]@,
                key,
                perm,
            ));
        }
    }
}

/// Taking entry `head` off the queue keeps each child below the first queued
/// node joined to it.
proof fn lemma_queue_step_parents(
    edges: Seq<(usize, usize)>,
    cur: int,
    nbs: Seq<usize>,
    old_visited: Seq<bool>,
    old_queue: Seq<usize>,
    head: int,
    old_children: Seq<Vec<usize>>,
    queue: Seq<usize>,
    children: Seq<Vec<usize>>,
)
    requires
        forall|i: int, w: int| 0 <= i < head && #[trigger] joined(edges, old_queue[i] as int, w) ==> old_visited[w],
        forall|p: int, j: int|
            0 <= p < old_children.len() && 0 <= j < old_children[p]@.len() ==> first_reached_from(
                edges,
                old_queue,
                head,
                p,
                #[trigger] old_children[p]@[j] as int,
            ),
        0 <= head < old_queue.len(),
        cur == old_queue[head],
        0 <= cur < old_children.len(),
        forall|q: int| 0 <= q < nbs.len() ==> !old_visited[#[trigger] nbs[q] as int],
        children.len() == old_children.len(),
        children[cur]@ == old_children[cur]@ + nbs,
        forall|p: int| 0 <= p < children.len() && p != cur ==> #[trigger] children[p] == old_children[p],
        forall|k: int| 0 <= k < head + 1 ==> #[trigger] queue[k] == old_queue[k],
        forall|k: int| 0 <= k < head ==> #[trigger] first_at(queue, k) == first_at(old_queue, k),
        first_at(queue, head) == first_at(old_queue, head),
        nbs.len() > 0 ==> first_at(old_queue, head),
    ensures
        forall|p: int, j: int|
            0 <= p < children.len() && 0 <= j < children[p]@.len() ==> first_reached_from(
                edges,
                queue,
                head + 1,
                p,
                #[trigger] children[p]@[j] as int,
            ),
{
    assert forall|p: int, j: int| 0 <= p < children.len() && 0 <= j < children[p]@.len() implies first_reached_from(
        edges,
        queue,
        head + 1,
        p,
        #[trigger] children[p]@[j] as int,
    ) by {
        let c = children[p]@[j] as int;
        if p == cur && j >= old_children[p]@.len() {
            let q = j - old_children[p]@.len();
            assert(nbs[q] as int == c);
            assert forall|k: int| 0 <= k < head implies !#[trigger] joined(edges, queue[k] as int, c) by {
                if joined(edges, queue[k] as int, c) {
                    assert(joined(edges, old_queue[k] as int, c));
                }
            }
            assert(queue[head] as int == p);
        } else {
            assert(old_children[p]@[j] as int == c);
            assert(first_reached_from(edges, old_queue, head, p, old_children[p]@[j] as int));
            let i = choose|i: int|
                0 <= i < head && #[trigger] old_queue[i] == p && first_at(old_queue, i) && forall|k: int|
                    0 <= k < i ==> !#[trigger] joined(edges, old_queue[k] as int, c);
            assert(queue[i] == p);
            assert(first_at(queue, i));
            assert forall|k: int| 0 <= k < i implies !#[trigger] joined(edges, queue[k] as int, c) by {
                assert(queue[k] == old_queue[k]);
            }
        }
    }
}

/// Taking entry `head` off the queue keeps `expands_in_order`: its first time
/// up, the node takes the sorted neighbours not yet queued as children and
/// appends them; a later time, all its neighbours are queued and nothing changes.
proof fn lemma_queue_step(
    edges: Seq<(usize, usize)>,
    n: int,
    root: int,
    key: Seq<usize>,
    cur: int,
    nbs: Seq<usize>,
    perm: Seq<int>,
    old_visited: Seq<bool>,
    old_queue: Seq<usize>,
    head: int,
    old_children: Seq<Vec<usize>>,
    queue: Seq<usize>,
    children: Seq<Vec<usize>>,
)
    requires
        forall|i: int, w: int| 0 <= i < head && #[trigger] joined(edges, old_queue[i] as int, w) ==> old_visited[w],
        expands_in_order(edges, key, root, old_queue, head, old_children),
        0 <= head < old_queue.len(),
        cur == old_queue[head],
        old_children.len() == n,
        forall|i: int| 0 <= i < old_queue.len() ==> 0 <= #[trigger] old_queue[i] < n,
        stable_arrangement(not_in(neighbours(edges, cur), old_queue), nbs, key, perm),
        forall|q: int| 0 <= q < nbs.len() ==> !old_visited[#[trigger] nbs[q] as int] && joined(edges, cur, nbs[q] as int),
        queue == old_queue + nbs,
        children.len() == n,
        children[cur]@ == old_children[cur]@ + nbs,
        forall|p: int| 0 <= p < n && p != cur ==> #[trigger] children[p] == old_children[p],
    ensures
        expands_in_order(edges, key, root, queue, head + 1, children),
{
    reveal(expands_in_order);
    lemma_queue_step_basics(edges, n, root, key, cur, nbs, old_visited, old_queue, head, old_children, queue, children);
    lemma_queue_step_shape(root, nbs, old_queue, head, old_children, queue, children);
    lemma_queue_step_children(edges, key, nbs, perm, old_queue, head, old_children, queue, children);
    lemma_queue_step_parents(edges, cur, nbs, old_visited, old_queue, head, old_children, queue, children);
}

proof fn lemma_order_step(
    edges: Seq<(usize, usize)>,
    n: int,
    root: int,
    key: Seq<usize>,
    cur: int,
    nbs: Seq<usize>,
    visited0: Seq<bool>,
    queue0: Seq<usize>,
    head: int,
    children0: Seq<Vec<usize>>,
    depth0: Seq<usize>,
    seen0: Set<int>,
    visited: Seq<bool>,
    queue: Seq<usize>,
    children: Seq<Vec<usize>>,
    depth: Seq<usize>,
    row: Seq<usize>,
)
    requires
        walk_state(edges, n, root, key, visited0, queue0, head, children0, depth0, seen0),
        walk_order(edges, n, root, visited0, queue0, head, children0, depth0),
        edges_in_range(edges, n),
        head < queue0.len(),
        queue0[head] == cur,
        row == neighbours(edges, cur),
        forall|q: int| 0 <= q < nbs.len() ==> #[trigger] nbs[q] < n,
        forall|q: int| 0 <= q < nbs.len() ==> !visited0[#[trigger] nbs[q] as int] && joined(edges, cur, nbs[q] as int),
        forall|q: int| 0 <= q < row.len() && !visited0[#[trigger] row[q] as int] ==> nbs.contains(row[q]),
        visited.len() == n,
        children.len() == n,
        depth.len() == n,
        queue == queue0 + nbs,
        children[cur]@ == children0[cur]@ + nbs,
        forall|p: int| 0 <= p < n && p != cur ==> #[trigger] children[p] == children0[p],
        forall|u: int| 0 <= u < n ==> #[trigger] visited[u] == (visited0[u] || nbs.contains(u as usize)),
        forall|u: int| 0 <= u < n && !nbs.contains(u as usize) ==> #[trigger] depth[u] == depth0[u],
        forall|u: int| 0 <= u < n && nbs.contains(u as usize) ==> #[trigger] depth[u] == depth0[cur] + 1,
    ensures
        walk_order(edges, n, root, visited, queue, head + 1, children, depth),
{
    let dc = depth0[cur] as int;
    // the old queue holds visited nodes, untouched by this step
    assert forall|i: int| 0 <= i < queue0.len() implies #[trigger] depth[queue0[i] as int] == depth0[queue0[i] as int]
        && depth0[queue0[i] as int] <= dc + 1 by {
        let u = queue0[i] as int;
        assert(visited0[u]);
        if nbs.contains(u as usize) {
            let z = nbs.index_of(u as usize);
            assert(!visited0[nbs[z] as int]);
        }
    }
    assert forall|q: int| 0 <= q < nbs.len() implies #[trigger] depth[nbs[q] as int] == dc + 1 by {
        assert(nbs.contains(nbs[q]));
    }
    assert forall|i: int| 0 <= i < queue.len() implies #[trigger] depth[queue[i] as int] <= dc + 1 && (i >= queue0.len()
        ==> depth[queue[i] as int] == dc + 1) && (i < queue0.len() ==> queue[i] == queue0[i]) by {
        if i >= queue0.len() {
            assert(queue[i] == nbs[i - queue0.len()]);
        }
    }
    assert(depth[cur] == dc) by {
        assert(queue0[head] == cur);
    }
    // depths are walk lengths
    assert forall|v: int| 0 <= v < n && #[trigger] visited[v] implies within(edges, root, v, depth[v] as nat) by {
        if nbs.contains(v as usize) {
            let z = nbs.index_of(v as usize);
            assert(joined(edges, cur, nbs[z] as int));
            assert(visited0[cur]);
            crate::reach::lemma_within_step(edges, root, cur, v, depth0[cur] as nat);
        } else {
            assert(visited0[v]);
        }
    }
    // the queue stays sorted by depth
    assert forall|i: int, j: int| 0 <= i <= j < queue.len() implies depth[#[trigger] queue[i] as int] <= depth[
        #[trigger] queue[j] as int] by {
        if j < queue0.len() {
            assert(queue[i] == queue0[i]);
            assert(queue[j] == queue0[j]);
            assert(depth0[queue0[i] as int] <= depth0[queue0[j] as int]);
        } else if i < queue0.len() {
            assert(queue[i] == queue0[i]);
        }
    }
    // within one of the new head
    if head + 1 < queue.len() {
        assert forall|i: int| 0 <= i < queue.len() implies depth[#[trigger] queue[i] as int] <= depth[queue[head + 1] as int]
            + 1 by {
            if head + 1 < queue0.len() {
                assert(queue[head + 1] == queue0[head + 1]);
                assert(depth0[queue0[head] as int] <= depth0[queue0[head + 1] as int]);
            } else {
                assert(depth[queue[head + 1] as int] == dc + 1);
            }
        }
    }
    // processed nodes have their neighbours at most one deeper
    assert forall|i: int, w: int| 0 <= i < head + 1 && #[trigger] joined(edges, queue[i] as int, w) implies depth[w]
        <= depth[queue[i] as int] + 1 by {
        assert(queue[i] == queue0[i]);
        lemma_joined_in_range(edges, queue[i] as int, w, n);
        if i < head {
            assert(visited0[w]);
            assert(depth0[w] <= depth0[queue0[i] as int] + 1);
            assert(!nbs.contains(w as usize)) by {
                if nbs.contains(w as usize) {
                    let z = nbs.index_of(w as usize);
                    assert(!visited0[nbs[z] as int]);
                }
            }
        } else {
            lemma_neighbours_joined(edges, cur, w);
            let q = row.index_of(w as usize);
            assert(row[q] == w);
            if !visited0[w] {
                assert(nbs.contains(w as usize));
            } else {
                assert(queue0.contains(w as usize));
                let z = queue0.index_of(w as usize);
                assert(queue0[z] == w);
                assert(depth[queue0[z] as int] == depth0[queue0[z] as int]);
            }
        }
    }
    // every reached node but the root hangs below one
    assert forall|v: int| 0 <= v < n && #[trigger] visited[v] && v != root implies has_parent(children, v) by {
        if nbs.contains(v as usize) {
            let z = nbs.index_of(v as usize);
            assert(children[cur]@[children0[cur]@.len() + z] == v);
        } else {
            assert(visited0[v]);
            assert(has_parent(children0, v));
            let (p, j) = choose|p: int, j: int|
                0 <= p < children0.len() && 0 <= j < children0[p]@.len() && #[trigger] children0[p]@[j] == v;
            if p == cur {
                assert(children[cur]@[j] == children0[cur]@[j]);
            } else {
                assert(children[p] == children0[p]);
            }
            assert(children[p]@[j] == v);
        }
    }
    // parents are queued before their children
    assert forall|p: int, j: int| 0 <= p < n && 0 <= j < children[p]@.len() implies listed_before(
        queue,
        p,
        #[trigger] children[p]@[j] as int,
    ) by {
        if p == cur && j >= children0[cur]@.len() {
            let q = j - children0[cur]@.len();
            assert(queue[head] == cur);
            assert(queue[queue0.len() + q] == nbs[q]);
            assert(children[p]@[j] == nbs[q]);
        } else {
            if p == cur {
                assert(children[cur]@[j] == children0[cur]@[j]);
            } else {
                assert(children[p] == children0[p]);
            }
            let c = children0[p]@[j] as int;
            assert(listed_before(queue0, p, c));
            let (i, k) = choose|i: int, k: int| 0 <= i < k < queue0.len() && #[trigger] queue0[i] == p && #[trigger] queue0[k] == c;
            assert(queue[i] == queue0[i]);
            assert(queue[k] == queue0[k]);
        }
    }
}

/// Once every queued node is processed, no node reachable within `k` links
/// lies deeper than `k`.
proof fn lemma_depth_at_most(
    edges: Seq<(usize, usize)>,
    n: int,
    root: int,
    visited: Seq<bool>,
    queue: Seq<usize>,
    depth: Seq<usize>,
    v: int,
    k: nat,
)
    requires
        edges_in_range(edges, n),
        0 <= root < n,
        visited.len() == n,
        depth.len() == n,
        depth[root] == 0,
        forall|u: int| 0 <= u < n && #[trigger] visited[u] ==> queue.contains(u as usize),
        forall|u: int| 0 <= u < n ==> (#[trigger] visited[u] <==> reachable(edges, root, u)),
        forall|i: int, w: int|
            0 <= i < queue.len() && #[trigger] joined(edges, queue[i] as int, w) ==> depth[w] <= depth[queue[i] as int] + 1,
        within(edges, root, v, k),
    ensures
        0 <= v < n,
        depth[v] <= k,
    decreases k,
{
    if k == 0 || within(edges, root, v, (k - 1) as nat) {
        if k == 0 {
            crate::reach::lemma_within_zero(edges, root, v);
        } else {
            lemma_depth_at_most(edges, n, root, visited, queue, depth, v, (k - 1) as nat);
        }
    } else {
        let u = crate::reach::lemma_last_step(edges, root, v, k);
        lemma_depth_at_most(edges, n, root, visited, queue, depth, u, (k - 1) as nat);
        lemma_joined_in_range(edges, u, v, n);
        assert(reachable(edges, root, u));
        assert(visited[u]);
        let i = queue.index_of(u as usize);
        assert(queue[i] == u);
    }
}

/// Leaves below each node of the tree given by `children`, deepest level first.
fn tree_widths(children: &Vec<Vec<usize>>, depth: &Vec<usize>, visited: &Vec<bool>, n: usize) -> (width: Vec<u64>)
    requires
        children.len() == n,
        depth.len() == n,
        visited.len() == n,
        forall|p: int, j: int|
            0 <= p < n && 0 <= j < children[p]@.len() ==> {
                let c = #[trigger] children[p]@[j] as int;
                &&& 0 <= c < n
                &&& depth[c] == depth[p] + 1
            },
    ensures
        width.len() == n,
        forall|v: int|
            0 <= v < n ==> #[trigger] width[v] == if children[v]@.len() == 0 {
                1
            } else {
                capped_sum(children[v]@, width@)
            },
{
    let mut width: Vec<u64> = Vec::new();
    let mut top: usize = 0;
    let mut v: usize = 0;
    while v < n
        invariant
            v <= n,
            width.len() == v,
            depth.len() == n,
            forall|u: int| 0 <= u < v ==> #[trigger] width[u] == 1,
            forall|u: int| 0 <= u < v ==> #[trigger] depth[u] <= top,
        decreases n - v,
    {
        width.push(1);
        if depth[v] > top {
            top = depth[v];
        }
        v += 1;
    }
    // level `d` and below are done once `d > level`
    let mut level: usize = top;
    loop
        invariant
            width.len() == n,
            children.len() == n,
            depth.len() == n,
            level <= top,
            forall|u: int| 0 <= u < n ==> #[trigger] depth[u] <= top,
            forall|p: int, j: int|
                0 <= p < n && 0 <= j < children[p]@.len() ==> {
                    let c = #[trigger] children[p]@[j] as int;
                    &&& 0 <= c < n
                    &&& depth[c] == depth[p] + 1
                },
            forall|u: int|
                0 <= u < n && depth[u] > level ==> #[trigger] width[u] == if children[u]@.len() == 0 {
                    1
                } else {
                    capped_sum(children[u]@, width@)
                },
            forall|u: int| 0 <= u < n && depth[u] <= level ==> #[trigger] width[u] == 1,
        decreases level,
    {
        let ghost before = width@;
        let mut u: usize = 0;
        while u < n
            invariant
                width.len() == n,
                children.len() == n,
                depth.len() == n,
                u <= n,
                forall|p: int, j: int|
                    0 <= p < n && 0 <= j < children[p]@.len() ==> {
                        let c = #[trigger] children[p]@[j] as int;
                        &&& 0 <= c < n
                        &&& depth[c] == depth[p] + 1
                    },
                forall|w: int| 0 <= w < n && (depth[w] != level || w >= u) ==> #[trigger] width[w] == before[w],
                forall|w: int| 0 <= w < n && depth[w] <= level ==> #[trigger] before[w] == 1,
                before.len() == n,
                forall|w: int|
                    0 <= w < u && depth[w] == level ==> #[trigger] width[w] == if children[w]@.len() == 0 {
                        1
                    } else {
                        capped_sum(children[w]@, width@)
                    },
            decreases n - u,
        {
            if depth[u] == level && children[u].len() > 0 {
                let kids = &children[u];
                let mut total: u64 = 0;
                let mut j: usize = 0;
                while j < kids.len()
                    invariant
                        width.len() == n,
                        kids == children[u as int],
                        u < n,
                        j <= kids.len(),
                        forall|q: int| 0 <= q < kids@.len() ==> #[trigger] kids@[q] < n,
                        total == capped_sum(kids@.take(j as int), width@),
                    decreases kids.len() - j,
                {
                    let c = kids[j];
                    let w = width[c];
                    proof {
                        assert(kids@.take(j + 1).drop_last() =~= kids@.take(j as int));
                        assert(kids@.take(j + 1).last() == c);
                    }
                    total = if total as u128 + w as u128 > u64::MAX as u128 {
                        u64::MAX
                    } else {
                        total + w
                    };
                    j += 1;
                }
                proof {
                    assert(kids@.take(kids.len() as int) =~= kids@);
                }
                let ghost mid = width@;
                width.set(u, total);
                proof {
                    // the children of level-`level` nodes lie one level deeper, untouched
                    assert forall|w: int|
                        0 <= w < u + 1 && depth[w] == level implies #[trigger] width[w] == if children[w]@.len() == 0 {
                        1
                    } else {
                        capped_sum(children[w]@, width@)
                    } by {
                        if children[w]@.len() > 0 {
                            assert forall|i: int| 0 <= i < children[w]@.len() implies mid[#[trigger] children[w]@[i] as int]
                                == width@[children[w]@[i] as int] by {
                                assert(depth[children[w]@[i] as int] == depth[w] + 1);
                            }
                            lemma_capped_sum_same(children[w]@, mid, width@);
                        } else if w < u {
                        } else {
                            assert(width[w] == before[w]);
                        }
                    }
                }
            } else {
                proof {
                    if depth[u as int] == level {
                        assert(width[u as int] == before[u as int]);
                    }
                }
            }
            u += 1;
        }
        proof {
            assert forall|w: int|
                0 <= w < n && depth[w] > level - 1 implies #[trigger] width[w] == if children[w]@.len() == 0 {
                1
            } else {
                capped_sum(children[w]@, width@)
            } by {
                if depth[w] > level && children[w]@.len() > 0 {
                    assert forall|i: int| 0 <= i < children[w]@.len() implies before[#[trigger] children[w]@[i] as int]
                        == width@[children[w]@[i] as int] by {
                        assert(depth[children[w]@[i] as int] == depth[w] + 1);
                    }
                    lemma_capped_sum_same(children[w]@, before, width@);
                }
            }
        }
        if level == 0 {
            return width;
        }
        level -= 1;
    }
}

proof fn lemma_capped_sum_same(s: Seq<usize>, a: Seq<u64>, b: Seq<u64>)
    requires
        forall|i: int| 0 <= i < s.len() ==> a[#[trigger] s[i] as int] == b[s[i] as int],
    ensures
        capped_sum(s, a) == capped_sum(s, b),
    decreases s.len(),
{
    if s.len() > 0 {
        assert forall|i: int| 0 <= i < s.drop_last().len() implies a[#[trigger] s.drop_last()[i] as int] == b[s.drop_last()[i] as int] by {
            assert(s.drop_last()[i] == s[i]);
        }
        lemma_capped_sum_same(s.drop_last(), a, b);
        assert(a[s.last() as int] == b[s.last() as int]);
    }
}

} // verus!
