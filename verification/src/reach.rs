use vstd::prelude::*;
use vstd::set_lib::*;

verus! {

/// The edge `e` joins `a` and `b`, in either direction.
pub open spec fn edge_joins(e: (usize, usize), a: int, b: int) -> bool {
    (e.0 == a && e.1 == b) || (e.0 == b && e.1 == a)
}

/// Some edge of `edges` joins `a` and `b`.
pub open spec fn joined(edges: Seq<(usize, usize)>, a: int, b: int) -> bool {
    exists|k: int| 0 <= k < edges.len() && #[trigger] edge_joins(edges[k], a, b)
}

/// `p` is a walk along `edges`: consecutive nodes are joined by an edge.
pub open spec fn is_walk(edges: Seq<(usize, usize)>, p: Seq<int>) -> bool {
    &&& p.len() > 0
    &&& forall|i: int| 0 <= i < p.len() - 1 ==> #[trigger] joined(edges, p[i], p[i + 1])
}

/// `t` can be reached from `s` along at most `k` edges.
pub open spec fn within(edges: Seq<(usize, usize)>, s: int, t: int, k: nat) -> bool {
    exists|p: Seq<int>| #[trigger] is_walk(edges, p) && p.len() <= k + 1 && p[0] == s && p.last() == t
}

/// `t` can be reached from `s` at all.
pub open spec fn reachable(edges: Seq<(usize, usize)>, s: int, t: int) -> bool {
    exists|k: nat| #[trigger] within(edges, s, t, k)
}

/// All endpoints of `edges` are node indices below `n`.
pub open spec fn edges_in_range(edges: Seq<(usize, usize)>, n: int) -> bool {
    forall|k: int| 0 <= k < edges.len() ==> #[trigger] edges[k].0 < n && edges[k].1 < n
}

/// The neighbours of `v`, in the order in which the edges name them: for each
/// edge `(a, b)`, `b` if `a == v`, then `a` if `b == v`.
pub open spec fn neighbours(edges: Seq<(usize, usize)>, v: int) -> Seq<usize>
    decreases edges.len(),
{
    if edges.len() == 0 {
        Seq::empty()
    } else {
        let e = edges.last();
        neighbours(edges.drop_last(), v) + (if e.0 == v {
            seq![e.1]
        } else {
            Seq::empty()
        }) + (if e.1 == v {
            seq![e.0]
        } else {
            Seq::empty()
        })
    }
}

/// `adj` lists, for each of the `n` nodes, its neighbours under `edges`.
pub open spec fn adjacency_of(adj: Seq<Vec<usize>>, edges: Seq<(usize, usize)>, n: int) -> bool {
    &&& adj.len() == n
    &&& edges_in_range(edges, n)
    &&& forall|v: int| 0 <= v < n ==> (#[trigger] adj[v])@ == neighbours(edges, v)
}

/// What is within `j` links is within any larger number of links.
pub proof fn lemma_within_monotone(edges: Seq<(usize, usize)>, s: int, t: int, j: nat, k: nat)
    requires
        j <= k,
        within(edges, s, t, j),
    ensures
        within(edges, s, t, k),
{
}

/// Within no link lies only the start itself.
pub proof fn lemma_within_zero(edges: Seq<(usize, usize)>, s: int, t: int)
    ensures
        within(edges, s, t, 0) <==> s == t,
{
    if s == t {
        assert(is_walk(edges, seq![s]));
    }
}

/// One more link reaches the neighbours of what was reached.
pub proof fn lemma_within_step(edges: Seq<(usize, usize)>, s: int, u: int, t: int, k: nat)
    requires
        within(edges, s, u, k),
        joined(edges, u, t),
    ensures
        within(edges, s, t, k + 1),
{
    let p = choose|p: Seq<int>| #[trigger] is_walk(edges, p) && p.len() <= k + 1 && p[0] == s && p.last() == u;
    let q = p.push(t);
    assert forall|i: int| 0 <= i < q.len() - 1 implies #[trigger] joined(edges, q[i], q[i + 1]) by {
        if i < p.len() - 1 {
            assert(joined(edges, p[i], p[i + 1]));
        }
    }
    assert(is_walk(edges, q));
}

/// A node first reached in `k` steps is a neighbour of a node reached in `k - 1`.
/// One step: `t` is within one link of `s` exactly when it is `s` or joined to it.
pub proof fn lemma_within_one(edges: Seq<(usize, usize)>, s: int, t: int)
    ensures
        within(edges, s, t, 1) <==> (s == t || joined(edges, s, t)),
{
    lemma_within_zero(edges, s, t);
    lemma_within_zero(edges, s, s);
    if joined(edges, s, t) {
        lemma_within_step(edges, s, s, t, 0);
    }
    if s == t {
        lemma_within_monotone(edges, s, t, 0, 1);
    }
    if within(edges, s, t, 1) && s != t {
        let p = choose|p: Seq<int>| #[trigger] is_walk(edges, p) && p.len() <= 2 && p[0] == s && p.last() == t;
        assert(p.len() == 2);
        assert(joined(edges, p[0], p[1]));
    }
}

/// What is first reached after `k` links has a neighbour reached after `k - 1`.
pub proof fn lemma_last_step(edges: Seq<(usize, usize)>, s: int, t: int, k: nat) -> (u: int)
    requires
        k > 0,
        within(edges, s, t, k),
        !within(edges, s, t, (k - 1) as nat),
    ensures
        within(edges, s, u, (k - 1) as nat),
        joined(edges, u, t),
{
    let p = choose|p: Seq<int>| #[trigger] is_walk(edges, p) && p.len() <= k + 1 && p[0] == s && p.last() == t;
    assert(p.len() == k + 1);
    let q = p.drop_last();
    assert forall|i: int| 0 <= i < q.len() - 1 implies #[trigger] joined(edges, q[i], q[i + 1]) by {
        assert(joined(edges, p[i], p[i + 1]));
    }
    assert(is_walk(edges, q));
    assert(joined(edges, p[k - 1], p[k as int]));
    p[k - 1]
}

/// Both ends of an edge are below `n`.
pub proof fn lemma_joined_in_range(edges: Seq<(usize, usize)>, a: int, b: int, n: int)
    requires
        edges_in_range(edges, n),
        joined(edges, a, b),
    ensures
        0 <= a < n,
        0 <= b < n,
{
    let e = choose|e: int| 0 <= e < edges.len() && #[trigger] edge_joins(edges[e], a, b);
    assert(edges[e].0 < n && edges[e].1 < n);
}

/// The neighbour list of `v` holds exactly the nodes joined to it.
pub proof fn lemma_neighbours_joined(edges: Seq<(usize, usize)>, v: int, w: int)
    ensures
        neighbours(edges, v).contains(w as usize) && 0 <= w <= usize::MAX <==> joined(edges, v, w),
    decreases edges.len(),
{
    if edges.len() > 0 {
        let pre = edges.drop_last();
        let e = edges.last();
        lemma_neighbours_joined(pre, v, w);
        let a: Seq<usize> = if e.0 == v {
            seq![e.1]
        } else {
            Seq::empty()
        };
        let b: Seq<usize> = if e.1 == v {
            seq![e.0]
        } else {
            Seq::empty()
        };
        assert(neighbours(edges, v) == neighbours(pre, v) + a + b);
        if joined(edges, v, w) {
            let k = choose|k: int| 0 <= k < edges.len() && #[trigger] edge_joins(edges[k], v, w);
            if k < pre.len() {
                assert(edge_joins(pre[k], v, w));
                assert(neighbours(edges, v)[neighbours(pre, v).index_of(w as usize)] == w);
            } else {
                if e.0 == v && e.1 == w {
                    assert(neighbours(edges, v)[neighbours(pre, v).len() as int] == w);
                } else {
                    assert(neighbours(edges, v)[(neighbours(pre, v).len() + a.len()) as int] == w);
                }
            }
        }
        if neighbours(edges, v).contains(w as usize) && 0 <= w <= usize::MAX {
            let i = neighbours(edges, v).index_of(w as usize);
            if i < neighbours(pre, v).len() {
                assert(neighbours(pre, v).contains(w as usize));
                let k = choose|k: int| 0 <= k < pre.len() && #[trigger] edge_joins(pre[k], v, w);
                assert(edge_joins(edges[k], v, w));
            } else {
                assert(edge_joins(edges[edges.len() - 1], v, w));
            }
        }
    }
}

/// Builds the neighbour lists of the `n` nodes joined by `edges`.
pub fn adjacency(n: usize, edges: &Vec<(usize, usize)>) -> (adj: Vec<Vec<usize>>)
    requires
        edges_in_range(edges@, n as int),
    ensures
        adjacency_of(adj@, edges@, n as int),
{
    let mut adj: Vec<Vec<usize>> = Vec::new();
    let mut v: usize = 0;
    while v < n
        invariant
            v <= n,
            adj.len() == v,
            forall|u: int| 0 <= u < v ==> (#[trigger] adj[u])@ == Seq::<usize>::empty(),
        decreases n - v,
    {
        adj.push(Vec::new());
        v += 1;
    }
    assert(edges@.take(0) =~= Seq::<(usize, usize)>::empty());
    let mut k: usize = 0;
    while k < edges.len()
        invariant
            k <= edges.len(),
            adj.len() == n,
            edges_in_range(edges@, n as int),
            forall|u: int| 0 <= u < n ==> (#[trigger] adj[u])@ == neighbours(edges@.take(k as int), u),
        decreases edges.len() - k,
    {
        let (s, d) = edges[k];
        let ghost pre = edges@.take(k as int);
        let ghost now = edges@.take(k + 1);
        assert(now.drop_last() =~= pre);
        assert(now.last() == (s, d));
        adj[s].push(d);
        adj[d].push(s);
        assert forall|u: int| 0 <= u < n implies (#[trigger] adj[u])@ == neighbours(now, u) by {
            assert(neighbours(now, u) == neighbours(pre, u) + (if s == u {
                seq![d]
            } else {
                Seq::empty()
            }) + (if d == u {
                seq![s]
            } else {
                Seq::empty()
            }));
            if u == s && u == d {
                assert(adj[u]@ =~= neighbours(pre, u).push(d).push(s));
            } else if u == s {
                assert(adj[u]@ =~= neighbours(pre, u).push(d));
            } else if u == d {
                assert(adj[u]@ =~= neighbours(pre, u).push(s));
            } else {
                assert(adj[u]@ =~= neighbours(pre, u));
            }
        }
        k += 1;
    }
    assert(edges@.take(edges.len() as int) =~= edges@);
    adj
}

/// The nodes in the same distance class from a start node, and the class of each.
pub struct Layers {
    /// `layer_of[v]` is the distance of `v` from the start, or `n + 1` where `v`
    /// cannot be reached.
    pub layer_of: Vec<usize>,
    /// `layers[k]` holds the nodes at distance `k`, in the order of discovery.
    pub layers: Vec<Vec<usize>>,
}

/// The neighbour lists of the nodes of `front`, one after another.
pub open spec fn rows_of(edges: Seq<(usize, usize)>, front: Seq<usize>) -> Seq<usize>
    decreases front.len(),
{
    if front.len() == 0 {
        Seq::empty()
    } else {
        rows_of(edges, front.drop_last()) + neighbours(edges, front.last() as int)
    }
}

/// The entries of `s` in order of first appearance, each once, leaving out
/// those `known` holds: the order in which a breadth-first search discovers
/// new nodes while it walks the lists `s` is made of.
pub open spec fn first_seen(s: Seq<usize>, known: Set<int>) -> Seq<usize>
    decreases s.len(),
{
    if s.len() == 0 {
        Seq::empty()
    } else {
        let pre = first_seen(s.drop_last(), known);
        let x = s.last();
        if known.contains(x as int) || pre.contains(x) {
            pre
        } else {
            pre.push(x)
        }
    }
}

/// The nodes below `n` whose layer in `layer_of` is at most `k`.
pub open spec fn known_upto(layer_of: Seq<usize>, n: int, k: int) -> Set<int> {
    Set::new(|u: int| 0 <= u < n && layer_of[u] <= k)
}

/// The distance classes that `layers` describes for start `s` over `edges` and `n` nodes.
pub open spec fn layers_exact(l: Layers, edges: Seq<(usize, usize)>, s: int, n: int) -> bool {
    &&& l.layer_of.len() == n
    &&& forall|v: int, k: nat|
        0 <= v < n ==> (#[trigger] within(edges, s, v, k) <==> (l.layer_of[v] != n + 1
            && l.layer_of[v] <= k))
    &&& forall|v: int| 0 <= v < n ==> (#[trigger] l.layer_of[v] == n + 1 || l.layer_of[v] < l.layers.len())
    &&& forall|k: int|
        0 <= k < l.layers.len() ==> (#[trigger] l.layers[k])@.no_duplicates() && l.layers[k]@.len() > 0
    &&& forall|k: int, i: int|
        0 <= k < l.layers.len() && 0 <= i < l.layers[k]@.len() ==> #[trigger] l.layers[k]@[i] < n
            && l.layer_of[l.layers[k]@[i] as int] == k
    &&& forall|v: int|
        0 <= v < n && l.layer_of[v] != n + 1 ==> (#[trigger] l.layers[l.layer_of[v] as int])@.contains(
            v as usize,
        )
    &&& l.layers.len() > 0
    &&& l.layers[0]@ == seq![s as usize]
    &&& forall|k: int|
        1 <= k < l.layers.len() ==> (#[trigger] l.layers[k])@ == first_seen(
            rows_of(edges, l.layers[k - 1]@),
            known_upto(l.layer_of@, n, k - 1),
        )
}

/// If no node lies at exactly distance `r` (`r >= 1`), none lies farther than `r - 1`.
proof fn lemma_gap(edges: Seq<(usize, usize)>, s: int, r: nat, k: nat, v: int)
    requires
        r >= 1,
        forall|u: int| #[trigger] within(edges, s, u, r) ==> within(edges, s, u, (r - 1) as nat),
        within(edges, s, v, k),
    ensures
        within(edges, s, v, (r - 1) as nat),
    decreases k,
{
    if k <= r - 1 {
        lemma_within_monotone(edges, s, v, k, (r - 1) as nat);
    } else if within(edges, s, v, (k - 1) as nat) {
        lemma_gap(edges, s, r, (k - 1) as nat, v);
    } else {
        let u = lemma_last_step(edges, s, v, k);
        lemma_gap(edges, s, r, (k - 1) as nat, u);
        lemma_within_step(edges, s, u, v, (r - 1) as nat);
        assert(within(edges, s, v, r));
    }
}

/// Breadth-first distance classes from `start` over the neighbour lists `adj`.
pub fn layers_from(adj: &Vec<Vec<usize>>, start: usize, Ghost(edges): Ghost<Seq<(usize, usize)>>) -> (l: Layers)
    requires
        adjacency_of(adj@, edges, adj.len() as int),
        start < adj.len(),
        adj.len() < usize::MAX,
    ensures
        layers_exact(l, edges, start as int, adj.len() as int),
{
    let n = adj.len();
    let none = n + 1;
    let mut layer_of: Vec<usize> = Vec::new();
    let mut v: usize = 0;
    while v < n
        invariant
            v <= n,
            none == n + 1,
            layer_of.len() == v,
            forall|u: int| 0 <= u < v ==> #[trigger] layer_of[u] == none,
        decreases n - v,
    {
        layer_of.push(none);
        v += 1;
    }
    layer_of.set(start, 0);
    assert forall|u: int| 0 <= u < n && u != start implies #[trigger] layer_of[u] == none by {}
    let mut frontier: Vec<usize> = Vec::new();
    frontier.push(start);
    let mut layers: Vec<Vec<usize>> = Vec::new();
    let mut r: usize = 0;
    let ghost mut seen: Set<int> = set![start as int];
    proof {
        assert forall|u: int, k: nat| 0 <= u < n && k <= r implies (#[trigger] within(edges, start as int, u, k)
            <==> (layer_of[u] != none && layer_of[u] <= k)) by {
            assert(k == 0);
            lemma_within_zero(edges, start as int, u);
        }
        assert(seen =~= Set::new(|u: int| 0 <= u < n && layer_of[u] != none));
        assert forall|u: int| 0 <= u < n implies (frontier@.contains(u as usize) <==> #[trigger] layer_of[u]
            == r) by {
            assert(frontier@[0] == start);
            if frontier@.contains(u as usize) {
                let q = frontier@.index_of(u as usize);
                assert(q == 0);
            }
        }
        lemma_int_range(0, n as int);
        lemma_len_subset(seen, set_int_range(0, n as int));
    }
    while frontier.len() > 0
        invariant
            n == adj.len(),
            n < usize::MAX,
            none == n + 1,
            start < n,
            adjacency_of(adj@, edges, n as int),
            layer_of.len() == n,
            layers.len() == r,
            seen == Set::new(|u: int| 0 <= u < n && layer_of[u] != none),
            r <= seen.len(),
            seen.len() <= n,
            frontier.len() > 0 ==> r < seen.len(),
            r > 0 || frontier.len() > 0,
            forall|u: int| 0 <= u < n && layer_of[u] != none ==> #[trigger] layer_of[u] <= r,
            forall|u: int, k: nat|
                0 <= u < n && k <= r ==> (#[trigger] within(edges, start as int, u, k) <==> (
                layer_of[u] != none && layer_of[u] <= k)),
            frontier@.no_duplicates(),
            forall|i: int| 0 <= i < frontier.len() ==> #[trigger] frontier[i] < n,
            forall|u: int| 0 <= u < n ==> (frontier@.contains(u as usize) <==> #[trigger] layer_of[u] == r),
            forall|k: int| 0 <= k < r ==> (#[trigger] layers[k])@.no_duplicates() && layers[k]@.len() > 0,
            forall|k: int, i: int|
                0 <= k < r && 0 <= i < layers[k]@.len() ==> #[trigger] layers[k]@[i] < n
                    && layer_of[layers[k]@[i] as int] == k,
            forall|u: int|
                0 <= u < n && layer_of[u] < r ==> (#[trigger] layers[layer_of[u] as int])@.contains(u as usize),
            r == 0 ==> frontier@ == seq![start],
            r > 0 ==> layers[0]@ == seq![start],
            forall|k: int|
                1 <= k < r ==> (#[trigger] layers[k])@ == first_seen(
                    rows_of(edges, layers[k - 1]@),
                    known_upto(layer_of@, n as int, k - 1),
                ),
            r > 0 ==> frontier@ == first_seen(rows_of(edges, layers[r - 1]@), known_upto(layer_of@, n as int, r - 1)),
        decreases 2 * (n - seen.len()) + (if frontier.len() > 0 { 1int } else { 0 }),
    {
        proof {
            lemma_int_range(0, n as int);
            lemma_len_subset(seen, set_int_range(0, n as int));
        }
        let mut next: Vec<usize> = Vec::new();
        let ghost old_layer = layer_of@;
        let ghost old_seen = seen;
        proof {
            assert(frontier@.take(0) =~= Seq::<usize>::empty());
            assert(rows_of(edges, frontier@.take(0)) =~= Seq::<usize>::empty());
        }
        let mut i: usize = 0;
        while i < frontier.len()
            invariant
                n == adj.len(),
                n < usize::MAX,
                none == n + 1,
                start < n,
                adjacency_of(adj@, edges, n as int),
                layer_of.len() == n,
                i <= frontier.len(),
                r < old_seen.len(),
                old_seen.len() <= n,
                frontier@.no_duplicates(),
                forall|j: int| 0 <= j < frontier.len() ==> #[trigger] frontier[j] < n,
                forall|u: int| 0 <= u < n ==> (frontier@.contains(u as usize) <==> #[trigger] old_layer[u] == r),
                forall|u: int| 0 <= u < n && old_layer[u] != none ==> #[trigger] layer_of[u] == old_layer[u],
                forall|u: int|
                    0 <= u < n && old_layer[u] == none ==> (#[trigger] layer_of[u] == none || layer_of[u] == r + 1),
                next@.no_duplicates(),
                forall|j: int| 0 <= j < next.len() ==> #[trigger] next[j] < n,
                forall|u: int| 0 <= u < n ==> (next@.contains(u as usize) <==> (#[trigger] layer_of[u] == r + 1)),
                seen == old_seen + Set::new(|u: int| 0 <= u < n && layer_of[u] == r + 1),
                forall|u: int|
                    0 <= u < n && layer_of[u] == r + 1 ==> exists|j: int|
                        0 <= j < i && joined(edges, frontier[j] as int, u) && #[trigger] old_layer[frontier[j] as int] == r,
                forall|j: int, w: int|
                    0 <= j < i && #[trigger] joined(edges, frontier[j] as int, w) && 0 <= w < n ==> layer_of[w] != none,
                forall|u: int| 0 <= u < n && old_layer[u] != none ==> #[trigger] old_layer[u] <= r,
                old_layer.len() == n,
                next@ == first_seen(rows_of(edges, frontier@.take(i as int)), known_upto(old_layer, n as int, r as int)),
            decreases frontier.len() - i,
        {
            let cur = frontier[i];
            let row = &adj[cur];
            proof {
                assert forall|q: int| 0 <= q < row@.len() implies #[trigger] row@[q] < n by {
                    lemma_neighbours_joined(edges, cur as int, row@[q] as int);
                    lemma_joined_in_range(edges, cur as int, row@[q] as int, n as int);
                }
            }
            proof {
                assert(rows_of(edges, frontier@.take(i as int)) + row@.take(0) =~= rows_of(
                    edges,
                    frontier@.take(i as int),
                ));
            }
            let mut j: usize = 0;
            while j < row.len()
                invariant
                    n == adj.len(),
                    n < usize::MAX,
                    none == n + 1,
                    adjacency_of(adj@, edges, n as int),
                    cur < n,
                    row@ == neighbours(edges, cur as int),
                    forall|q: int| 0 <= q < row@.len() ==> #[trigger] row@[q] < n,
                    old_layer[cur as int] == r,
                    layer_of.len() == n,
                    j <= row.len(),
                    r < old_seen.len(),
                    old_seen.len() <= n,
                    forall|u: int| 0 <= u < n && old_layer[u] != none ==> #[trigger] layer_of[u] == old_layer[u],
                    forall|u: int|
                        0 <= u < n && old_layer[u] == none ==> (#[trigger] layer_of[u] == none || layer_of[u] == r + 1),
                    next@.no_duplicates(),
                    forall|q: int| 0 <= q < next.len() ==> #[trigger] next[q] < n,
                    forall|u: int| 0 <= u < n ==> (next@.contains(u as usize) <==> (#[trigger] layer_of[u] == r + 1)),
                    seen == old_seen + Set::new(|u: int| 0 <= u < n && layer_of[u] == r + 1),
                    forall|u: int|
                        0 <= u < n && layer_of[u] == r + 1 ==> (exists|q: int|
                            0 <= q < i && joined(edges, frontier[q] as int, u) && #[trigger] old_layer[frontier[q] as int] == r)
                            || joined(edges, cur as int, u),
                    forall|q: int| 0 <= q < j ==> layer_of[#[trigger] row@[q] as int] != none,
                    forall|u: int| 0 <= u < n && old_layer[u] != none ==> #[trigger] old_layer[u] <= r,
                    old_layer.len() == n,
                    next@ == first_seen(
                        rows_of(edges, frontier@.take(i as int)) + row@.take(j as int),
                        known_upto(old_layer, n as int, r as int),
                    ),
                    i < frontier.len(),
                    frontier[i as int] == cur,
                    forall|q: int| 0 <= q < frontier.len() ==> #[trigger] frontier[q] < n,
                    forall|q: int, w: int|
                        0 <= q < i && #[trigger] joined(edges, frontier[q] as int, w) && 0 <= w < n ==> layer_of[w] != none,
                decreases row.len() - j,
            {
                let nb = row[j];
                proof {
                    lemma_neighbours_joined(edges, cur as int, nb as int);
                    assert(neighbours(edges, cur as int)[j as int] == nb);
                }
                let ghost before_next = next@;
                let ghost before_layer = layer_of@;
                if layer_of[nb] == none {
                    assert(!next@.contains(nb));
                    layer_of.set(nb, r + 1);
                    next.push(nb);
                    proof {
                        seen = seen.insert(nb as int);
                        assert(next@ == before_next.push(nb));
                        assert forall|u: int| 0 <= u < n implies (next@.contains(u as usize) <==> (
                        #[trigger] layer_of[u] == r + 1)) by {
                            if u == nb {
                                assert(next@[next@.len() - 1] == nb);
                            } else if next@.contains(u as usize) {
                                let q = next@.index_of(u as usize);
                                assert(before_next[q] == u);
                            } else if before_next.contains(u as usize) {
                                let q = before_next.index_of(u as usize);
                                assert(next@[q] == u);
                            }
                        }
                    }
                }
                assert(r + 1 != none);
                assert(layer_of[nb as int] != none);
                assert(layer_of@ == before_layer || layer_of@ == before_layer.update(nb as int, (r + 1) as usize));
                assert forall|q: int| 0 <= q < j + 1 implies layer_of[#[trigger] row@[q] as int] != none by {
                    if q < j {
                        assert(before_layer[row@[q] as int] != none);
                        if row@[q] != nb {
                            assert(layer_of[row@[q] as int] == before_layer[row@[q] as int]);
                        }
                    } else {
                        assert(row@[q] == nb);
                    }
                }
                proof {
                    assert(seen =~= old_seen + Set::new(|u: int| 0 <= u < n && layer_of[u] == r + 1));
                    let known = known_upto(old_layer, n as int, r as int);
                    let walked = rows_of(edges, frontier@.take(i as int)) + row@.take(j as int);
                    let walked2 = rows_of(edges, frontier@.take(i as int)) + row@.take(j + 1);
                    assert(walked2.drop_last() =~= walked);
                    assert(walked2.last() == nb);
                    if before_layer[nb as int] == none {
                        assert(!known.contains(nb as int));
                        assert(!before_next.contains(nb));
                        assert(next@ == before_next.push(nb));
                    } else {
                        if old_layer[nb as int] != none {
                            assert(known.contains(nb as int));
                        } else {
                            assert(before_next.contains(nb));
                        }
                        assert(next@ == before_next);
                    }
                    assert(next@ == first_seen(walked2, known));
                }
                j += 1;
            }
            proof {
                assert forall|w: int| 0 <= w < n && #[trigger] joined(edges, cur as int, w) implies layer_of[w]
                    != none by {
                    lemma_neighbours_joined(edges, cur as int, w);
                    let q = row@.index_of(w as usize);
                    assert(row@[q] == w);
                }
                assert(frontier[i as int] == cur);
                assert(frontier@.take(i + 1).drop_last() =~= frontier@.take(i as int));
                assert(rows_of(edges, frontier@.take(i + 1)) == rows_of(edges, frontier@.take(i as int))
                    + neighbours(edges, cur as int));
                assert(row@.take(row.len() as int) =~= row@);
            }
            i += 1;
        }
        proof {
            // every node at distance exactly r + 1 was found
            assert forall|u: int, k: nat|
                0 <= u < n && k <= r + 1 implies (#[trigger] within(edges, start as int, u, k) <==> (
                layer_of[u] != none && layer_of[u] <= k)) by {
                if k <= r {
                    if old_layer[u] == none {
                        assert(!within(edges, start as int, u, k));
                    }
                } else {
                    if within(edges, start as int, u, k) {
                        if !within(edges, start as int, u, r as nat) {
                            assert(k == r + 1);
                            let w = lemma_last_step(edges, start as int, u, k);
                            lemma_joined_in_range(edges, w, u, n as int);
                            if old_layer[w] < r {
                                lemma_within_step(edges, start as int, w, u, old_layer[w] as nat);
                                lemma_within_monotone(edges, start as int, u, (old_layer[w] + 1) as nat, r as nat);
                            } else {
                                assert(frontier@.contains(w as usize));
                                let q = frontier@.index_of(w as usize);
                                assert(frontier[q] == w);
                                assert(joined(edges, frontier[q] as int, u));
                            }
                        }
                    }
                    if layer_of[u] != none && layer_of[u] <= k {
                        if old_layer[u] == none {
                            assert(layer_of[u] == r + 1);
                            let q = choose|q: int|
                                0 <= q < frontier.len() && joined(edges, frontier[q] as int, u)
                                    && #[trigger] old_layer[frontier[q] as int] == r;
                            let w = frontier[q] as int;
                            assert(within(edges, start as int, w, r as nat));
                            lemma_within_step(edges, start as int, w, u, r as nat);
                        } else {
                            assert(within(edges, start as int, u, r as nat));
                            lemma_within_monotone(edges, start as int, u, r as nat, k);
                        }
                    }
                }
            }
            assert forall|u: int| 0 <= u < n && layer_of[u] < r + 1 implies (#[trigger] layers@.push(frontier)[layer_of[u] as int])@.contains(u as usize) by {
                if layer_of[u] == r {
                    assert(layers@.push(frontier)[r as int] == frontier);
                } else {
                    assert(layers@.push(frontier)[layer_of[u] as int] == layers[layer_of[u] as int]);
                }
            }
            if next.len() > 0 {
                assert(seen.contains(next[0] as int));
                assert(!old_seen.contains(next[0] as int));
                assert(seen.len() > old_seen.len()) by {
                    assert(old_seen.insert(next[0] as int).subset_of(seen));
                    lemma_int_range(0, n as int);
                    lemma_len_subset(seen, set_int_range(0, n as int));
                    lemma_len_subset(old_seen.insert(next[0] as int), seen);
                }
            } else {
                assert(seen =~= old_seen);
            }
            lemma_int_range(0, n as int);
            lemma_len_subset(seen, set_int_range(0, n as int));
        }
        proof {
            assert(frontier@.take(frontier.len() as int) =~= frontier@);
            assert forall|m: int| m <= r implies #[trigger] known_upto(layer_of@, n as int, m) == known_upto(
                old_layer,
                n as int,
                m,
            ) by {
                assert(known_upto(layer_of@, n as int, m) =~= known_upto(old_layer, n as int, m));
            }
        }
        let ghost old_layers = layers@;
        let ghost old_frontier = frontier@;
        layers.push(frontier);
        frontier = next;
        r += 1;
        proof {
            assert(layers[r - 1]@ == old_frontier);
            assert forall|k: int| 1 <= k < r implies (#[trigger] layers[k])@ == first_seen(
                rows_of(edges, layers[k - 1]@),
                known_upto(layer_of@, n as int, k - 1),
            ) by {
                assert(known_upto(layer_of@, n as int, k - 1) == known_upto(old_layer, n as int, k - 1));
                if k < r - 1 {
                    assert(layers[k] == old_layers[k]);
                    assert(layers[k - 1] == old_layers[k - 1]);
                } else {
                    assert(layers[k - 1] == old_layers[k - 1]);
                }
            }
            assert(known_upto(layer_of@, n as int, r - 1) == known_upto(old_layer, n as int, r - 1));
            if r == 1 {
                assert(layers[0]@ == old_frontier);
            } else {
                assert(layers[0] == old_layers[0]);
            }
        }
    }
    proof {
        assert(r >= 1) by {
            if r == 0 {
                assert(layer_of[start as int] == 0);
            }
        }
        assert forall|u: int| #[trigger] within(edges, start as int, u, r as nat) implies within(
            edges,
            start as int,
            u,
            (r - 1) as nat,
        ) by {
            if 0 <= u < n {
                assert(layer_of[u] != r);
            } else {
                lemma_outside_unreached(edges, start as int, u, r as nat, n as int);
            }
        }
        assert forall|u: int, k: nat| 0 <= u < n implies (#[trigger] within(edges, start as int, u, k)
            <==> (layer_of[u] != none && layer_of[u] <= k)) by {
            if k > r {
                if within(edges, start as int, u, k) {
                    lemma_gap(edges, start as int, r as nat, k, u);
                }
                if layer_of[u] != none && layer_of[u] <= k {
                    assert(within(edges, start as int, u, r as nat));
                    lemma_within_monotone(edges, start as int, u, r as nat, k);
                }
            }
        }
    }
    Layers { layer_of, layers }
}

/// Only nodes below `n` are reached from a start below `n`.
proof fn lemma_outside_unreached(edges: Seq<(usize, usize)>, s: int, u: int, k: nat, n: int)
    requires
        edges_in_range(edges, n),
        0 <= s < n,
        !(0 <= u < n),
    ensures
        !within(edges, s, u, k),
{
    if within(edges, s, u, k) {
        let p = choose|p: Seq<int>| #[trigger] is_walk(edges, p) && p.len() <= k + 1 && p[0] == s && p.last() == u;
        if p.len() > 1 {
            assert(joined(edges, p[p.len() - 2], p[p.len() - 2 + 1]));
            lemma_joined_in_range(edges, p[p.len() - 2], p[p.len() - 1], n);
        }
    }
}

} // verus!
