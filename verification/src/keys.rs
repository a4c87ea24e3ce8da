use std::collections::HashMap;
use vstd::prelude::*;

verus! {

/// One step of the 64-bit FNV-1a hash over a character's code point.
pub open spec fn hash_step(h: u64, c: char) -> u64 {
    vstd::wrapping::u64_specs::wrapping_mul(h ^ ((c as u32) as u64), 0x100000001b3)
}

/// The 64-bit FNV-1a hash of the code points of `s`.
pub open spec fn text_hash(s: Seq<char>) -> u64
    decreases s.len(),
{
    if s.len() == 0 {
        0xcbf29ce484222325
    } else {
        hash_step(text_hash(s.drop_last()), s.last())
    }
}

/// Hashes the characters of `s` (64-bit FNV-1a over code points).
pub fn hash_text(s: &str) -> (h: u64)
    ensures
        h == text_hash(s@),
{
    let mut h: u64 = 0xcbf29ce484222325;
    for c in it: s.chars()
        invariant
            it.seq() == s@,
            h == text_hash(it.seq().take(it.index() as int)),
    {
        proof {
            let pre = it.seq().take(it.index() as int);
            let now = it.seq().take(it.index() + 1);
            assert(now.drop_last() =~= pre);
            assert(now.last() == c);
        }
        h = (h ^ ((c as u32) as u64)).wrapping_mul(0x100000001b3);
    }
    proof {
        assert(s@.take(s@.len() as int) =~= s@);
    }
    h
}

/// An index from keys to positions: keys are kept in the order they were
/// added, and a lookup finds the last position holding a key.
pub struct IdIndex {
    keys: Vec<String>,
    heads: HashMap<u64, usize>,
    next: Vec<usize>,
}

impl IdIndex {
    /// The keys, in the order they were added.
    pub closed spec fn keys(&self) -> Seq<Seq<char>> {
        self.keys@.map_values(|k: String| k@)
    }

    spec fn key_hash(&self, j: int) -> u64 {
        text_hash(self.keys@[j]@)
    }

    /// The internal links agree with the keys.
    pub closed spec fn wf(&self) -> bool {
        let n = self.keys@.len();
        &&& self.next@.len() == n
        &&& forall|i: int|
            0 <= i < n ==> {
                let p = #[trigger] self.next@[i] as int;
                &&& p <= i
                &&& (p < i ==> self.key_hash(p) == self.key_hash(i) && forall|j: int|
                    p < j < i ==> #[trigger] self.key_hash(j) != self.key_hash(i))
                &&& (p == i ==> forall|j: int| 0 <= j < i ==> #[trigger] self.key_hash(j) != self.key_hash(i))
            }
        &&& forall|h: u64|
            #[trigger] self.heads@.contains_key(h) <==> exists|j: int| 0 <= j < n && self.key_hash(j) == h
        &&& forall|h: u64|
            #[trigger] self.heads@.contains_key(h) ==> {
                let p = self.heads@[h] as int;
                &&& 0 <= p < n
                &&& self.key_hash(p) == h
                &&& forall|j: int| p < j < n ==> #[trigger] self.key_hash(j) != h
            }
    }

    /// An empty index.
    pub fn new() -> (r: IdIndex)
        ensures
            r.wf(),
            r.keys() == Seq::<Seq<char>>::empty(),
    {
        let r = IdIndex { keys: Vec::new(), heads: HashMap::new(), next: Vec::new() };
        assert(r.keys() =~= Seq::<Seq<char>>::empty());
        r
    }

    /// The number of keys.
    pub fn len(&self) -> (n: usize)
        ensures
            n == self.keys().len(),
    {
        self.keys.len()
    }

    /// The key at position `i`.
    pub fn key(&self, i: usize) -> (k: &String)
        requires
            i < self.keys().len(),
        ensures
            k@ == self.keys()[i as int],
    {
        &self.keys[i]
    }

    /// Adds `key` after the keys already held.
    pub fn push(&mut self, key: String)
        requires
            old(self).wf(),
            old(self).keys().len() < usize::MAX,
        ensures
            final(self).wf(),
            final(self).keys() == old(self).keys().push(key@),
    {
        let i = self.keys.len();
        let h = hash_text(key.as_str());
        let ghost old_self = *self;
        let prev = match self.heads.get(&h) {
            Some(p) => *p,
            None => i,
        };
        self.next.push(prev);
        self.heads.insert(h, i);
        self.keys.push(key);
        proof {
            let n = i + 1;
            assert(self.key_hash(i as int) == h);
            assert forall|j: int| 0 <= j < i implies #[trigger] self.key_hash(j) == old_self.key_hash(j) by {
                assert(self.keys@[j] == old_self.keys@[j]);
            }
            assert forall|q: int| 0 <= q < n implies {
                let p = #[trigger] self.next@[q] as int;
                &&& p <= q
                &&& (p < q ==> self.key_hash(p) == self.key_hash(q) && forall|j: int|
                    p < j < q ==> #[trigger] self.key_hash(j) != self.key_hash(q))
                &&& (p == q ==> forall|j: int| 0 <= j < q ==> #[trigger] self.key_hash(j) != self.key_hash(q))
            } by {
                if q < i {
                    assert(self.next@[q] == old_self.next@[q]);
                    let p = self.next@[q] as int;
                    assert(old_self.key_hash(q) == self.key_hash(q));
                    if p < q {
                        assert(old_self.key_hash(p) == self.key_hash(p));
                    }
                } else {
                    assert(q == i);
                    if old_self.heads@.contains_key(h) {
                        assert(prev == old_self.heads@[h]);
                    } else {
                        assert forall|j: int| 0 <= j < q implies #[trigger] self.key_hash(j) != self.key_hash(q) by {
                            if self.key_hash(j) == h {
                                assert(old_self.key_hash(j) == h);
                            }
                        }
                    }
                }
            }
            assert forall|g: u64| #[trigger] self.heads@.contains_key(g) <==> exists|j: int|
                0 <= j < n && self.key_hash(j) == g by {
                if g != h {
                    if self.heads@.contains_key(g) {
                        let j = choose|j: int| 0 <= j < i && old_self.key_hash(j) == g;
                        assert(self.key_hash(j) == g);
                    }
                    if exists|j: int| 0 <= j < n && self.key_hash(j) == g {
                        let j = choose|j: int| 0 <= j < n && self.key_hash(j) == g;
                        assert(j != i);
                        assert(old_self.key_hash(j) == g);
                    }
                } else {
                    assert(self.key_hash(i as int) == g);
                }
            }
            assert forall|g: u64| #[trigger] self.heads@.contains_key(g) implies {
                let p = self.heads@[g] as int;
                &&& 0 <= p < n
                &&& self.key_hash(p) == g
                &&& forall|j: int| p < j < n ==> #[trigger] self.key_hash(j) != g
            } by {
                if g != h {
                    assert(old_self.heads@.contains_key(g));
                    let p = old_self.heads@[g] as int;
                    assert(self.heads@[g] == old_self.heads@[g]);
                    assert(old_self.key_hash(p) == self.key_hash(p));
                    assert forall|j: int| p < j < n implies #[trigger] self.key_hash(j) != g by {
                        if j < i {
                            assert(old_self.key_hash(j) == self.key_hash(j));
                        }
                    }
                }
            }
            assert(self.keys() =~= old_self.keys().push(key@));
        }
    }

    /// The last position holding `key`, if any.
    pub fn find(&self, key: &String) -> (r: Option<usize>)
        requires
            self.wf(),
        ensures
            match r {
                Some(j) => j < self.keys().len() && self.keys()[j as int] == key@ && forall|q: int|
                    j < q < self.keys().len() ==> #[trigger] self.keys()[q] != key@,
                None => forall|q: int| 0 <= q < self.keys().len() ==> #[trigger] self.keys()[q] != key@,
            },
    {
        let h = hash_text(key.as_str());
        let n = self.keys.len();
        proof {
            assert forall|q: int| 0 <= q < n && #[trigger] self.keys()[q] == key@ implies self.key_hash(q) == h by {
                assert(self.keys()[q] == self.keys@[q]@);
            }
        }
        match self.heads.get(&h) {
            None => {
                proof {
                    assert forall|q: int| 0 <= q < n implies #[trigger] self.keys()[q] != key@ by {
                        if self.keys()[q] == key@ {
                            assert(self.key_hash(q) == h);
                        }
                    }
                }
                None
            },
            Some(p) => {
                let mut cur: usize = *p;
                loop
                    invariant
                        self.wf(),
                        n == self.keys@.len(),
                        cur < n,
                        self.key_hash(cur as int) == h,
                        forall|q: int| 0 <= q < n && #[trigger] self.keys()[q] == key@ ==> self.key_hash(q) == h,
                        forall|q: int| cur < q < n ==> #[trigger] self.keys()[q] != key@,
                    decreases cur,
                {
                    if self.keys[cur] == *key {
                        return Some(cur);
                    }
                    let nx = self.next[cur];
                    if nx == cur {
                        proof {
                            assert forall|q: int| 0 <= q < n implies #[trigger] self.keys()[q] != key@ by {
                                if q < cur && self.keys()[q] == key@ {
                                    assert(self.key_hash(q) == h);
                                }
                            }
                        }
                        return None;
                    }
                    proof {
                        assert forall|q: int| nx < q < n implies #[trigger] self.keys()[q] != key@ by {
                            if nx < q < cur && self.keys()[q] == key@ {
                                assert(self.key_hash(q) == h);
                            }
                        }
                    }
                    cur = nx;
                }
            },
        }
    }
}

} // verus!
