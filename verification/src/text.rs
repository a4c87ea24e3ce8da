use vstd::prelude::*;

verus! {

/// The characters of `s`, in order.
pub fn chars_of(s: &str) -> (v: Vec<char>)
    ensures
        v@ == s@,
{
    let mut v: Vec<char> = Vec::new();
    for c in it: s.chars()
        invariant
            v@ == it.seq().take(it.index() as int),
            it.seq() == s@,
    {
        v.push(c);
    }
    v
}

/// Builds a `String` holding exactly the characters of `v`
/// (`String::from_iter` over the characters, which vstd does not specify).
#[verifier::external_body]
pub(crate) fn string_of(v: &[char]) -> (s: String)
    ensures
        s@ == v@,
{
    String::from_iter(v.iter())
}


/// `a` comes strictly before `b` in lexicographic order of code points (the
/// order of `String`'s `Ord`).
pub open spec fn text_lt(a: Seq<char>, b: Seq<char>) -> bool
    decreases a.len(),
{
    if a.len() == 0 {
        b.len() > 0
    } else if b.len() == 0 {
        false
    } else if a[0] != b[0] {
        (a[0] as u32) < (b[0] as u32)
    } else {
        text_lt(a.drop_first(), b.drop_first())
    }
}

/// No text sorts before itself.
pub proof fn lemma_text_lt_irreflexive(a: Seq<char>)
    ensures
        !text_lt(a, a),
    decreases a.len(),
{
    if a.len() > 0 {
        lemma_text_lt_irreflexive(a.drop_first());
    }
}

/// The text order is transitive.
pub proof fn lemma_text_lt_transitive(a: Seq<char>, b: Seq<char>, c: Seq<char>)
    requires
        text_lt(a, b),
        text_lt(b, c),
    ensures
        text_lt(a, c),
    decreases a.len(),
{
    if a.len() > 0 && b.len() > 0 && c.len() > 0 {
        if a[0] == b[0] && b[0] == c[0] {
            lemma_text_lt_transitive(a.drop_first(), b.drop_first(), c.drop_first());
        }
    }
}

proof fn lemma_code_points_differ(c: char, d: char)
    requires
        c != d,
    ensures
        (c as u32) != (d as u32),
{
}

/// Of two different texts, one sorts before the other.
pub proof fn lemma_text_lt_total(a: Seq<char>, b: Seq<char>)
    ensures
        a == b || text_lt(a, b) || text_lt(b, a),
    decreases a.len(),
{
    if a.len() > 0 && b.len() > 0 {
        if a[0] == b[0] {
            lemma_text_lt_total(a.drop_first(), b.drop_first());
            if a.drop_first() == b.drop_first() {
                assert(a =~= seq![a[0]] + a.drop_first());
                assert(b =~= seq![b[0]] + b.drop_first());
            }
        } else {
            lemma_code_points_differ(a[0], b[0]);
        }
    } else if a.len() == 0 && b.len() == 0 {
        assert(a =~= b);
    }
}

/// Whether `a` sorts strictly before `b` (lexicographic by code point).
pub fn text_less(a: &[char], b: &[char]) -> (r: bool)
    ensures
        r == text_lt(a@, b@),
{
    let mut i: usize = 0;
    assert(a@.skip(0) =~= a@);
    assert(b@.skip(0) =~= b@);
    while i < a.len() && i < b.len()
        invariant
            i <= a.len(),
            i <= b.len(),
            a@.take(i as int) == b@.take(i as int),
            text_lt(a@, b@) == text_lt(a@.skip(i as int), b@.skip(i as int)),
        decreases a.len() - i,
    {
        if a[i] != b[i] {
            return (a[i] as u32) < (b[i] as u32);
        }
        proof {
            let x = a@.skip(i as int);
            let y = b@.skip(i as int);
            assert(x.drop_first() =~= a@.skip(i + 1));
            assert(y.drop_first() =~= b@.skip(i + 1));
            assert(a@.take(i + 1) =~= a@.take(i as int).push(a[i as int]));
            assert(b@.take(i + 1) =~= b@.take(i as int).push(b[i as int]));
        }
        i += 1;
    }
    proof {
        assert(a@.skip(i as int).len() == a.len() - i);
        assert(b@.skip(i as int).len() == b.len() - i);
    }
    i == a.len() && i < b.len()
}

/// `s` is strictly increasing in lexicographic order.
pub open spec fn strictly_sorted(s: Seq<Seq<char>>) -> bool {
    forall|i: int, j: int| 0 <= i < j < s.len() ==> text_lt(#[trigger] s[i], #[trigger] s[j])
}

/// The views of a list of strings.
pub open spec fn views(v: Seq<String>) -> Seq<Seq<char>> {
    v.map_values(|s: String| s@)
}

/// Inserts `x` into the strictly sorted `list` unless an equal string is present.
pub fn insert_sorted_unique(list: &mut Vec<String>, x: &String)
    requires
        strictly_sorted(views(old(list)@)),
    ensures
        strictly_sorted(views(final(list)@)),
        views(final(list)@).to_set() == views(old(list)@).to_set().insert(x@),
{
    let xs = chars_of(x.as_str());
    let ghost old_v = views(list@);
    let mut p: usize = 0;
    while p < list.len()
        invariant
            p <= list.len(),
            views(list@) == old_v,
            strictly_sorted(old_v),
            xs@ == x@,
            forall|i: int| 0 <= i < p ==> text_lt(#[trigger] old_v[i], x@),
        ensures
            p <= list.len(),
            views(list@) == old_v,
            forall|i: int| 0 <= i < p ==> text_lt(#[trigger] old_v[i], x@),
            p < list.len() ==> !text_lt(old_v[p as int], x@),
        decreases list.len() - p,
    {
        let ys = chars_of(list[p].as_str());
        assert(old_v[p as int] == list@[p as int]@);
        if !text_less(&ys, &xs) {
            break;
        }
        p += 1;
    }
    if p < list.len() {
        let ys = chars_of(list[p].as_str());
        assert(old_v[p as int] == list@[p as int]@);
        if !text_less(&xs, &ys) {
            proof {
                lemma_text_lt_total(xs@, ys@);
                assert(old_v.to_set().contains(old_v[p as int]));
                assert(old_v.to_set().insert(x@) =~= old_v.to_set());
            }
            return;
        }
        proof {
            assert(text_lt(x@, old_v[p as int]));
        }
    }
    list.insert(p, x.clone());
    proof {
        let nv = views(list@);
        assert(nv =~= old_v.take(p as int).push(x@) + old_v.skip(p as int));
        assert forall|i: int, j: int| 0 <= i < j < nv.len() implies text_lt(#[trigger] nv[i], #[trigger] nv[j]) by {
            if j == p {
                assert(nv[i] == old_v[i]);
            } else if i == p {
                assert(nv[j] == old_v[j - 1]);
                lemma_text_lt_total(x@, old_v[p as int]);
                if j - 1 > p {
                    lemma_text_lt_transitive(x@, old_v[p as int], old_v[j - 1]);
                }
            } else if j < p {
                assert(nv[i] == old_v[i] && nv[j] == old_v[j]);
            } else if i < p {
                assert(nv[i] == old_v[i] && nv[j] == old_v[j - 1]);
                if p < old_v.len() {
                    lemma_text_lt_total(x@, old_v[p as int]);
                    if j - 1 > p {
                        lemma_text_lt_transitive(x@, old_v[p as int], old_v[j - 1]);
                    }
                    lemma_text_lt_transitive(old_v[i], x@, old_v[j - 1]);
                }
            } else {
                assert(nv[i] == old_v[i - 1] && nv[j] == old_v[j - 1]);
            }
        }
        assert(nv.to_set() =~= old_v.to_set().insert(x@)) by {
            assert forall|t: Seq<char>| nv.to_set().contains(t) implies old_v.to_set().insert(x@).contains(t) by {
                let i = nv.index_of(t);
                if i < p {
                    assert(old_v[i] == t);
                } else if i > p {
                    assert(old_v[i - 1] == t);
                }
            }
            assert forall|t: Seq<char>| old_v.to_set().insert(x@).contains(t) implies nv.to_set().contains(t) by {
                if t == x@ {
                    assert(nv[p as int] == t);
                } else {
                    let i = old_v.index_of(t);
                    if i < p {
                        assert(nv[i] == t);
                    } else {
                        assert(nv[i + 1] == t);
                    }
                }
            }
        }
    }
}

/// `c` has the Unicode White_Space property (what `char::is_whitespace` tests).
pub open spec fn is_space(c: char) -> bool {
    let x = c as u32;
    (0x9 <= x <= 0xd) || x == 0x20 || x == 0x85 || x == 0xa0 || x == 0x1680 || (0x2000 <= x <= 0x200a)
        || x == 0x2028 || x == 0x2029 || x == 0x202f || x == 0x205f || x == 0x3000
}

/// Whether `c` is white space.
pub fn space(c: char) -> (r: bool)
    ensures
        r == is_space(c),
{
    let x = c as u32;
    (0x9 <= x && x <= 0xd) || x == 0x20 || x == 0x85 || x == 0xa0 || x == 0x1680 || (0x2000 <= x && x
        <= 0x200a) || x == 0x2028 || x == 0x2029 || x == 0x202f || x == 0x205f || x == 0x3000
}

/// The test "is `c`".
pub open spec fn char_is(c: char) -> spec_fn(char) -> bool {
    |x: char| x == c
}

/// The test "is white space".
pub open spec fn space_test() -> spec_fn(char) -> bool {
    |x: char| is_space(x)
}

/// `s` without the leading characters that satisfy `p`.
pub open spec fn drop_front(s: Seq<char>, p: spec_fn(char) -> bool) -> Seq<char>
    decreases s.len(),
{
    if s.len() > 0 && p(s[0]) {
        drop_front(s.drop_first(), p)
    } else {
        s
    }
}

/// `s` without the trailing characters that satisfy `p`.
pub open spec fn drop_back(s: Seq<char>, p: spec_fn(char) -> bool) -> Seq<char>
    decreases s.len(),
{
    if s.len() > 0 && p(s.last()) {
        drop_back(s.drop_last(), p)
    } else {
        s
    }
}

/// `s` without white space at either end (`str::trim`).
pub open spec fn trimmed(s: Seq<char>) -> Seq<char> {
    drop_back(drop_front(s, space_test()), space_test())
}

/// `s` without the character `c` at either end (`str::trim_matches(c)`).
pub open spec fn trimmed_of(s: Seq<char>, c: char) -> Seq<char> {
    drop_back(drop_front(s, char_is(c)), char_is(c))
}

/// `t` is `s` with copies of `c` cut from both ends and no more: a stretch of
/// `s` with nothing but `c` around it, that itself neither begins nor ends
/// with `c`.
pub open spec fn stripped_copy(t: Seq<char>, s: Seq<char>, c: char) -> bool {
    &&& t.len() > 0 ==> t[0] != c && t.last() != c
    &&& exists|lo: int, hi: int|
        0 <= lo <= hi <= s.len() && #[trigger] s.subrange(lo, hi) == t && (forall|k: int| 0 <= k < lo ==> s[k] == c)
            && (forall|k: int| hi <= k < s.len() ==> s[k] == c)
}

/// Where `drop_front(s, p)` starts in `s`.
proof fn lemma_drop_front_at(s: Seq<char>, p: spec_fn(char) -> bool) -> (i: int)
    ensures
        0 <= i <= s.len(),
        drop_front(s, p) == s.skip(i),
        forall|k: int| 0 <= k < i ==> p(#[trigger] s[k]),
        i < s.len() ==> !p(s[i]),
    decreases s.len(),
{
    if s.len() > 0 && p(s[0]) {
        let j = lemma_drop_front_at(s.drop_first(), p);
        assert(s.drop_first().skip(j) =~= s.skip(j + 1));
        assert forall|k: int| 0 <= k < j + 1 implies p(#[trigger] s[k]) by {
            if k > 0 {
                assert(s[k] == s.drop_first()[k - 1]);
            }
        }
        assert(j < s.drop_first().len() ==> s[j + 1] == s.drop_first()[j]);
        j + 1
    } else {
        assert(s.skip(0) =~= s);
        0
    }
}

/// Where `drop_back(s, p)` ends in `s`.
proof fn lemma_drop_back_at(s: Seq<char>, p: spec_fn(char) -> bool) -> (j: int)
    ensures
        0 <= j <= s.len(),
        drop_back(s, p) == s.take(j),
        forall|k: int| j <= k < s.len() ==> p(#[trigger] s[k]),
        j > 0 ==> !p(s[j - 1]),
    decreases s.len(),
{
    if s.len() > 0 && p(s.last()) {
        let j = lemma_drop_back_at(s.drop_last(), p);
        assert(s.drop_last().take(j) =~= s.take(j));
        assert forall|k: int| j <= k < s.len() implies p(#[trigger] s[k]) by {
            if k < s.len() - 1 {
                assert(s[k] == s.drop_last()[k]);
            }
        }
        assert(j > 0 ==> s[j - 1] == s.drop_last()[j - 1]);
        j
    } else {
        assert(s.take(s.len() as int) =~= s);
        s.len() as int
    }
}

/// Trimming `c` from both ends cuts copies of `c`, and only those, from each
/// end, until neither end is `c`.
pub proof fn law_trimmed_of_strips(s: Seq<char>, c: char)
    ensures
        stripped_copy(trimmed_of(s, c), s, c),
{
    let p = char_is(c);
    let i = lemma_drop_front_at(s, p);
    let a = s.skip(i);
    let j = lemma_drop_back_at(a, p);
    let t = trimmed_of(s, c);
    assert(t == a.take(j));
    assert(s.subrange(i, i + j) =~= t);
    assert forall|k: int| 0 <= k < i implies s[k] == c by {
        assert(p(s[k]));
    }
    assert forall|k: int| i + j <= k < s.len() implies s[k] == c by {
        assert(a[k - i] == s[k]);
        assert(p(a[k - i]));
    }
    if t.len() > 0 {
        assert(t[0] == s[i]);
        assert(t.last() == a[j - 1]);
    }
}

/// The start index of `drop_front(s, p)`.
proof fn lemma_drop_front_skip(s: Seq<char>, p: spec_fn(char) -> bool, i: int)
    requires
        0 <= i <= s.len(),
        forall|k: int| 0 <= k < i ==> p(#[trigger] s[k]),
    ensures
        drop_front(s, p) == drop_front(s.skip(i), p),
    decreases i,
{
    if i > 0 {
        assert(s.skip(i) =~= s.drop_first().skip(i - 1));
        assert forall|k: int| 0 <= k < i - 1 implies p(#[trigger] s.drop_first()[k]) by {
            assert(s.drop_first()[k] == s[k + 1]);
        }
        lemma_drop_front_skip(s.drop_first(), p, i - 1);
    } else {
        assert(s.skip(0) =~= s);
    }
}

proof fn lemma_drop_back_take(s: Seq<char>, p: spec_fn(char) -> bool, j: int)
    requires
        0 <= j <= s.len(),
        forall|k: int| j <= k < s.len() ==> p(#[trigger] s[k]),
    ensures
        drop_back(s, p) == drop_back(s.take(j), p),
    decreases s.len() - j,
{
    if j < s.len() {
        assert(s.drop_last().take(j) =~= s.take(j));
        assert forall|k: int| j <= k < s.drop_last().len() implies p(#[trigger] s.drop_last()[k]) by {
            assert(s.drop_last()[k] == s[k]);
        }
        lemma_drop_back_take(s.drop_last(), p, j);
    } else {
        assert(s.take(j) =~= s);
    }
}

/// Whether `x` is cut off: white space when `spaces`, else equal to `c`.
fn cut_here(x: char, c: char, spaces: bool) -> (r: bool)
    ensures
        r == if spaces {
            is_space(x)
        } else {
            x == c
        },
{
    if spaces {
        space(x)
    } else {
        x == c
    }
}

/// Cuts `s` to `s[lo..hi]`, dropping from the front while `front` holds and
/// from the back while `back` holds.
fn cut_ends(s: &Vec<char>, c: char, spaces: bool, front: bool, back: bool) -> (r: Vec<char>)
    ensures
        ({
            let p = if spaces {
                space_test()
            } else {
                char_is(c)
            };
            let a = if front {
                drop_front(s@, p)
            } else {
                s@
            };
            r@ == if back {
                drop_back(a, p)
            } else {
                a
            }
        }),
{
    let ghost p = if spaces {
        space_test()
    } else {
        char_is(c)
    };
    let mut lo: usize = 0;
    if front {
        while lo < s.len() && cut_here(s[lo], c, spaces)
            invariant
                lo <= s.len(),
                p == if spaces {
                    space_test()
                } else {
                    char_is(c)
                },
                forall|k: int| 0 <= k < lo ==> p(#[trigger] s@[k]),
            decreases s.len() - lo,
        {
            lo += 1;
        }
        proof {
            lemma_drop_front_skip(s@, p, lo as int);
            if lo < s.len() {
                assert(!p(s@.skip(lo as int)[0]));
            }
        }
    }
    let mut hi: usize = s.len();
    if back {
        while hi > lo && cut_here(s[hi - 1], c, spaces)
            invariant
                lo <= hi <= s.len(),
                p == if spaces {
                    space_test()
                } else {
                    char_is(c)
                },
                forall|k: int| hi <= k < s.len() ==> p(#[trigger] s@[k]),
            decreases hi,
        {
            hi -= 1;
        }
    }
    let mut r: Vec<char> = Vec::new();
    let mut k: usize = lo;
    while k < hi
        invariant
            lo <= k <= hi,
            hi <= s.len(),
            r@ == s@.subrange(lo as int, k as int),
        decreases hi - k,
    {
        r.push(s[k]);
        proof {
            assert(r@ =~= s@.subrange(lo as int, k + 1));
        }
        k += 1;
    }
    proof {
        let a = if front {
            drop_front(s@, p)
        } else {
            s@
        };
        if front {
            if lo < s.len() {
                assert(drop_front(s@.skip(lo as int), p) == s@.skip(lo as int));
            } else {
                assert(s@.skip(lo as int).len() == 0);
            }
        } else {
            assert(s@.skip(0) =~= s@);
        }
        assert(a == s@.skip(lo as int));
        if back {
            assert forall|q: int| hi - lo <= q < a.len() implies p(#[trigger] a[q]) by {
                assert(a[q] == s@[q + lo]);
            }
            lemma_drop_back_take(a, p, hi - lo);
            assert(a.take(hi - lo) =~= s@.subrange(lo as int, hi as int));
            if hi > lo {
                assert(!p(a.take(hi - lo).last()));
            }
        } else {
            assert(hi == s.len());
            assert(a =~= s@.subrange(lo as int, hi as int));
        }
    }
    r
}

/// `s` without white space at either end (`str::trim`).
pub fn trim_spaces(s: &Vec<char>) -> (r: Vec<char>)
    ensures
        r@ == trimmed(s@),
{
    cut_ends(s, ' ', true, true, true)
}

/// `s` without `c` at either end (`str::trim_matches`).
pub fn trim_char(s: &Vec<char>, c: char) -> (r: Vec<char>)
    ensures
        r@ == trimmed_of(s@, c),
{
    cut_ends(s, c, false, true, true)
}

/// `s` without leading `c` (`str::trim_start_matches`).
pub fn trim_start_char(s: &Vec<char>, c: char) -> (r: Vec<char>)
    ensures
        r@ == drop_front(s@, char_is(c)),
{
    cut_ends(s, c, false, true, false)
}

/// `s` without trailing `c` (`str::trim_end_matches`).
pub fn trim_end_char(s: &Vec<char>, c: char) -> (r: Vec<char>)
    ensures
        r@ == drop_back(s@, char_is(c)),
{
    cut_ends(s, c, false, false, true)
}

/// The white-space separated words of `s` (`str::split_whitespace`).
pub open spec fn words(s: Seq<char>) -> Seq<Seq<char>>
    decreases s.len(),
{
    if s.len() == 0 {
        Seq::empty()
    } else {
        let rest = words(s.drop_last());
        let c = s.last();
        if is_space(c) {
            rest
        } else if s.len() >= 2 && !is_space(s[s.len() - 2]) {
            rest.drop_last().push(rest.last().push(c))
        } else {
            rest.push(seq![c])
        }
    }
}

proof fn lemma_words_nonempty(s: Seq<char>)
    requires
        s.len() > 0,
        !is_space(s.last()),
    ensures
        words(s).len() > 0,
    decreases s.len(),
{
    if s.len() >= 2 && !is_space(s[s.len() - 2]) {
        assert(s.drop_last().last() == s[s.len() - 2]);
        lemma_words_nonempty(s.drop_last());
    }
}

/// The white-space separated words of `s`.
pub fn split_words(s: &Vec<char>) -> (r: Vec<Vec<char>>)
    ensures
        r@.len() == words(s@).len(),
        forall|i: int| 0 <= i < r@.len() ==> (#[trigger] r@[i])@ == words(s@)[i],
{
    let mut r: Vec<Vec<char>> = Vec::new();
    let mut i: usize = 0;
    assert(s@.take(0) =~= Seq::<char>::empty());
    while i < s.len()
        invariant
            i <= s.len(),
            r@.len() == words(s@.take(i as int)).len(),
            forall|k: int| 0 <= k < r@.len() ==> (#[trigger] r@[k])@ == words(s@.take(i as int))[k],
        decreases s.len() - i,
    {
        let c = s[i];
        let ghost pre = s@.take(i as int);
        let ghost now = s@.take(i + 1);
        proof {
            assert(now.drop_last() =~= pre);
            assert(now.last() == c);
        }
        if space(c) {
        } else if i >= 1 && !space(s[i - 1]) {
            proof {
                assert(now[now.len() - 2] == s[i - 1]);
                assert(pre.last() == s[i - 1]);
                lemma_words_nonempty(pre);
            }
            let last = r.len() - 1;
            let ghost before = r@;
            r[last].push(c);
            proof {
                assert forall|k: int| 0 <= k < r@.len() implies (#[trigger] r@[k])@ == words(now)[k] by {
                    if k < last {
                        assert(r@[k] == before[k]);
                    }
                }
            }
        } else {
            proof {
                if i >= 1 {
                    assert(now[now.len() - 2] == s[i - 1]);
                }
            }
            let mut w: Vec<char> = Vec::new();
            w.push(c);
            r.push(w);
            proof {
                assert(w@ =~= seq![c]);
            }
        }
        i += 1;
    }
    proof {
        assert(s@.take(s.len() as int) =~= s@);
    }
    r
}

/// `c` is an ASCII decimal digit.
pub open spec fn is_digit(c: char) -> bool {
    48 <= (c as u32) <= 57
}

/// The number written by the decimal digits `s`.
pub open spec fn digits_value(s: Seq<char>) -> int
    decreases s.len(),
{
    if s.len() == 0 {
        0
    } else {
        digits_value(s.drop_last()) * 10 + ((s.last() as u32) - 48)
    }
}

/// Every character of `s` is a decimal digit.
pub open spec fn all_digits(s: Seq<char>) -> bool {
    forall|i: int| 0 <= i < s.len() ==> is_digit(#[trigger] s[i])
}

/// What `str::parse::<i64>` makes of `s`: an optional sign, then one or more
/// decimal digits, within the range of `i64`.
pub open spec fn parsed_i64(s: Seq<char>) -> Option<i64> {
    let signed = s.len() > 0 && (s[0] == '-' || s[0] == '+');
    let neg = signed && s[0] == '-';
    let body = if signed {
        s.drop_first()
    } else {
        s
    };
    if body.len() == 0 || !all_digits(body) {
        None
    } else {
        let v = if neg {
            -digits_value(body)
        } else {
            digits_value(body)
        };
        if i64::MIN <= v <= i64::MAX {
            Some(v as i64)
        } else {
            None
        }
    }
}

proof fn lemma_digits_nonneg(s: Seq<char>)
    requires
        all_digits(s),
    ensures
        0 <= digits_value(s),
    decreases s.len(),
{
    if s.len() > 0 {
        assert(all_digits(s.drop_last())) by {
            assert forall|i: int| 0 <= i < s.drop_last().len() implies is_digit(#[trigger] s.drop_last()[i]) by {
                assert(s.drop_last()[i] == s[i]);
            }
        }
        lemma_digits_nonneg(s.drop_last());
        assert(is_digit(s[s.len() - 1]));
    }
}

proof fn lemma_digits_grow(s: Seq<char>, i: int, j: int)
    requires
        0 <= i <= j <= s.len(),
        all_digits(s),
    ensures
        digits_value(s.take(i)) <= digits_value(s.take(j)),
    decreases j - i,
{
    if i < j {
        lemma_digits_grow(s, i, j - 1);
        assert(s.take(j).drop_last() =~= s.take(j - 1));
        assert(is_digit(s[j - 1]));
        assert(all_digits(s.take(j - 1))) by {
            assert forall|k: int| 0 <= k < s.take(j - 1).len() implies is_digit(#[trigger] s.take(j - 1)[k]) by {
                assert(s.take(j - 1)[k] == s[k]);
            }
        }
        lemma_digits_nonneg(s.take(j - 1));
    }
}

/// Parses `s` as `str::parse::<i64>` does.
pub fn parse_i64(s: &Vec<char>) -> (r: Option<i64>)
    ensures
        r == parsed_i64(s@),
{
    let signed = s.len() > 0 && (s[0] == '-' || s[0] == '+');
    let neg = signed && s[0] == '-';
    let start: usize = if signed {
        1
    } else {
        0
    };
    let ghost body = if signed {
        s@.drop_first()
    } else {
        s@
    };
    if start == s.len() {
        return None;
    }
    let mut acc: u128 = 0;
    let mut i: usize = start;
    while i < s.len()
        invariant
            start <= i <= s.len(),
            start == 0 || start == 1,
            signed == (s@.len() > 0 && (s@[0] == '-' || s@[0] == '+')),
            neg == (signed && s@[0] == '-'),
            start == (if signed {
                1usize
            } else {
                0usize
            }),
            body == (if signed {
                s@.drop_first()
            } else {
                s@
            }),
            body == s@.skip(start as int),
            all_digits(body.take(i - start)),
            acc == digits_value(body.take(i - start)),
            acc <= 9223372036854775808,
        decreases s.len() - i,
    {
        let c = s[i];
        let d = c as u32;
        proof {
            assert(body.take(i - start + 1).drop_last() =~= body.take(i - start));
            assert(body.take(i - start + 1).last() == c);
        }
        proof {
            assert(body[i - start] == s@[i as int]);
        }
        if d < 48 || d > 57 {
            proof {
                assert(!is_digit(body[i - start]));
                assert(!all_digits(body));
                assert(signed == (s@.len() > 0 && (s@[0] == '-' || s@[0] == '+')));
            }
            return None;
        }
        acc = acc * 10 + (d - 48) as u128;
        if acc > 9223372036854775808 {
            proof {
                assert(all_digits(body.take(i - start + 1)));
                if all_digits(body) {
                    lemma_digits_grow(body, i - start + 1, body.len() as int);
                    assert(body.take(body.len() as int) =~= body);
                    assert(digits_value(body) > 9223372036854775808);
                }
                assert(signed == (s@.len() > 0 && (s@[0] == '-' || s@[0] == '+')));
            }
            return None;
        }
        i += 1;
    }
    proof {
        assert(body.take(i - start) =~= body);
    }
    if neg {
        if acc == 9223372036854775808 {
            Some(i64::MIN)
        } else {
            Some(-(acc as i64))
        }
    } else {
        if acc > 9223372036854775807 {
            None
        } else {
            Some(acc as i64)
        }
    }
}

/// The decimal digits of `n`, most significant first, without leading zeros.
pub open spec fn decimal(n: nat) -> Seq<char>
    decreases n,
{
    if n < 10 {
        seq![((n + 48) as u32) as char]
    } else {
        decimal(n / 10).push((((n % 10) + 48) as u32) as char)
    }
}

/// The decimal digits of `n`.
pub fn decimal_of(n: u64) -> (r: Vec<char>)
    ensures
        r@ == decimal(n as nat),
    decreases n,
{
    if n < 10 {
        let mut r: Vec<char> = Vec::new();
        r.push(digit_char(n));
        r
    } else {
        let mut r = decimal_of(n / 10);
        r.push(digit_char(n % 10));
        r
    }
}

/// The character of the digit `d`.
fn digit_char(d: u64) -> (c: char)
    requires
        d < 10,
    ensures
        c == ((d + 48) as u32) as char,
{
    if d == 0 {
        '0'
    } else if d == 1 {
        '1'
    } else if d == 2 {
        '2'
    } else if d == 3 {
        '3'
    } else if d == 4 {
        '4'
    } else if d == 5 {
        '5'
    } else if d == 6 {
        '6'
    } else if d == 7 {
        '7'
    } else if d == 8 {
        '8'
    } else {
        '9'
    }
}

/// `a` followed by `b`.
pub fn concat(a: &[char], b: &[char]) -> (r: Vec<char>)
    ensures
        r@ == a@ + b@,
{
    let mut r: Vec<char> = Vec::new();
    let mut i: usize = 0;
    while i < a.len()
        invariant
            i <= a.len(),
            r@ == a@.take(i as int),
        decreases a.len() - i,
    {
        r.push(a[i]);
        proof {
            assert(r@ =~= a@.take(i + 1));
        }
        i += 1;
    }
    let mut j: usize = 0;
    assert(a@.take(a.len() as int) =~= a@);
    while j < b.len()
        invariant
            j <= b.len(),
            r@ == a@ + b@.take(j as int),
        decreases b.len() - j,
    {
        r.push(b[j]);
        proof {
            assert(r@ =~= a@ + b@.take(j + 1));
        }
        j += 1;
    }
    assert(b@.take(b.len() as int) =~= b@);
    r
}

/// `a` followed by `b`, as a string.
pub fn concat_text(a: &str, b: &str) -> (r: String)
    ensures
        r@ == a@ + b@,
{
    let x = chars_of(a);
    let y = chars_of(b);
    let z = concat(x.as_slice(), y.as_slice());
    string_of(z.as_slice())
}

/// `s` begins with `p`.
pub open spec fn begins_with(s: Seq<char>, p: Seq<char>) -> bool {
    p.len() <= s.len() && s.take(p.len() as int) == p
}

/// Whether `s` begins with `p`.
pub fn starts_with_chars(s: &[char], p: &[char]) -> (r: bool)
    ensures
        r == begins_with(s@, p@),
{
    if p.len() > s.len() {
        return false;
    }
    let mut i: usize = 0;
    while i < p.len()
        invariant
            p.len() <= s.len(),
            i <= p.len(),
            s@.take(i as int) == p@.take(i as int),
        decreases p.len() - i,
    {
        if s[i] != p[i] {
            proof {
                assert(s@.take(p.len() as int)[i as int] != p@[i as int]);
            }
            return false;
        }
        proof {
            assert(s@.take(i + 1) =~= s@.take(i as int).push(s@[i as int]));
            assert(p@.take(i + 1) =~= p@.take(i as int).push(p@[i as int]));
        }
        i += 1;
    }
    proof {
        assert(p@.take(p.len() as int) =~= p@);
    }
    true
}

/// `p` occurs somewhere in `s`.
pub open spec fn occurs_in(p: Seq<char>, s: Seq<char>) -> bool {
    exists|i: int| 0 <= i <= s.len() - p.len() && #[trigger] s.subrange(i, i + p.len()) == p
}

/// Whether `p` occurs somewhere in `s` (`str::contains`).
pub fn contains_chars(s: &[char], p: &[char]) -> (r: bool)
    ensures
        r == occurs_in(p@, s@),
{
    if p.len() > s.len() {
        return false;
    }
    let last = s.len() - p.len();
    let mut i: usize = 0;
    while i <= last
        invariant
            p.len() <= s.len(),
            last == s.len() - p.len(),
            i <= last + 1,
            forall|k: int| 0 <= k < i ==> #[trigger] s@.subrange(k, k + p.len()) != p@,
        ensures
            forall|k: int| 0 <= k <= last ==> #[trigger] s@.subrange(k, k + p.len()) != p@,
        decreases last + 1 - i,
    {
        let mut j: usize = 0;
        let mut same = true;
        assert(s@.subrange(i as int, i as int) =~= p@.take(0));
        while j < p.len()
            invariant
                i <= last,
                last == s.len() - p.len(),
                j <= p.len(),
                same == (s@.subrange(i as int, i + j) == p@.take(j as int)),
            decreases p.len() - j,
        {
            if same && s[i + j] != p[j] {
                same = false;
                proof {
                    assert(s@.subrange(i as int, i + j + 1)[j as int] != p@.take(j + 1)[j as int]);
                }
            } else if same {
                proof {
                    assert(s@.subrange(i as int, i + j + 1) =~= s@.subrange(i as int, i + j).push(s@[i + j]));
                    assert(p@.take(j + 1) =~= p@.take(j as int).push(p@[j as int]));
                }
            } else {
                proof {
                    if s@.subrange(i as int, i + j + 1) == p@.take(j + 1) {
                        assert(s@.subrange(i as int, i + j) =~= s@.subrange(i as int, i + j + 1).take(j as int));
                        assert(p@.take(j as int) =~= p@.take(j + 1).take(j as int));
                    }
                }
            }
            j += 1;
        }
        proof {
            assert(p@.take(p.len() as int) =~= p@);
        }
        if same {
            return true;
        }
        if i == last {
            break;
        }
        i += 1;
    }
    false
}

/// The decimal digits of `n`, as a string.
pub fn number_text(n: u64) -> (r: String)
    ensures
        r@ == decimal(n as nat),
{
    let d = decimal_of(n);
    string_of(d.as_slice())
}

} // verus!
