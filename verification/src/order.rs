//! The order of `String`: lexicographic over characters (UTF-8 byte order and
//! code-point order agree), and the sorted, deduplicated lists the reports
//! are built from.

use vstd::prelude::*;
use vstd::string::*;

verus! {

/// `a < b` as `String` orders them.
pub open spec fn lex_lt(a: Seq<char>, b: Seq<char>) -> bool
    decreases a.len(),
{
    if a.len() == 0 {
        b.len() > 0
    } else if b.len() == 0 {
        false
    } else if a[0] != b[0] {
        a[0] < b[0]
    } else {
        lex_lt(a.drop_first(), b.drop_first())
    }
}

pub proof fn lemma_lex_irreflexive(a: Seq<char>)
    ensures
        !lex_lt(a, a),
    decreases a.len(),
{
    if a.len() > 0 {
        lemma_lex_irreflexive(a.drop_first());
    }
}

pub proof fn lemma_lex_trans(a: Seq<char>, b: Seq<char>, c: Seq<char>)
    requires
        lex_lt(a, b),
        lex_lt(b, c),
    ensures
        lex_lt(a, c),
    decreases a.len(),
{
    if a.len() > 0 && b.len() > 0 && c.len() > 0 {
        if a[0] == b[0] && b[0] == c[0] {
            lemma_lex_trans(a.drop_first(), b.drop_first(), c.drop_first());
        }
    }
}

pub proof fn lemma_lex_total(a: Seq<char>, b: Seq<char>)
    ensures
        lex_lt(a, b) || lex_lt(b, a) || a == b,
    decreases a.len(),
{
    if a.len() > 0 && b.len() > 0 {
        if a[0] == b[0] {
            lemma_lex_total(a.drop_first(), b.drop_first());
            if a.drop_first() == b.drop_first() {
                assert(a =~= seq![a[0]] + a.drop_first());
                assert(b =~= seq![b[0]] + b.drop_first());
            }
        }
    } else if a.len() == 0 && b.len() == 0 {
        assert(a =~= b);
    }
}

pub proof fn lemma_lex_asym(a: Seq<char>, b: Seq<char>)
    requires
        lex_lt(a, b),
    ensures
        !lex_lt(b, a),
        a != b,
{
    if lex_lt(b, a) {
        lemma_lex_trans(a, b, a);
        lemma_lex_irreflexive(a);
    }
    if a == b {
        lemma_lex_irreflexive(a);
    }
}

/// The three-way comparison of two texts: -1, 0 or 1.
pub fn compare_chars(a: &[char], b: &[char]) -> (r: i8)
    ensures
        r == -1 <==> lex_lt(a@, b@),
        r == 0 <==> a@ == b@,
        r == 1 <==> lex_lt(b@, a@),
        -1 <= r <= 1,
{
    let mut i: usize = 0;
    assert(a@.skip(0) =~= a@);
    assert(b@.skip(0) =~= b@);
    while i < a.len() && i < b.len()
        invariant
            i <= a.len(),
            i <= b.len(),
            a@.take(i as int) == b@.take(i as int),
            lex_lt(a@, b@) == lex_lt(a@.skip(i as int), b@.skip(i as int)),
            lex_lt(b@, a@) == lex_lt(b@.skip(i as int), a@.skip(i as int)),
        decreases a.len() - i,
    {
        if a[i] != b[i] {
            proof {
                assert(a@.skip(i as int)[0] == a@[i as int]);
                assert(b@.skip(i as int)[0] == b@[i as int]);
                if a@ == b@ {
                    assert(a@[i as int] == b@[i as int]);
                }
            }
            if a[i] < b[i] {
                return -1;
            } else {
                return 1;
            }
        }
        proof {
            assert(a@.skip(i as int).drop_first() =~= a@.skip(i + 1));
            assert(b@.skip(i as int).drop_first() =~= b@.skip(i + 1));
            assert(a@.take(i + 1) =~= a@.take(i as int).push(a@[i as int]));
            assert(b@.take(i + 1) =~= b@.take(i as int).push(b@[i as int]));
        }
        i = i + 1;
    }
    proof {
        assert(a@.take(i as int) =~= b@.take(i as int));
        if i == a.len() && i == b.len() {
            assert(a@ =~= a@.take(i as int));
            assert(b@ =~= b@.take(i as int));
        }
        if a@ == b@ {
            assert(a.len() == b.len());
        }
    }
    if a.len() == b.len() {
        0
    } else if i == a.len() {
        -1
    } else {
        1
    }
}

pub fn compare_str(a: &str, b: &str) -> (r: i8)
    ensures
        r == -1 <==> lex_lt(a@, b@),
        r == 0 <==> a@ == b@,
        r == 1 <==> lex_lt(b@, a@),
        -1 <= r <= 1,
{
    let x = crate::text::to_chars(a);
    let y = crate::text::to_chars(b);
    compare_chars(&x, &y)
}

/// Strictly increasing: sorted, each text once.
pub open spec fn strictly_sorted(s: Seq<Seq<char>>) -> bool {
    forall|i: int, j: int| 0 <= i < j < s.len() ==> lex_lt(#[trigger] s[i], #[trigger] s[j])
}

pub open spec fn string_views(v: Seq<String>) -> Seq<Seq<char>> {
    v.map_values(|s: String| s@)
}

/// `r` is what `sort(); dedup()` makes of `items`: the same texts, each once,
/// in `String` order.
pub open spec fn sorted_set_of(r: Seq<Seq<char>>, items: Seq<Seq<char>>) -> bool {
    &&& strictly_sorted(r)
    &&& forall|x: Seq<char>| r.contains(x) <==> items.contains(x)
}

/// A sorted, deduplicated list is determined by its elements.
pub proof fn lemma_sorted_set_unique(a: Seq<Seq<char>>, b: Seq<Seq<char>>)
    requires
        strictly_sorted(a),
        strictly_sorted(b),
        forall|x: Seq<char>| a.contains(x) <==> b.contains(x),
    ensures
        a == b,
    decreases a.len() + b.len(),
{
    if a.len() == 0 {
        if b.len() > 0 {
            assert(b.contains(b[0]));
        }
        assert(a =~= b);
    } else if b.len() == 0 {
        assert(a.contains(a[0]));
    } else {
        // the first elements are both the least element
        assert(a.contains(a[0]));
        assert(b.contains(b[0]));
        let i = choose|i: int| 0 <= i < b.len() && b[i] == a[0];
        let j = choose|j: int| 0 <= j < a.len() && a[j] == b[0];
        if i > 0 {
            assert(lex_lt(b[0], b[i]));
            if j > 0 {
                assert(lex_lt(a[0], a[j]));
                lemma_lex_asym(b[0], a[0]);
            } else {
                lemma_lex_irreflexive(a[0]);
            }
        }
        assert(a[0] == b[0]);
        let a1 = a.drop_first();
        let b1 = b.drop_first();
        assert forall|x: Seq<char>| a1.contains(x) <==> b1.contains(x) by {
            if a1.contains(x) {
                let k = choose|k: int| 0 <= k < a1.len() && a1[k] == x;
                assert(a[k + 1] == x);
                assert(lex_lt(a[0], a[k + 1]));
                lemma_lex_asym(a[0], x);
                assert(b.contains(x));
                let m = choose|m: int| 0 <= m < b.len() && b[m] == x;
                assert(m != 0);
                assert(b1[m - 1] == x);
            }
            if b1.contains(x) {
                let k = choose|k: int| 0 <= k < b1.len() && b1[k] == x;
                assert(b[k + 1] == x);
                assert(lex_lt(b[0], b[k + 1]));
                lemma_lex_asym(b[0], x);
                assert(a.contains(x));
                let m = choose|m: int| 0 <= m < a.len() && a[m] == x;
                assert(m != 0);
                assert(a1[m - 1] == x);
            }
        }
        assert forall|p: int, q: int| 0 <= p < q < a1.len() implies lex_lt(#[trigger] a1[p], #[trigger] a1[q]) by {
            assert(a1[p] == a[p + 1] && a1[q] == a[q + 1]);
        }
        assert forall|p: int, q: int| 0 <= p < q < b1.len() implies lex_lt(#[trigger] b1[p], #[trigger] b1[q]) by {
            assert(b1[p] == b[p + 1] && b1[q] == b[q + 1]);
        }
        lemma_sorted_set_unique(a1, b1);
        assert(a =~= seq![a[0]] + a1);
        assert(b =~= seq![b[0]] + b1);
    }
}

/// Insert `x` into a strictly sorted list, unless it is already there.
pub fn insert_sorted(v: &mut Vec<String>, x: String)
    requires
        strictly_sorted(string_views(old(v)@)),
    ensures
        strictly_sorted(string_views(final(v)@)),
        forall|y: Seq<char>| string_views(final(v)@).contains(y) <==> (string_views(old(v)@).contains(y) || y == x@),
{
    let ghost s0 = string_views(v@);
    let mut i: usize = 0;
    while i < v.len()
        invariant
            i <= v@.len(),
            s0 == string_views(v@),
            strictly_sorted(s0),
            forall|j: int| 0 <= j < i ==> lex_lt(#[trigger] s0[j], x@),
        ensures
            i <= v@.len(),
            s0 == string_views(v@),
            forall|j: int| 0 <= j < i ==> lex_lt(#[trigger] s0[j], x@),
            i < v@.len() ==> lex_lt(x@, s0[i as int]),
        decreases v.len() - i,
    {
        let c = compare_str(v[i].as_str(), x.as_str());
        if c == 0 {
            assert(s0[i as int] == x@);
            return;
        }
        if c == 1 {
            assert(s0[i as int] == v@[i as int]@);
            break;
        }
        i = i + 1;
    }
    proof {
        if i < v@.len() {
            assert(s0[i as int] == v@[i as int]@);
        }
    }
    let ghost at = i;
    let ghost xs = x@;
    v.insert(i, x);
    proof {
        let s1 = string_views(v@);
        assert(s1 =~= s0.insert(at as int, xs));
        assert forall|p: int, q: int| 0 <= p < q < s1.len() implies lex_lt(#[trigger] s1[p], #[trigger] s1[q]) by {
            if q < at {
            } else if q == at {
            } else if p < at {
                // s1[p] = s0[p] < x < s0[at] <= s0[q-1]
                if at < s0.len() {
                    if q - 1 > at {
                        assert(lex_lt(s0[at as int], s0[q - 1]));
                        lemma_lex_trans(xs, s0[at as int], s0[q - 1]);
                    }
                    lemma_lex_trans(s0[p], xs, s0[q - 1]);
                }
            } else if p == at {
                if at < s0.len() {
                    if q - 1 > at {
                        assert(lex_lt(s0[at as int], s0[q - 1]));
                        lemma_lex_trans(xs, s0[at as int], s0[q - 1]);
                    }
                }
            } else {
                assert(s1[p] == s0[p - 1] && s1[q] == s0[q - 1]);
            }
        }
        assert forall|y: Seq<char>| s1.contains(y) <==> (s0.contains(y) || y == xs) by {
            if s1.contains(y) {
                let k = choose|k: int| 0 <= k < s1.len() && s1[k] == y;
                if k < at {
                    assert(s0[k] == y);
                } else if k > at {
                    assert(s0[k - 1] == y);
                }
            }
            if s0.contains(y) {
                let k = choose|k: int| 0 <= k < s0.len() && s0[k] == y;
                if k < at {
                    assert(s1[k] == y);
                } else {
                    assert(s1[k + 1] == y);
                }
            }
            if y == xs {
                assert(s1[at as int] == y);
            }
        }
    }
}

/// What `items.sort(); items.dedup()` leaves: the texts of `items`, each
/// once, in `String` order.
pub fn sorted_dedup(items: &Vec<String>) -> (r: Vec<String>)
    ensures
        sorted_set_of(string_views(r@), string_views(items@)),
{
    let mut r: Vec<String> = Vec::new();
    let mut i: usize = 0;
    while i < items.len()
        invariant
            i <= items@.len(),
            strictly_sorted(string_views(r@)),
            forall|y: Seq<char>| string_views(r@).contains(y) <==> string_views(items@).take(i as int).contains(y),
        decreases items.len() - i,
    {
        let ghost before = string_views(r@);
        let x = items[i].clone();
        assert(x@ == items@[i as int]@);
        insert_sorted(&mut r, x);
        proof {
            let t = string_views(items@).take(i + 1);
            assert(t =~= string_views(items@).take(i as int).push(items@[i as int]@));
            assert forall|y: Seq<char>| string_views(r@).contains(y) <==> t.contains(y) by {
                if t.contains(y) {
                    let k = choose|k: int| 0 <= k < t.len() && t[k] == y;
                    if k < i {
                        assert(string_views(items@).take(i as int)[k] == y);
                    }
                }
                if string_views(items@).take(i as int).contains(y) {
                    let k = choose|k: int| 0 <= k < i && string_views(items@).take(i as int)[k] == y;
                    assert(t[k] == y);
                }
                if y == items@[i as int]@ {
                    assert(t[i as int] == y);
                }
                if string_views(r@).contains(y) {
                    assert(before.contains(y) || y == items@[i as int]@);
                }
            }
        }
        i = i + 1;
    }
    assert(string_views(items@).take(items.len() as int) =~= string_views(items@));
    r
}

} // verus!

verus! {

// ---------------------------------------------------------------------------
// Stable sorting by a key
// ---------------------------------------------------------------------------

/// A sort key: two small ranks, then two texts, compared in that order.
#[derive(Debug, Clone)]
pub struct SortKey {
    pub first: u8,
    pub second: u8,
    pub third: String,
    pub fourth: String,
}

pub type KeyV = (u8, u8, Seq<char>, Seq<char>);

pub open spec fn key_view(k: SortKey) -> KeyV {
    (k.first, k.second, k.third@, k.fourth@)
}

pub open spec fn key_views(v: Seq<SortKey>) -> Seq<KeyV> {
    v.map_values(|k: SortKey| key_view(k))
}

/// `x` sorts strictly before `y`.
pub open spec fn key_lt(x: KeyV, y: KeyV) -> bool {
    ||| x.0 < y.0
    ||| x.0 == y.0 && x.1 < y.1
    ||| x.0 == y.0 && x.1 == y.1 && lex_lt(x.2, y.2)
    ||| x.0 == y.0 && x.1 == y.1 && x.2 == y.2 && lex_lt(x.3, y.3)
}

pub proof fn lemma_key_irreflexive(x: KeyV)
    ensures
        !key_lt(x, x),
{
    lemma_lex_irreflexive(x.2);
    lemma_lex_irreflexive(x.3);
}

pub proof fn lemma_key_trans(x: KeyV, y: KeyV, z: KeyV)
    requires
        key_lt(x, y),
        key_lt(y, z),
    ensures
        key_lt(x, z),
{
    lemma_lex_irreflexive(x.2);
    lemma_lex_irreflexive(y.2);
    if x.0 == y.0 && y.0 == z.0 && x.1 == y.1 && y.1 == z.1 {
        if lex_lt(x.2, y.2) && lex_lt(y.2, z.2) {
            lemma_lex_trans(x.2, y.2, z.2);
        } else if x.2 == y.2 && y.2 == z.2 {
            lemma_lex_trans(x.3, y.3, z.3);
        }
    }
}

pub proof fn lemma_key_total(x: KeyV, y: KeyV)
    ensures
        key_lt(x, y) || key_lt(y, x) || x == y,
{
    lemma_lex_total(x.2, y.2);
    lemma_lex_total(x.3, y.3);
}

pub fn key_less(x: &SortKey, y: &SortKey) -> (b: bool)
    ensures
        b == key_lt(key_view(*x), key_view(*y)),
{
    if x.first != y.first {
        return x.first < y.first;
    }
    if x.second != y.second {
        return x.second < y.second;
    }
    let c = compare_str(x.third.as_str(), y.third.as_str());
    if c != 0 {
        return c == -1;
    }
    compare_str(x.fourth.as_str(), y.fourth.as_str()) == -1
}

/// Where a stable insertion puts an element with key `k` into `s`: before the
/// first element whose key sorts after `k`.
pub open spec fn first_after(s: Seq<int>, keys: Seq<KeyV>, k: KeyV) -> int
    decreases s.len(),
{
    if s.len() == 0 {
        0
    } else if key_lt(k, keys[s[0]]) {
        0
    } else {
        1 + first_after(s.drop_first(), keys, k)
    }
}

/// The first `n` positions of `keys` in the order a stable sort puts them:
/// by key, and positions with equal keys in their own order.
pub open spec fn stable_order(keys: Seq<KeyV>, n: nat) -> Seq<int>
    decreases n,
{
    if n == 0 {
        seq![]
    } else {
        let s = stable_order(keys, (n - 1) as nat);
        s.insert(first_after(s, keys, keys[n - 1]), n - 1)
    }
}

pub open spec fn sorted_by_key(s: Seq<int>, keys: Seq<KeyV>) -> bool {
    forall|i: int, j: int| 0 <= i < j < s.len() ==> !key_lt(keys[#[trigger] s[j]], keys[#[trigger] s[i]])
}

/// Every position below `n` exactly once.
pub open spec fn permutation_of(s: Seq<int>, n: nat) -> bool {
    &&& s.len() == n
    &&& forall|i: int| 0 <= i < s.len() ==> 0 <= #[trigger] s[i] < n
    &&& forall|i: int, j: int| 0 <= i < j < s.len() ==> #[trigger] s[i] != #[trigger] s[j]
}

proof fn lemma_first_after(s: Seq<int>, keys: Seq<KeyV>, k: KeyV)
    requires
        forall|i: int| 0 <= i < s.len() ==> 0 <= #[trigger] s[i] < keys.len(),
    ensures
        0 <= first_after(s, keys, k) <= s.len(),
        forall|i: int| 0 <= i < first_after(s, keys, k) ==> !key_lt(k, keys[#[trigger] s[i]]),
        first_after(s, keys, k) < s.len() ==> key_lt(k, keys[s[first_after(s, keys, k)]]),
    decreases s.len(),
{
    if s.len() > 0 && !key_lt(k, keys[s[0]]) {
        let t = s.drop_first();
        assert forall|i: int| 0 <= i < t.len() implies 0 <= #[trigger] t[i] < keys.len() by {
            assert(t[i] == s[i + 1]);
        }
        lemma_first_after(t, keys, k);
        assert forall|i: int| 0 <= i < first_after(s, keys, k) implies !key_lt(k, keys[#[trigger] s[i]]) by {
            if i > 0 {
                assert(s[i] == t[i - 1]);
            }
        }
        if first_after(s, keys, k) < s.len() {
            assert(s[first_after(s, keys, k)] == t[first_after(t, keys, k)]);
        }
    }
}

/// A stable order is sorted by key and holds every position once.
pub proof fn lemma_stable_order(keys: Seq<KeyV>, n: nat)
    requires
        n <= keys.len(),
    ensures
        permutation_of(stable_order(keys, n), n),
        sorted_by_key(stable_order(keys, n), keys),
    decreases n,
{
    if n > 0 {
        let s = stable_order(keys, (n - 1) as nat);
        lemma_stable_order(keys, (n - 1) as nat);
        let k = keys[n - 1];
        let p = first_after(s, keys, k);
        lemma_first_after(s, keys, k);
        let r = s.insert(p, n - 1);
        assert(r == stable_order(keys, n));
        assert forall|i: int| 0 <= i < r.len() implies 0 <= #[trigger] r[i] < n by {
            if i < p {
                assert(r[i] == s[i]);
            } else if i > p {
                assert(r[i] == s[i - 1]);
            }
        }
        assert forall|i: int, j: int| 0 <= i < j < r.len() implies #[trigger] r[i] != #[trigger] r[j] by {
            if i < p && j < p {
                assert(r[i] == s[i] && r[j] == s[j]);
            } else if i < p && j == p {
                assert(r[i] == s[i]);
            } else if i < p && j > p {
                assert(r[i] == s[i] && r[j] == s[j - 1]);
            } else if i == p {
                assert(r[j] == s[j - 1]);
            } else {
                assert(r[i] == s[i - 1] && r[j] == s[j - 1]);
            }
        }
        assert forall|i: int, j: int| 0 <= i < j < r.len() implies !key_lt(keys[#[trigger] r[j]], keys[#[trigger] r[i]]) by {
            if i < p && j < p {
                assert(r[i] == s[i] && r[j] == s[j]);
            } else if i < p && j == p {
                assert(r[i] == s[i]);
                assert(!key_lt(k, keys[s[i]]));
            } else if i < p && j > p {
                assert(r[i] == s[i] && r[j] == s[j - 1]);
            } else if i == p {
                assert(r[j] == s[j - 1]);
                // k sorts before s[p], and s[p] no later than s[j-1]
                if key_lt(keys[s[j - 1]], k) {
                    assert(key_lt(k, keys[s[p]]));
                    if j - 1 > p {
                        assert(!key_lt(keys[s[j - 1]], keys[s[p]]));
                        lemma_key_total(keys[s[j - 1]], keys[s[p]]);
                        if key_lt(keys[s[p]], keys[s[j - 1]]) {
                            lemma_key_trans(k, keys[s[p]], keys[s[j - 1]]);
                        }
                    }
                    lemma_key_trans(k, keys[s[j - 1]], k);
                    lemma_key_irreflexive(k);
                }
            } else {
                assert(r[i] == s[i - 1] && r[j] == s[j - 1]);
            }
        }
    }
}

/// The positions of `keys` in stable sorted order.
pub fn stable_sort_positions(keys: &Vec<SortKey>) -> (r: Vec<usize>)
    ensures
        r@.map_values(|x: usize| x as int) == stable_order(key_views(keys@), keys@.len()),
{
    let ghost kv = key_views(keys@);
    let mut r: Vec<usize> = Vec::new();
    let mut n: usize = 0;
    while n < keys.len()
        invariant
            n <= keys@.len(),
            kv == key_views(keys@),
            r@.map_values(|x: usize| x as int) == stable_order(kv, n as nat),
        decreases keys.len() - n,
    {
        let ghost s = stable_order(kv, n as nat);
        proof {
            lemma_stable_order(kv, n as nat);
        }
        let mut p: usize = 0;
        assert(s.skip(0) =~= s);
        while p < r.len() && !key_less(&keys[n], &keys[r[p]])
            invariant
                n < keys@.len(),
                kv == key_views(keys@),
                s == r@.map_values(|x: usize| x as int),
                permutation_of(s, n as nat),
                p <= r@.len(),
                first_after(s, kv, kv[n as int]) == p + first_after(s.skip(p as int), kv, kv[n as int]),
            decreases r.len() - p,
        {
            proof {
                assert(s.skip(p as int)[0] == s[p as int]);
                assert(s.skip(p as int).drop_first() =~= s.skip(p + 1));
                assert(kv[r@[p as int] as int] == key_view(keys@[r@[p as int] as int]));
            }
            p = p + 1;
        }
        proof {
            if p < r.len() {
                assert(s.skip(p as int)[0] == s[p as int]);
                assert(kv[r@[p as int] as int] == key_view(keys@[r@[p as int] as int]));
            } else {
                assert(s.skip(p as int).len() == 0);
            }
            assert(first_after(s, kv, kv[n as int]) == p);
        }
        r.insert(p, n);
        assert(r@.map_values(|x: usize| x as int) =~= s.insert(p as int, n as int));
        n = n + 1;
    }
    r
}

// ---------------------------------------------------------------------------
// Entries of a keyed list, by key
// ---------------------------------------------------------------------------

/// The positions of `keys` in sorted order.
pub open spec fn key_order(keys: Seq<Seq<char>>) -> Seq<int> {
    stable_order(keys.map_values(|k: Seq<char>| (0u8, 0u8, k, Seq::<char>::empty())), keys.len())
}

pub open spec fn keys_of<T>(s: Seq<(Seq<char>, T)>) -> Seq<Seq<char>> {
    s.map_values(|p: (Seq<char>, T)| p.0)
}

/// The keys of a list of pairs.
pub open spec fn string_keys<T>(v: Seq<(String, T)>) -> Seq<Seq<char>> {
    v.map_values(|p: (String, T)| p.0@)
}

/// The positions of `v`'s entries, siblings by key.
pub fn key_positions<T>(v: &Vec<(String, T)>) -> (r: Vec<usize>)
    ensures
        r@.map_values(|x: usize| x as int) == key_order(string_keys(v@)),
        permutation_of(key_order(string_keys(v@)), v@.len() as nat),
{
    let mut ks: Vec<SortKey> = Vec::new();
    let mut i: usize = 0;
    while i < v.len()
        invariant
            i <= v@.len(),
            ks@.len() == i,
            forall|j: int| 0 <= j < i ==> #[trigger] key_view(ks@[j]) == (0u8, 0u8, v@[j].0@, Seq::<char>::empty()),
        decreases v.len() - i,
    {
        ks.push(SortKey { first: 0, second: 0, third: v[i].0.clone(), fourth: String::new() });
        i = i + 1;
    }
    let ghost keys = string_keys(v@);
    assert(key_views(ks@) =~= keys.map_values(|k: Seq<char>| (0u8, 0u8, k, Seq::<char>::empty())));
    proof {
        lemma_stable_order(key_views(ks@), ks@.len() as nat);
    }
    stable_sort_positions(&ks)
}

/// A permutation of `0..n` takes every value below `n`.
pub proof fn lemma_permutation_onto(s: Seq<int>, n: nat, j: int)
    requires
        permutation_of(s, n),
        0 <= j < n,
    ensures
        exists|x: int| 0 <= x < s.len() && s[x] == j,
{
    assert(s.no_duplicates()) by {
        assert forall|a: int, b: int| 0 <= a < s.len() && 0 <= b < s.len() && a != b implies s[a] != s[b] by {
            if a < b {
                assert(s[a] != s[b]);
            } else {
                assert(s[b] != s[a]);
            }
        }
    }
    s.unique_seq_to_set();
    vstd::set_lib::lemma_int_range(0, n as int);
    let range = vstd::set_lib::set_int_range(0, n as int);
    assert(s.to_set().subset_of(range)) by {
        assert forall|v: int| s.to_set().contains(v) implies range.contains(v) by {
            let x = choose|x: int| 0 <= x < s.len() && s[x] == v;
            assert(0 <= s[x] < n);
        }
    }
    vstd::seq_lib::seq_to_set_is_finite(s);
    vstd::set_lib::lemma_subset_equality(s.to_set(), range);
    assert(range.contains(j));
    assert(s.to_set().contains(j));
}

} // verus!
