//! YAML documents as the library reads them: the values a sweep writes and an
//! estate declares, with mappings that keep their insertion order.

use vstd::prelude::*;
use crate::text::str_eq;

verus! {

/// A YAML value. A number is held as YAML writes it; a mapping keeps its
/// entries in insertion order, each key once.
#[derive(Debug)]
pub enum Yaml {
    Null,
    Bool(bool),
    Number(String),
    Str(String),
    Sequence(Vec<Yaml>),
    Mapping(Vec<(Yaml, Yaml)>),
    Tagged(String, Box<Yaml>),
}

/// A YAML value as the contracts see it.
pub enum YamlV {
    Null,
    Bool(bool),
    Number(Seq<char>),
    Str(Seq<char>),
    Sequence(Seq<YamlV>),
    Mapping(Seq<(YamlV, YamlV)>),
    Tagged(Seq<char>, Box<YamlV>),
}

pub open spec fn yaml_view(y: Yaml) -> YamlV
    decreases y,
{
    match y {
        Yaml::Null => YamlV::Null,
        Yaml::Bool(b) => YamlV::Bool(b),
        Yaml::Number(n) => YamlV::Number(n@),
        Yaml::Str(s) => YamlV::Str(s@),
        Yaml::Sequence(v) => YamlV::Sequence(seq_view(v@)),
        Yaml::Mapping(m) => YamlV::Mapping(entries_view(m@)),
        Yaml::Tagged(t, b) => YamlV::Tagged(t@, Box::new(yaml_view(*b))),
    }
}

pub open spec fn seq_view(s: Seq<Yaml>) -> Seq<YamlV>
    decreases s,
{
    if s.len() == 0 {
        seq![]
    } else {
        seq_view(s.subrange(0, s.len() - 1)).push(yaml_view(s[s.len() - 1]))
    }
}

pub open spec fn entries_view(s: Seq<(Yaml, Yaml)>) -> Seq<(YamlV, YamlV)>
    decreases s,
{
    if s.len() == 0 {
        seq![]
    } else {
        entries_view(s.subrange(0, s.len() - 1)).push((yaml_view(s[s.len() - 1].0), yaml_view(s[s.len() - 1].1)))
    }
}

pub proof fn lemma_seq_view(s: Seq<Yaml>)
    ensures
        seq_view(s).len() == s.len(),
        forall|i: int| 0 <= i < s.len() ==> #[trigger] seq_view(s)[i] == yaml_view(s[i]),
    decreases s.len(),
{
    if s.len() > 0 {
        lemma_seq_view(s.subrange(0, s.len() - 1));
    }
}

pub proof fn lemma_entries_view(s: Seq<(Yaml, Yaml)>)
    ensures
        entries_view(s).len() == s.len(),
        forall|i: int| 0 <= i < s.len() ==> #[trigger] entries_view(s)[i] == (yaml_view(s[i].0), yaml_view(s[i].1)),
    decreases s.len(),
{
    if s.len() > 0 {
        lemma_entries_view(s.subrange(0, s.len() - 1));
    }
}

/// Structural equality, as the contracts compare values.
pub fn yaml_eq(a: &Yaml, b: &Yaml) -> (r: bool)
    ensures
        r == (yaml_view(*a) == yaml_view(*b)),
    decreases a,
{
    match (a, b) {
        (Yaml::Null, Yaml::Null) => true,
        (Yaml::Bool(x), Yaml::Bool(y)) => *x == *y,
        (Yaml::Number(x), Yaml::Number(y)) => str_eq(x.as_str(), y.as_str()),
        (Yaml::Str(x), Yaml::Str(y)) => str_eq(x.as_str(), y.as_str()),
        (Yaml::Sequence(x), Yaml::Sequence(y)) => {
            proof {
                lemma_seq_view(x@);
                lemma_seq_view(y@);
            }
            if x.len() != y.len() {
                return false;
            }
            let mut i: usize = 0;
            while i < x.len()
                invariant
                    i <= x@.len(),
                    *a == Yaml::Sequence(*x),
                    *b == Yaml::Sequence(*y),
                    x@.len() == y@.len(),
                    seq_view(x@).len() == x@.len(),
                    seq_view(y@).len() == y@.len(),
                    forall|j: int| 0 <= j < x@.len() ==> #[trigger] seq_view(x@)[j] == yaml_view(x@[j]),
                    forall|j: int| 0 <= j < y@.len() ==> #[trigger] seq_view(y@)[j] == yaml_view(y@[j]),
                    forall|j: int| 0 <= j < i ==> yaml_view(#[trigger] x@[j]) == yaml_view(y@[j]),
                decreases x.len() - i,
            {
                proof {
                    vstd::std_specs::vec::axiom_vec_index_decreases(*x, i as int);
                }
                if !yaml_eq(&x[i], &y[i]) {
                    assert(seq_view(x@)[i as int] != seq_view(y@)[i as int]);
                    return false;
                }
                i = i + 1;
            }
            assert(seq_view(x@) =~= seq_view(y@));
            true
        },
        (Yaml::Mapping(x), Yaml::Mapping(y)) => {
            proof {
                lemma_entries_view(x@);
                lemma_entries_view(y@);
            }
            if x.len() != y.len() {
                return false;
            }
            let mut i: usize = 0;
            while i < x.len()
                invariant
                    i <= x@.len(),
                    *a == Yaml::Mapping(*x),
                    *b == Yaml::Mapping(*y),
                    x@.len() == y@.len(),
                    entries_view(x@).len() == x@.len(),
                    entries_view(y@).len() == y@.len(),
                    forall|j: int| 0 <= j < x@.len() ==> #[trigger] entries_view(x@)[j] == (yaml_view(x@[j].0), yaml_view(x@[j].1)),
                    forall|j: int| 0 <= j < y@.len() ==> #[trigger] entries_view(y@)[j] == (yaml_view(y@[j].0), yaml_view(y@[j].1)),
                    forall|j: int| 0 <= j < i ==> #[trigger] entries_view(x@)[j] == entries_view(y@)[j],
                decreases x.len() - i,
            {
                proof {
                    vstd::std_specs::vec::axiom_vec_index_decreases(*x, i as int);
                }
                if !yaml_eq(&x[i].0, &y[i].0) || !yaml_eq(&x[i].1, &y[i].1) {
                    assert(entries_view(x@)[i as int] != entries_view(y@)[i as int]);
                    return false;
                }
                i = i + 1;
            }
            assert(entries_view(x@) =~= entries_view(y@));
            true
        },
        (Yaml::Tagged(t, x), Yaml::Tagged(u, y)) => str_eq(t.as_str(), u.as_str()) && yaml_eq(x, y),
        _ => false,
    }
}

/// A copy of a value.
pub fn clone_yaml(y: &Yaml) -> (c: Yaml)
    ensures
        yaml_view(c) == yaml_view(*y),
    decreases y,
{
    match y {
        Yaml::Null => Yaml::Null,
        Yaml::Bool(b) => Yaml::Bool(*b),
        Yaml::Number(n) => Yaml::Number(n.clone()),
        Yaml::Str(s) => Yaml::Str(s.clone()),
        Yaml::Sequence(v) => {
            let mut out: Vec<Yaml> = Vec::new();
            let mut i: usize = 0;
            while i < v.len()
                invariant
                    i <= v@.len(),
                    *y == Yaml::Sequence(*v),
                    seq_view(out@) == seq_view(v@.subrange(0, i as int)),
                decreases v.len() - i,
            {
                proof {
                    vstd::std_specs::vec::axiom_vec_index_decreases(*v, i as int);
                    assert(decreases_to!(*y => (*y)->Sequence_0));
                }
                let c = clone_yaml(&v[i]);
                let ghost before = out@;
                out.push(c);
                assert(out@.subrange(0, out@.len() - 1) =~= before);
                assert(v@.subrange(0, i + 1).subrange(0, i as int) =~= v@.subrange(0, i as int));
                i = i + 1;
            }
            assert(v@.subrange(0, v@.len() as int) =~= v@);
            Yaml::Sequence(out)
        },
        Yaml::Mapping(m) => {
            let mut out: Vec<(Yaml, Yaml)> = Vec::new();
            let mut i: usize = 0;
            while i < m.len()
                invariant
                    i <= m@.len(),
                    *y == Yaml::Mapping(*m),
                    entries_view(out@) == entries_view(m@.subrange(0, i as int)),
                decreases m.len() - i,
            {
                proof {
                    vstd::std_specs::vec::axiom_vec_index_decreases(*m, i as int);
                }
                proof {
                    assert(decreases_to!(*y => (*y)->Mapping_0));
                }
                let k = clone_yaml(&m[i].0);
                let v = clone_yaml(&m[i].1);
                let ghost before = out@;
                out.push((k, v));
                assert(out@.subrange(0, out@.len() - 1) =~= before);
                assert(m@.subrange(0, i + 1).subrange(0, i as int) =~= m@.subrange(0, i as int));
                i = i + 1;
            }
            assert(m@.subrange(0, m@.len() as int) =~= m@);
            Yaml::Mapping(out)
        },
        Yaml::Tagged(t, b) => Yaml::Tagged(t.clone(), Box::new(clone_yaml(b))),
    }
}

pub fn clone_seq(v: &Vec<Yaml>) -> (r: Vec<Yaml>)
    ensures
        seq_view(r@) == seq_view(v@),
{
    proof {
        lemma_seq_view(v@);
    }
    let mut r: Vec<Yaml> = Vec::new();
    let mut i: usize = 0;
    while i < v.len()
        invariant
            i <= v@.len(),
            seq_view(v@).len() == v@.len(),
            forall|j: int| 0 <= j < v@.len() ==> #[trigger] seq_view(v@)[j] == yaml_view(v@[j]),
            seq_view(r@) == seq_view(v@).take(i as int),
        decreases v.len() - i,
    {
        let c = clone_yaml(&v[i]);
        let ghost before = r@;
        r.push(c);
        proof {
            assert(r@.subrange(0, r@.len() - 1) =~= before);
            assert(seq_view(v@).take(i + 1) =~= seq_view(v@).take(i as int).push(seq_view(v@)[i as int]));
        }
        i = i + 1;
    }
    assert(seq_view(v@).take(v.len() as int) =~= seq_view(v@));
    r
}

pub fn clone_entries(m: &Vec<(Yaml, Yaml)>) -> (r: Vec<(Yaml, Yaml)>)
    ensures
        entries_view(r@) == entries_view(m@),
{
    proof {
        lemma_entries_view(m@);
    }
    let mut r: Vec<(Yaml, Yaml)> = Vec::new();
    let mut i: usize = 0;
    while i < m.len()
        invariant
            i <= m@.len(),
            entries_view(m@).len() == m@.len(),
            forall|j: int| 0 <= j < m@.len() ==> #[trigger] entries_view(m@)[j] == (yaml_view(m@[j].0), yaml_view(m@[j].1)),
            entries_view(r@) == entries_view(m@).take(i as int),
        decreases m.len() - i,
    {
        let k = clone_yaml(&m[i].0);
        let v = clone_yaml(&m[i].1);
        let ghost before = r@;
        r.push((k, v));
        proof {
            assert(r@.subrange(0, r@.len() - 1) =~= before);
            assert(entries_view(m@).take(i + 1) =~= entries_view(m@).take(i as int).push(entries_view(m@)[i as int]));
        }
        i = i + 1;
    }
    assert(entries_view(m@).take(m.len() as int) =~= entries_view(m@));
    r
}

// ---------------------------------------------------------------------------
// Mappings
// ---------------------------------------------------------------------------

/// The position of key `k`: its first entry.
pub open spec fn find_key(m: Seq<(YamlV, YamlV)>, k: YamlV) -> Option<int>
    decreases m.len(),
{
    if m.len() == 0 {
        None
    } else {
        match find_key(m.drop_last(), k) {
            Some(i) => Some(i),
            None => if m.last().0 == k { Some(m.len() - 1) } else { None },
        }
    }
}

pub proof fn lemma_find_key(m: Seq<(YamlV, YamlV)>, k: YamlV)
    ensures
        match find_key(m, k) {
            Some(i) => 0 <= i < m.len() && m[i].0 == k && forall|j: int| 0 <= j < i ==> (#[trigger] m[j]).0 != k,
            None => forall|j: int| 0 <= j < m.len() ==> (#[trigger] m[j]).0 != k,
        },
    decreases m.len(),
{
    if m.len() > 0 {
        lemma_find_key(m.drop_last(), k);
        assert forall|j: int| 0 <= j < m.len() - 1 implies #[trigger] m[j] == m.drop_last()[j] by {}
    }
}

pub proof fn lemma_find_key_is(m: Seq<(YamlV, YamlV)>, k: YamlV, i: int)
    requires
        0 <= i < m.len(),
        m[i].0 == k,
        forall|j: int| 0 <= j < i ==> (#[trigger] m[j]).0 != k,
    ensures
        find_key(m, k) == Some(i),
{
    lemma_find_key(m, k);
    match find_key(m, k) {
        Some(x) => {
            if x < i {
            } else if x > i {
                assert(m[i].0 != k);
            }
        },
        None => {
            assert(m[i].0 != k);
        },
    }
}

/// The value under key `k`.
pub open spec fn get(m: Seq<(YamlV, YamlV)>, k: YamlV) -> Option<YamlV> {
    match find_key(m, k) {
        Some(i) => Some(m[i].1),
        None => None,
    }
}

/// The mapping with key `k` removed, its entry's place taken by the last entry.
pub open spec fn swap_remove_key(m: Seq<(YamlV, YamlV)>, k: YamlV) -> Seq<(YamlV, YamlV)> {
    match find_key(m, k) {
        Some(i) => m.update(i, m.last()).drop_last(),
        None => m,
    }
}

/// The mapping with the value under key `k` replaced, where it is.
pub open spec fn set_key(m: Seq<(YamlV, YamlV)>, k: YamlV, v: YamlV) -> Seq<(YamlV, YamlV)> {
    match find_key(m, k) {
        Some(i) => m.update(i, (m[i].0, v)),
        None => m,
    }
}

/// Insertion: a present key keeps its place and takes the new value; a new
/// key goes last.
pub open spec fn insert_key(m: Seq<(YamlV, YamlV)>, k: YamlV, v: YamlV) -> Seq<(YamlV, YamlV)> {
    match find_key(m, k) {
        Some(i) => m.update(i, (m[i].0, v)),
        None => m.push((k, v)),
    }
}

/// Each key once.
pub open spec fn unique_keys(m: Seq<(YamlV, YamlV)>) -> bool {
    forall|i: int, j: int| 0 <= i < j < m.len() ==> (#[trigger] m[i]).0 != (#[trigger] m[j]).0
}

/// A string value's text.
pub open spec fn str_of(v: YamlV) -> Option<Seq<char>> {
    match v {
        YamlV::Str(s) => Some(s),
        _ => None,
    }
}

pub open spec fn skey(s: Seq<char>) -> YamlV {
    YamlV::Str(s)
}

/// Every mapping in the value holds each key once.
pub open spec fn wf(v: YamlV) -> bool
    decreases v,
{
    match v {
        YamlV::Sequence(s) => forall|i: int| 0 <= i < s.len() ==> wf(#[trigger] s[i]),
        YamlV::Mapping(m) => wf_entries(m),
        YamlV::Tagged(_, b) => wf(*b),
        _ => true,
    }
}

pub open spec fn wf_entries(m: Seq<(YamlV, YamlV)>) -> bool
    decreases m,
{
    &&& unique_keys(m)
    &&& forall|i: int| 0 <= i < m.len() ==> wf((#[trigger] m[i]).1)
}

/// The position of the key that is the string `k`.
pub fn find_str(m: &Vec<(Yaml, Yaml)>, k: &str) -> (r: Option<usize>)
    ensures
        match r {
            Some(i) => find_key(entries_view(m@), skey(k@)) == Some(i as int),
            None => find_key(entries_view(m@), skey(k@)) is None,
        },
{
    let ghost mv = entries_view(m@);
    proof {
        lemma_entries_view(m@);
        lemma_find_key(mv, skey(k@));
    }
    let mut i: usize = 0;
    while i < m.len()
        invariant
            i <= m@.len(),
            mv == entries_view(m@),
            mv.len() == m@.len(),
            forall|j: int| 0 <= j < m@.len() ==> #[trigger] mv[j] == (yaml_view(m@[j].0), yaml_view(m@[j].1)),
            forall|j: int| 0 <= j < i ==> (#[trigger] mv[j]).0 != skey(k@),
        decreases m.len() - i,
    {
        let hit = match &m[i].0 {
            Yaml::Str(s) => str_eq(s.as_str(), k),
            _ => false,
        };
        if hit {
            proof {
                lemma_find_key_is(mv, skey(k@), i as int);
            }
            return Some(i);
        }
        assert(mv[i as int].0 != skey(k@));
        i = i + 1;
    }
    None
}

/// The position of key `k`.
pub fn find_yaml(m: &Vec<(Yaml, Yaml)>, k: &Yaml) -> (r: Option<usize>)
    ensures
        match r {
            Some(i) => find_key(entries_view(m@), yaml_view(*k)) == Some(i as int),
            None => find_key(entries_view(m@), yaml_view(*k)) is None,
        },
{
    let ghost mv = entries_view(m@);
    proof {
        lemma_entries_view(m@);
        lemma_find_key(mv, yaml_view(*k));
    }
    let mut i: usize = 0;
    while i < m.len()
        invariant
            i <= m@.len(),
            mv == entries_view(m@),
            mv.len() == m@.len(),
            forall|j: int| 0 <= j < m@.len() ==> #[trigger] mv[j] == (yaml_view(m@[j].0), yaml_view(m@[j].1)),
            forall|j: int| 0 <= j < i ==> (#[trigger] mv[j]).0 != yaml_view(*k),
        decreases m.len() - i,
    {
        if yaml_eq(&m[i].0, k) {
            proof {
                lemma_find_key_is(mv, yaml_view(*k), i as int);
            }
            return Some(i);
        }
        assert(mv[i as int].0 != yaml_view(*k));
        i = i + 1;
    }
    None
}

/// The value under the string key `k`.
pub fn get_str<'a>(m: &'a Vec<(Yaml, Yaml)>, k: &str) -> (r: Option<&'a Yaml>)
    ensures
        match r {
            Some(v) => get(entries_view(m@), skey(k@)) == Some(yaml_view(*v)),
            None => get(entries_view(m@), skey(k@)) is None,
        },
{
    proof {
        lemma_entries_view(m@);
        lemma_find_key(entries_view(m@), skey(k@));
    }
    match find_str(m, k) {
        Some(i) => Some(&m[i].1),
        None => None,
    }
}

/// A string value's text.
pub fn as_str(y: &Yaml) -> (r: Option<&String>)
    ensures
        match r {
            Some(s) => str_of(yaml_view(*y)) == Some(s@),
            None => str_of(yaml_view(*y)) is None,
        },
{
    match y {
        Yaml::Str(s) => Some(s),
        _ => None,
    }
}

/// The value under any tags it carries.
pub open spec fn untagged(v: YamlV) -> YamlV
    decreases v,
{
    match v {
        YamlV::Tagged(_, b) => untagged(*b),
        _ => v,
    }
}

/// The value under any tags it carries.
pub fn untag(y: &Yaml) -> (r: &Yaml)
    ensures
        yaml_view(*r) == untagged(yaml_view(*y)),
        !(yaml_view(*r) is Tagged),
    decreases y,
{
    match y {
        Yaml::Tagged(_, b) => untag(b),
        _ => y,
    }
}

/// Remove the entry at `i`; the last entry takes its place.
pub fn swap_remove_at(m: &mut Vec<(Yaml, Yaml)>, i: usize)
    requires
        i < old(m)@.len(),
    ensures
        entries_view(final(m)@) == entries_view(old(m)@).update(i as int, entries_view(old(m)@).last()).drop_last(),
{
    proof {
        lemma_entries_view(old(m)@);
    }
    let _ = m.swap_remove(i);
    proof {
        lemma_entries_view(m@);
    }
    assert(entries_view(m@) =~= entries_view(old(m)@).update(i as int, entries_view(old(m)@).last()).drop_last());
}

/// Replace the value at `i`.
pub fn set_at(m: &mut Vec<(Yaml, Yaml)>, i: usize, v: Yaml)
    requires
        i < old(m)@.len(),
    ensures
        entries_view(final(m)@) == entries_view(old(m)@).update(i as int, (entries_view(old(m)@)[i as int].0, yaml_view(v))),
        final(m)@.len() == old(m)@.len(),
        forall|j: int| 0 <= j < old(m)@.len() && j != i ==> #[trigger] final(m)@[j] == old(m)@[j],
{
    proof {
        lemma_entries_view(old(m)@);
    }
    let k = clone_yaml(&m[i].0);
    m.set(i, (k, v));
    proof {
        lemma_entries_view(m@);
    }
    assert(entries_view(m@) =~= entries_view(old(m)@).update(i as int, (entries_view(old(m)@)[i as int].0, yaml_view(v))));
}

/// Insert, as a mapping does: a present key keeps its place.
pub fn insert_at_key(m: &mut Vec<(Yaml, Yaml)>, k: Yaml, v: Yaml)
    ensures
        entries_view(final(m)@) == insert_key(entries_view(old(m)@), yaml_view(k), yaml_view(v)),
{
    proof {
        lemma_entries_view(m@);
        lemma_find_key(entries_view(m@), yaml_view(k));
    }
    match find_yaml(m, &k) {
        Some(i) => {
            set_at(m, i, v);
        },
        None => {
            let ghost before = m@;
            m.push((k, v));
            proof {
                assert(m@.drop_last() =~= before);
                assert(m@.subrange(0, m@.len() - 1) =~= before);
            }
        },
    }
}

// ---------------------------------------------------------------------------
// Sizes
// ---------------------------------------------------------------------------

/// How many values a value holds, itself included.
pub open spec fn size(v: YamlV) -> nat
    decreases v,
{
    match v {
        YamlV::Sequence(s) => 1 + size_seq(s),
        YamlV::Mapping(m) => 1 + size_entries(m),
        YamlV::Tagged(_, b) => 1 + size(*b),
        _ => 1,
    }
}

pub open spec fn size_seq(s: Seq<YamlV>) -> nat
    decreases s,
{
    if s.len() == 0 {
        0
    } else {
        size_seq(s.subrange(0, s.len() - 1)) + size(s[s.len() - 1])
    }
}

pub open spec fn size_entries(m: Seq<(YamlV, YamlV)>) -> nat
    decreases m,
{
    if m.len() == 0 {
        0
    } else {
        size_entries(m.subrange(0, m.len() - 1)) + size(m[m.len() - 1].0) + size(m[m.len() - 1].1)
    }
}

pub proof fn lemma_size_positive(v: YamlV)
    ensures
        size(v) >= 1,
{
}

/// A prefix of a list is no larger than the list, and a list holds at least
/// one value per element.
pub proof fn lemma_size_seq_prefix(s: Seq<YamlV>, n: int)
    requires
        0 <= n <= s.len(),
    ensures
        size_seq(s.subrange(0, n)) <= size_seq(s),
        size_seq(s.subrange(0, n)) >= n,
    decreases s.len(),
{
    if n < s.len() {
        lemma_size_seq_prefix(s.subrange(0, s.len() - 1), n);
        assert(s.subrange(0, s.len() - 1).subrange(0, n) =~= s.subrange(0, n));
    } else {
        assert(s.subrange(0, n) =~= s);
        if n > 0 {
            lemma_size_seq_prefix(s.subrange(0, s.len() - 1), n - 1);
            assert(s.subrange(0, s.len() - 1).subrange(0, n - 1) =~= s.subrange(0, s.len() - 1));
            lemma_size_positive(s[s.len() - 1]);
        }
    }
}

pub proof fn lemma_size_entries_prefix(m: Seq<(YamlV, YamlV)>, n: int)
    requires
        0 <= n <= m.len(),
    ensures
        size_entries(m.subrange(0, n)) <= size_entries(m),
        size_entries(m.subrange(0, n)) >= 2 * n,
    decreases m.len(),
{
    if n < m.len() {
        lemma_size_entries_prefix(m.subrange(0, m.len() - 1), n);
        assert(m.subrange(0, m.len() - 1).subrange(0, n) =~= m.subrange(0, n));
    } else {
        assert(m.subrange(0, n) =~= m);
        if n > 0 {
            lemma_size_entries_prefix(m.subrange(0, m.len() - 1), n - 1);
            assert(m.subrange(0, m.len() - 1).subrange(0, n - 1) =~= m.subrange(0, m.len() - 1));
            lemma_size_positive(m[m.len() - 1].0);
            lemma_size_positive(m[m.len() - 1].1);
        }
    }
}

/// One step of a prefix: the next element's size is added.
pub proof fn lemma_size_entries_step(m: Seq<(YamlV, YamlV)>, i: int)
    requires
        0 <= i < m.len(),
    ensures
        size_entries(m.subrange(0, i + 1)) == size_entries(m.subrange(0, i)) + size(m[i].0) + size(m[i].1),
{
    assert(m.subrange(0, i + 1).subrange(0, i) =~= m.subrange(0, i));
}

pub proof fn lemma_size_seq_step(s: Seq<YamlV>, i: int)
    requires
        0 <= i < s.len(),
    ensures
        size_seq(s.subrange(0, i + 1)) == size_seq(s.subrange(0, i)) + size(s[i]),
{
    assert(s.subrange(0, i + 1).subrange(0, i) =~= s.subrange(0, i));
}

} // verus!
