//! Text as sequences of characters: the few string operations the rest of the
//! library is written in, each with the meaning it has in std stated over
//! `Seq<char>`.

use vstd::prelude::*;
use vstd::string::*;

verus! {

// ---------------------------------------------------------------------------
// Characters
// ---------------------------------------------------------------------------

pub open spec fn is_ascii_digit(c: char) -> bool {
    '0' <= c && c <= '9'
}

pub open spec fn is_ascii_lower(c: char) -> bool {
    'a' <= c && c <= 'z'
}

pub open spec fn is_ascii_upper(c: char) -> bool {
    'A' <= c && c <= 'Z'
}

pub open spec fn is_ascii_alnum(c: char) -> bool {
    is_ascii_digit(c) || is_ascii_lower(c) || is_ascii_upper(c)
}

/// `char::is_whitespace`: the Unicode `White_Space` property.
pub open spec fn is_ws(c: char) -> bool {
    ||| ('\u{9}' <= c && c <= '\u{d}')
    ||| c == ' '
    ||| c == '\u{85}'
    ||| c == '\u{a0}'
    ||| c == '\u{1680}'
    ||| ('\u{2000}' <= c && c <= '\u{200a}')
    ||| c == '\u{2028}'
    ||| c == '\u{2029}'
    ||| c == '\u{202f}'
    ||| c == '\u{205f}'
    ||| c == '\u{3000}'
}

/// `char::to_ascii_lowercase`.
pub open spec fn ascii_lower(c: char) -> char {
    if is_ascii_upper(c) {
        ((c as u32) + 32) as char
    } else {
        c
    }
}

pub fn is_whitespace(c: char) -> (b: bool)
    ensures
        b == is_ws(c),
{
    ('\u{9}' <= c && c <= '\u{d}') || c == ' ' || c == '\u{85}' || c == '\u{a0}' || c == '\u{1680}'
        || ('\u{2000}' <= c && c <= '\u{200a}') || c == '\u{2028}' || c == '\u{2029}'
        || c == '\u{202f}' || c == '\u{205f}' || c == '\u{3000}'
}

pub fn to_ascii_lower(c: char) -> (d: char)
    ensures
        d == ascii_lower(c),
{
    if 'A' <= c && c <= 'Z' {
        let n: u32 = c as u32;
        proof {
            assert(65 <= n <= 90);
        }
        let m: u32 = n + 32;
        let d: char = char_from_ascii(m);
        d
    } else {
        c
    }
}

/// The character with an ASCII code point.
fn char_from_ascii(n: u32) -> (c: char)
    requires
        n < 128,
    ensures
        c == n as char,
        c as u32 == n,
{
    let b: u8 = n as u8;
    let c: char = b as char;
    proof {
        assert(c as u32 == n);
    }
    c
}

// ---------------------------------------------------------------------------
// Strings and character vectors
// ---------------------------------------------------------------------------

/// `String::push`.
#[verifier::external_body]
pub(crate) fn push_char(s: &mut String, c: char)
    ensures
        final(s)@ == old(s)@.push(c),
{
    s.push(c);
}

pub fn to_chars(s: &str) -> (v: Vec<char>)
    ensures
        v@ == s@,
{
    let mut v: Vec<char> = Vec::new();
    for c in it: s.chars()
        invariant
            v@ == it.seq().take(it.index() as int),
            it.seq() == s@,
    {
        v.push(c);
    }
    v
}

pub fn from_chars(v: &[char]) -> (s: String)
    ensures
        s@ == v@,
{
    let mut s = String::new();
    let mut i: usize = 0;
    while i < v.len()
        invariant
            i <= v.len(),
            s@ == v@.take(i as int),
        decreases v.len() - i,
    {
        push_char(&mut s, v[i]);
        assert(v@.take(i + 1) == v@.take(i as int).push(v@[i as int]));
        i = i + 1;
    }
    assert(v@.take(v.len() as int) == v@);
    s
}

/// `s` followed by `t`, as a new string.
pub fn concat(s: &str, t: &str) -> (r: String)
    ensures
        r@ == s@ + t@,
{
    let mut r = String::from_str(s);
    r.append(t);
    r
}

pub fn push_chars(v: &mut Vec<char>, t: &[char])
    ensures
        final(v)@ == old(v)@ + t@,
{
    let ghost v0 = v@;
    let mut i: usize = 0;
    while i < t.len()
        invariant
            i <= t.len(),
            v@ == v0 + t@.take(i as int),
        decreases t.len() - i,
    {
        v.push(t[i]);
        assert(t@.take(i + 1) == t@.take(i as int).push(t@[i as int]));
        i = i + 1;
    }
    assert(t@.take(t.len() as int) == t@);
}

pub fn push_str_chars(v: &mut Vec<char>, t: &str)
    ensures
        final(v)@ == old(v)@ + t@,
{
    let tc = to_chars(t);
    push_chars(v, &tc);
}

/// The characters of `s` from `from` up to `to`.
pub fn slice_chars(s: &[char], from: usize, to: usize) -> (r: Vec<char>)
    requires
        from <= to <= s@.len(),
    ensures
        r@ == s@.subrange(from as int, to as int),
{
    let mut r: Vec<char> = Vec::new();
    let mut i: usize = from;
    while i < to
        invariant
            from <= i <= to <= s@.len(),
            r@ == s@.subrange(from as int, i as int),
        decreases to - i,
    {
        r.push(s[i]);
        assert(s@.subrange(from as int, i + 1) == s@.subrange(from as int, i as int).push(s@[i as int]));
        i = i + 1;
    }
    r
}

pub fn chars_eq(a: &[char], b: &[char]) -> (r: bool)
    ensures
        r == (a@ == b@),
{
    if a.len() != b.len() {
        return false;
    }
    let mut i: usize = 0;
    while i < a.len()
        invariant
            i <= a.len() == b.len(),
            forall|j: int| 0 <= j < i ==> a@[j] == b@[j],
        decreases a.len() - i,
    {
        if a[i] != b[i] {
            return false;
        }
        i = i + 1;
    }
    assert(a@ =~= b@);
    true
}

pub fn str_eq(a: &str, b: &str) -> (r: bool)
    ensures
        r == (a@ == b@),
{
    let x = to_chars(a);
    let y = to_chars(b);
    chars_eq(&x, &y)
}

// ---------------------------------------------------------------------------
// Trimming
// ---------------------------------------------------------------------------

/// `str::trim_start`.
pub open spec fn trim_start(s: Seq<char>) -> Seq<char>
    decreases s.len(),
{
    if s.len() > 0 && is_ws(s[0]) {
        trim_start(s.drop_first())
    } else {
        s
    }
}

/// `str::trim_end`.
pub open spec fn trim_end(s: Seq<char>) -> Seq<char>
    decreases s.len(),
{
    if s.len() > 0 && is_ws(s.last()) {
        trim_end(s.drop_last())
    } else {
        s
    }
}

/// `str::trim`.
pub open spec fn trim(s: Seq<char>) -> Seq<char> {
    trim_end(trim_start(s))
}

proof fn lemma_trim_start_len(s: Seq<char>)
    ensures
        trim_start(s).len() <= s.len(),
    decreases s.len(),
{
    if s.len() > 0 && is_ws(s[0]) {
        lemma_trim_start_len(s.drop_first());
    }
}

proof fn lemma_trim_end_len(s: Seq<char>)
    ensures
        trim_end(s).len() <= s.len(),
    decreases s.len(),
{
    if s.len() > 0 && is_ws(s.last()) {
        lemma_trim_end_len(s.drop_last());
    }
}

/// Trimming never lengthens.
pub proof fn lemma_trim_len(s: Seq<char>)
    ensures
        trim(s).len() <= s.len(),
{
    lemma_trim_start_len(s);
    lemma_trim_end_len(trim_start(s));
}

proof fn lemma_trim_start_skip(s: Seq<char>, i: int)
    requires
        0 <= i <= s.len(),
        forall|j: int| 0 <= j < i ==> is_ws(s[j]),
    ensures
        trim_start(s) == trim_start(s.subrange(i, s.len() as int)),
    decreases i,
{
    if i > 0 {
        assert(s.drop_first().subrange(i - 1, s.drop_first().len() as int) =~= s.subrange(i, s.len() as int));
        lemma_trim_start_skip(s.drop_first(), i - 1);
    } else {
        assert(s.subrange(0, s.len() as int) =~= s);
    }
}

proof fn lemma_trim_end_take(s: Seq<char>, k: int)
    requires
        0 <= k <= s.len(),
        forall|j: int| k <= j < s.len() ==> is_ws(s[j]),
    ensures
        trim_end(s) == trim_end(s.take(k)),
    decreases s.len() - k,
{
    if k < s.len() {
        assert(s.drop_last().take(k) =~= s.take(k));
        lemma_trim_end_take(s.drop_last(), k);
    } else {
        assert(s.take(k) =~= s);
    }
}

/// Where the trimmed part of `s` starts and ends.
pub fn trim_bounds(s: &[char]) -> (r: (usize, usize))
    ensures
        r.0 <= r.1 <= s@.len(),
        s@.subrange(r.0 as int, r.1 as int) == trim(s@),
        trim_start(s@) == s@.subrange(r.0 as int, s@.len() as int),
{
    let mut i: usize = 0;
    while i < s.len() && is_whitespace(s[i])
        invariant
            i <= s.len(),
            forall|j: int| 0 <= j < i ==> is_ws(s@[j]),
        decreases s.len() - i,
    {
        i = i + 1;
    }
    proof {
        lemma_trim_start_skip(s@, i as int);
        let t = s@.subrange(i as int, s@.len() as int);
        if t.len() > 0 {
            assert(t[0] == s@[i as int]);
        }
        assert(trim_start(t) == t);
    }
    let mut k: usize = s.len();
    while k > i && is_whitespace(s[k - 1])
        invariant
            i <= k <= s.len(),
            forall|j: int| k <= j < s.len() ==> is_ws(s@[j]),
        decreases k,
    {
        k = k - 1;
    }
    proof {
        let t = s@.subrange(i as int, s@.len() as int);
        lemma_trim_end_take(t, k - i);
        assert(t.take(k - i) =~= s@.subrange(i as int, k as int));
        let u = s@.subrange(i as int, k as int);
        if u.len() > 0 {
            assert(u.last() == s@[k - 1]);
        }
        assert(trim_end(u) == u);
    }
    (i, k)
}

pub fn trimmed(s: &[char]) -> (r: Vec<char>)
    ensures
        r@ == trim(s@),
{
    let (a, b) = trim_bounds(s);
    slice_chars(s, a, b)
}

pub fn trim_str(s: &str) -> (r: Vec<char>)
    ensures
        r@ == trim(s@),
{
    let v = to_chars(s);
    trimmed(&v)
}

pub fn trim_end_chars(s: &[char]) -> (r: Vec<char>)
    ensures
        r@ == trim_end(s@),
{
    let mut k: usize = s.len();
    while k > 0 && is_whitespace(s[k - 1])
        invariant
            k <= s.len(),
            forall|j: int| k <= j < s.len() ==> is_ws(s@[j]),
        decreases k,
    {
        k = k - 1;
    }
    proof {
        lemma_trim_end_take(s@, k as int);
        let u = s@.take(k as int);
        if u.len() > 0 {
            assert(u.last() == s@[k - 1]);
        }
        assert(trim_end(u) == u);
        assert(u =~= s@.subrange(0, k as int));
    }
    slice_chars(s, 0, k)
}

// ---------------------------------------------------------------------------
// Prefixes, suffixes, searching
// ---------------------------------------------------------------------------

pub open spec fn has_prefix(s: Seq<char>, p: Seq<char>) -> bool {
    p.len() <= s.len() && s.take(p.len() as int) == p
}

pub open spec fn has_suffix(s: Seq<char>, p: Seq<char>) -> bool {
    p.len() <= s.len() && s.skip(s.len() - p.len()) == p
}

/// `needle` occurs in `s` starting at `i`.
pub open spec fn occurs_at(s: Seq<char>, needle: Seq<char>, i: int) -> bool {
    0 <= i && i + needle.len() <= s.len() && s.subrange(i, i + needle.len()) == needle
}

pub open spec fn contains_seq(s: Seq<char>, needle: Seq<char>) -> bool {
    exists|i: int| occurs_at(s, needle, i)
}

pub fn starts_with(s: &[char], p: &[char]) -> (r: bool)
    ensures
        r == has_prefix(s@, p@),
{
    if p.len() > s.len() {
        return false;
    }
    let mut i: usize = 0;
    while i < p.len()
        invariant
            i <= p.len() <= s.len(),
            forall|j: int| 0 <= j < i ==> s@[j] == p@[j],
        decreases p.len() - i,
    {
        if s[i] != p[i] {
            assert(s@.take(p.len() as int)[i as int] != p@[i as int]);
            return false;
        }
        i = i + 1;
    }
    assert(s@.take(p.len() as int) =~= p@);
    true
}

pub fn starts_with_str(s: &[char], p: &str) -> (r: bool)
    ensures
        r == has_prefix(s@, p@),
{
    let pc = to_chars(p);
    starts_with(s, &pc)
}

/// Whether `needle` occurs in `s` at `at`.
pub fn matches_at(s: &[char], needle: &[char], at: usize) -> (r: bool)
    ensures
        r == occurs_at(s@, needle@, at as int),
{
    if at > s.len() || needle.len() > s.len() - at {
        return false;
    }
    let mut i: usize = 0;
    while i < needle.len()
        invariant
            i <= needle.len(),
            at + needle.len() <= s.len(),
            forall|j: int| 0 <= j < i ==> s@[at + j] == needle@[j],
        decreases needle.len() - i,
    {
        if s[at + i] != needle[i] {
            assert(s@.subrange(at as int, at + needle.len())[i as int] != needle@[i as int]);
            return false;
        }
        i = i + 1;
    }
    assert(s@.subrange(at as int, at + needle.len()) =~= needle@);
    true
}

pub fn ends_with(s: &[char], p: &[char]) -> (r: bool)
    ensures
        r == has_suffix(s@, p@),
{
    if p.len() > s.len() {
        return false;
    }
    let at = s.len() - p.len();
    let r = matches_at(s, p, at);
    proof {
        assert(s@.skip(at as int) =~= s@.subrange(at as int, at + p.len()));
    }
    r
}

pub fn ends_with_str(s: &[char], p: &str) -> (r: bool)
    ensures
        r == has_suffix(s@, p@),
{
    let pc = to_chars(p);
    ends_with(s, &pc)
}

pub fn contains(s: &[char], needle: &[char]) -> (r: bool)
    ensures
        r == contains_seq(s@, needle@),
{
    if needle.len() > s.len() {
        assert forall|j: int| !occurs_at(s@, needle@, j) by {}
        return false;
    }
    let last: usize = s.len() - needle.len();
    let mut i: usize = 0;
    while i < last
        invariant
            i <= last,
            last + needle.len() == s.len(),
            forall|j: int| 0 <= j < i ==> !occurs_at(s@, needle@, j),
        decreases last - i,
    {
        if matches_at(s, needle, i) {
            return true;
        }
        i = i + 1;
    }
    if matches_at(s, needle, last) {
        return true;
    }
    assert forall|j: int| !occurs_at(s@, needle@, j) by {
        if 0 <= j && j < last {
        } else if j > last {
            assert(j + needle@.len() > s@.len());
        }
    }
    false
}

pub fn contains_str(s: &[char], needle: &str) -> (r: bool)
    ensures
        r == contains_seq(s@, needle@),
{
    let n = to_chars(needle);
    contains(s, &n)
}

/// The first position of `c` in `s`.
pub open spec fn find(s: Seq<char>, c: char) -> Option<int>
    decreases s.len(),
{
    if s.len() == 0 {
        None
    } else if s[0] == c {
        Some(0)
    } else {
        match find(s.drop_first(), c) {
            Some(i) => Some(i + 1),
            None => None,
        }
    }
}

pub proof fn lemma_find(s: Seq<char>, c: char)
    ensures
        match find(s, c) {
            Some(i) => 0 <= i < s.len() && s[i] == c && forall|j: int| 0 <= j < i ==> s[j] != c,
            None => forall|j: int| 0 <= j < s.len() ==> s[j] != c,
        },
    decreases s.len(),
{
    if s.len() > 0 && s[0] != c {
        lemma_find(s.drop_first(), c);
        match find(s.drop_first(), c) {
            Some(i) => {
                assert forall|j: int| 0 <= j < i + 1 implies s[j] != c by {
                    if j > 0 {
                        assert(s[j] == s.drop_first()[j - 1]);
                    }
                }
            },
            None => {
                assert forall|j: int| 0 <= j < s.len() implies s[j] != c by {
                    if j > 0 {
                        assert(s[j] == s.drop_first()[j - 1]);
                    }
                }
            },
        }
    }
}

pub proof fn lemma_find_is(s: Seq<char>, c: char, i: int)
    requires
        0 <= i < s.len(),
        s[i] == c,
        forall|j: int| 0 <= j < i ==> s[j] != c,
    ensures
        find(s, c) == Some(i),
{
    lemma_find(s, c);
    match find(s, c) {
        Some(k) => {
            if k < i {
            } else if k > i {
            }
        },
        None => {},
    }
}

pub proof fn lemma_find_none(s: Seq<char>, c: char)
    requires
        forall|j: int| 0 <= j < s.len() ==> s[j] != c,
    ensures
        find(s, c) == None::<int>,
{
    lemma_find(s, c);
    match find(s, c) {
        Some(k) => {
            assert(s[k] == c);
        },
        None => {},
    }
}

pub fn find_char(s: &[char], c: char) -> (r: Option<usize>)
    ensures
        match r {
            Some(i) => find(s@, c) == Some(i as int),
            None => find(s@, c) == None::<int>,
        },
{
    let mut i: usize = 0;
    while i < s.len()
        invariant
            i <= s.len(),
            forall|j: int| 0 <= j < i ==> s@[j] != c,
        decreases s.len() - i,
    {
        if s[i] == c {
            proof {
                lemma_find_is(s@, c, i as int);
            }
            return Some(i);
        }
        i = i + 1;
    }
    proof {
        lemma_find_none(s@, c);
    }
    None
}

/// The first position at or after `i` where `needle` occurs in `s`.
pub open spec fn first_occurrence_from(s: Seq<char>, needle: Seq<char>, i: int) -> Option<int>
    decreases s.len() + 1 - i,
{
    if i < 0 || i + needle.len() > s.len() {
        None
    } else if occurs_at(s, needle, i) {
        Some(i)
    } else {
        first_occurrence_from(s, needle, i + 1)
    }
}

/// The first position where `needle` occurs in `s` (`str::find` with a text pattern).
pub open spec fn first_occurrence(s: Seq<char>, needle: Seq<char>) -> Option<int> {
    first_occurrence_from(s, needle, 0)
}

proof fn lemma_first_occurrence_from(s: Seq<char>, needle: Seq<char>, i: int)
    ensures
        match first_occurrence_from(s, needle, i) {
            Some(k) => i <= k && occurs_at(s, needle, k),
            None => true,
        },
    decreases s.len() + 1 - i,
{
    if !(i < 0 || i + needle.len() > s.len()) && !occurs_at(s, needle, i) {
        lemma_first_occurrence_from(s, needle, i + 1);
    }
}

/// Where `first_occurrence` finds the needle, it is there.
pub proof fn lemma_first_occurrence(s: Seq<char>, needle: Seq<char>)
    ensures
        match first_occurrence(s, needle) {
            Some(k) => 0 <= k && k + needle.len() <= s.len() && occurs_at(s, needle, k),
            None => true,
        },
{
    lemma_first_occurrence_from(s, needle, 0);
}

pub fn find_chars(s: &[char], needle: &[char]) -> (r: Option<usize>)
    ensures
        match r {
            Some(i) => first_occurrence(s@, needle@) == Some(i as int),
            None => first_occurrence(s@, needle@) == None::<int>,
        },
{
    if needle.len() > s.len() {
        return None;
    }
    let last: usize = s.len() - needle.len();
    let mut i: usize = 0;
    while i < last
        invariant
            last + needle.len() == s.len(),
            i <= last,
            first_occurrence(s@, needle@) == first_occurrence_from(s@, needle@, i as int),
        decreases last - i,
    {
        if matches_at(s, needle, i) {
            return Some(i);
        }
        i = i + 1;
    }
    if matches_at(s, needle, last) {
        return Some(last);
    }
    assert(first_occurrence_from(s@, needle@, last + 1) == None::<int>);
    None
}

/// Every occurrence of `c` in `s` replaced by `with`.
pub open spec fn replace_char(s: Seq<char>, c: char, with: Seq<char>) -> Seq<char>
    decreases s.len(),
{
    if s.len() == 0 {
        s
    } else {
        let head = if s.last() == c {
            with
        } else {
            seq![s.last()]
        };
        replace_char(s.drop_last(), c, with) + head
    }
}

pub fn replace_char_exec(s: &[char], c: char, with: &[char]) -> (r: Vec<char>)
    ensures
        r@ == replace_char(s@, c, with@),
{
    let mut r: Vec<char> = Vec::new();
    let mut i: usize = 0;
    while i < s.len()
        invariant
            i <= s.len(),
            r@ == replace_char(s@.take(i as int), c, with@),
        decreases s.len() - i,
    {
        proof {
            let t = s@.take(i + 1);
            assert(t.drop_last() =~= s@.take(i as int));
            assert(t.last() == s@[i as int]);
        }
        if s[i] == c {
            push_chars(&mut r, with);
        } else {
            r.push(s[i]);
            proof {
                assert(seq![s@[i as int]] =~= Seq::<char>::empty().push(s@[i as int]));
            }
        }
        i = i + 1;
    }
    assert(s@.take(s.len() as int) =~= s@);
    r
}

/// Every character of `s` mapped through `f`.
pub open spec fn each_char_is(s: Seq<char>, t: Seq<char>, f: spec_fn(char) -> char) -> bool {
    s.len() == t.len() && forall|i: int| 0 <= i < s.len() ==> t[i] == f(s[i])
}

// ---------------------------------------------------------------------------
// Numbers
// ---------------------------------------------------------------------------

pub open spec fn digit_char(d: nat) -> char {
    ((d % 10) + 48) as char
}

/// The decimal spelling of `n`, as `{}` formats an unsigned integer.
pub open spec fn dec(n: nat) -> Seq<char>
    decreases n,
{
    if n < 10 {
        seq![digit_char(n)]
    } else {
        dec(n / 10).push(digit_char(n % 10))
    }
}

fn digit(d: u64) -> (c: char)
    requires
        d < 10,
    ensures
        c == digit_char(d as nat),
{
    let n: u32 = (d as u32) + 48;
    char_from_ascii(n)
}

pub fn dec_chars(n: u64) -> (r: Vec<char>)
    ensures
        r@ == dec(n as nat),
    decreases n,
{
    if n < 10 {
        let mut r: Vec<char> = Vec::new();
        r.push(digit(n));
        r
    } else {
        let mut r = dec_chars(n / 10);
        r.push(digit(n % 10));
        r
    }
}

fn digit_wide(d: u128) -> (c: char)
    requires
        d < 10,
    ensures
        c == digit_char(d as nat),
{
    let n: u32 = (d as u32) + 48;
    char_from_ascii(n)
}

/// The decimal spelling of a wide number.
pub fn dec_chars_wide(n: u128) -> (r: Vec<char>)
    ensures
        r@ == dec(n as nat),
    decreases n,
{
    if n < 10 {
        let mut r: Vec<char> = Vec::new();
        r.push(digit_wide(n));
        r
    } else {
        let mut r = dec_chars_wide(n / 10);
        r.push(digit_wide(n % 10));
        r
    }
}

/// `n` formatted with `{}`.
pub fn dec_string(n: u64) -> (r: String)
    ensures
        r@ == dec(n as nat),
{
    let v = dec_chars(n);
    from_chars(&v)
}

// ---------------------------------------------------------------------------
// Lines and joining
// ---------------------------------------------------------------------------

/// The whitespace `s` starts with (`take_while(char::is_whitespace)`).
pub open spec fn leading_ws(s: Seq<char>) -> Seq<char>
    decreases s.len(),
{
    if s.len() > 0 && is_ws(s[0]) {
        seq![s[0]] + leading_ws(s.drop_first())
    } else {
        seq![]
    }
}

proof fn lemma_leading_ws_prefix(s: Seq<char>, i: int)
    requires
        0 <= i <= s.len(),
        forall|j: int| 0 <= j < i ==> is_ws(s[j]),
    ensures
        leading_ws(s) == s.take(i) + leading_ws(s.skip(i)),
    decreases i,
{
    if i > 0 {
        lemma_leading_ws_prefix(s.drop_first(), i - 1);
        assert(s.drop_first().skip(i - 1) =~= s.skip(i));
        assert(s.take(i) =~= seq![s[0]] + s.drop_first().take(i - 1));
    } else {
        assert(s.skip(0) =~= s);
        assert(s.take(0) =~= Seq::<char>::empty());
    }
}

pub fn leading_whitespace(s: &[char]) -> (r: Vec<char>)
    ensures
        r@ == leading_ws(s@),
{
    let mut i: usize = 0;
    while i < s.len() && is_whitespace(s[i])
        invariant
            i <= s.len(),
            forall|j: int| 0 <= j < i ==> is_ws(s@[j]),
        decreases s.len() - i,
    {
        i = i + 1;
    }
    proof {
        lemma_leading_ws_prefix(s@, i as int);
        let t = s@.skip(i as int);
        if t.len() > 0 {
            assert(t[0] == s@[i as int]);
        }
        assert(leading_ws(t) == Seq::<char>::empty());
        assert(s@.take(i as int) =~= s@.subrange(0, i as int));
    }
    slice_chars(s, 0, i)
}

/// A line as `str::lines` hands it out: without its `\n`, and without the `\r`
/// of a `\r\n`.
pub open spec fn strip_cr(t: Seq<char>) -> Seq<char> {
    if t.len() > 0 && t.last() == '\r' {
        t.drop_last()
    } else {
        t
    }
}

/// `str::lines`.
pub open spec fn lines(s: Seq<char>) -> Seq<Seq<char>>
    decreases s.len(),
{
    if s.len() == 0 {
        seq![]
    } else {
        match find(s, '\n') {
            Some(i) => {
                if 0 <= i < s.len() {
                    seq![strip_cr(s.take(i))] + lines(s.skip(i + 1))
                } else {
                    seq![]
                }
            },
            None => seq![s],
        }
    }
}

/// `str::split` on one character: the pieces between its occurrences, empty
/// ones included.
pub open spec fn split_on(s: Seq<char>, c: char) -> Seq<Seq<char>>
    decreases s.len(),
{
    match find(s, c) {
        Some(i) => {
            if 0 <= i < s.len() {
                seq![s.take(i)] + split_on(s.skip(i + 1), c)
            } else {
                seq![]
            }
        },
        None => seq![s],
    }
}

/// The pieces of `s` from position `from` on.
fn split_from(s: &[char], c: char, from: usize) -> (r: Vec<Vec<char>>)
    requires
        from <= s.len(),
    ensures
        views(r@) == split_on(s@.skip(from as int), c),
    decreases s.len() - from,
{
    let ghost t = s@.skip(from as int);
    let mut i: usize = from;
    while i < s.len() && s[i] != c
        invariant
            from <= i <= s.len(),
            forall|j: int| from <= j < i ==> s@[j] != c,
        decreases s.len() - i,
    {
        i = i + 1;
    }
    if i == s.len() {
        proof {
            lemma_find_none(t, c);
        }
        let mut r: Vec<Vec<char>> = Vec::new();
        r.push(slice_chars(s, from, s.len()));
        proof {
            assert(s@.subrange(from as int, s.len() as int) =~= t);
            assert(views(r@) =~= seq![t]);
        }
        r
    } else {
        proof {
            lemma_find_is(t, c, i - from);
            assert(s@.subrange(from as int, i as int) =~= t.take(i - from));
            assert(s@.skip(i + 1) =~= t.skip(i - from + 1));
        }
        let piece = slice_chars(s, from, i);
        let rest = split_from(s, c, i + 1);
        let mut r: Vec<Vec<char>> = Vec::new();
        r.push(piece);
        let mut k: usize = 0;
        while k < rest.len()
            invariant
                k <= rest.len(),
                r@.len() == k + 1,
                r@[0]@ == t.take(i - from),
                forall|j: int| 0 <= j < k ==> r@[j + 1]@ == rest@[j]@,
            decreases rest.len() - k,
        {
            r.push(rest[k].clone());
            k = k + 1;
        }
        proof {
            assert(views(r@) =~= seq![t.take(i - from)] + views(rest@));
        }
        r
    }
}

pub fn split_chars(s: &[char], c: char) -> (r: Vec<Vec<char>>)
    ensures
        views(r@) == split_on(s@, c),
{
    let r = split_from(s, c, 0);
    assert(s@.skip(0) =~= s@);
    r
}

/// The last position of `c` in `s`.
pub open spec fn rfind(s: Seq<char>, c: char) -> Option<int>
    decreases s.len(),
{
    if s.len() == 0 {
        None
    } else if s.last() == c {
        Some(s.len() - 1)
    } else {
        rfind(s.drop_last(), c)
    }
}

pub fn rfind_char(s: &[char], c: char) -> (r: Option<usize>)
    ensures
        match r {
            Some(i) => rfind(s@, c) == Some(i as int) && i < s@.len(),
            None => rfind(s@, c) == None::<int>,
        },
{
    let mut k: usize = s.len();
    assert(s@.take(k as int) =~= s@);
    while k > 0
        invariant
            k <= s.len(),
            rfind(s@, c) == rfind(s@.take(k as int), c),
        decreases k,
    {
        assert(s@.take(k as int).drop_last() =~= s@.take(k - 1));
        if s[k - 1] == c {
            return Some(k - 1);
        }
        k = k - 1;
    }
    None
}

/// The first position in `s` holding whitespace.
pub open spec fn find_ws(s: Seq<char>) -> Option<int>
    decreases s.len(),
{
    if s.len() == 0 {
        None
    } else if is_ws(s[0]) {
        Some(0)
    } else {
        match find_ws(s.drop_first()) {
            Some(i) => Some(i + 1),
            None => None,
        }
    }
}

proof fn lemma_find_ws(s: Seq<char>)
    ensures
        match find_ws(s) {
            Some(i) => 0 <= i < s.len() && is_ws(s[i]) && forall|j: int| 0 <= j < i ==> !is_ws(#[trigger] s[j]),
            None => forall|j: int| 0 <= j < s.len() ==> !is_ws(#[trigger] s[j]),
        },
    decreases s.len(),
{
    if s.len() > 0 && !is_ws(s[0]) {
        lemma_find_ws(s.drop_first());
        assert forall|j: int| 0 < j < s.len() implies #[trigger] s[j] == s.drop_first()[j - 1] by {}
    }
}

proof fn lemma_find_ws_is(s: Seq<char>, i: int)
    requires
        0 <= i <= s.len(),
        i < s.len() ==> is_ws(s[i]),
        forall|j: int| 0 <= j < i ==> !is_ws(#[trigger] s[j]),
    ensures
        find_ws(s) == (if i < s.len() { Some(i) } else { None::<int> }),
{
    lemma_find_ws(s);
    match find_ws(s) {
        Some(k) => {
            if k < i {
            } else if k > i {
                assert(is_ws(s[i]));
            }
        },
        None => {
            if i < s.len() {
                assert(is_ws(s[i]));
            }
        },
    }
}

/// Where the word at the start of `s` ends: its first whitespace, or its end.
pub open spec fn word_end(s: Seq<char>) -> int {
    match find_ws(s) {
        Some(k) => k,
        None => s.len() as int,
    }
}

/// `str::split_whitespace`: the runs of non-whitespace, in order.
pub open spec fn words(s: Seq<char>) -> Seq<Seq<char>>
    decreases s.len(),
{
    if s.len() == 0 {
        seq![]
    } else if is_ws(s[0]) {
        words(s.drop_first())
    } else {
        let k = word_end(s);
        if 0 < k <= s.len() {
            seq![s.take(k)] + words(s.skip(k))
        } else {
            seq![]
        }
    }
}

fn words_from(s: &[char], from: usize) -> (r: Vec<Vec<char>>)
    requires
        from <= s.len(),
    ensures
        views(r@) == words(s@.skip(from as int)),
    decreases s.len() - from,
{
    let ghost t = s@.skip(from as int);
    if from == s.len() {
        let r: Vec<Vec<char>> = Vec::new();
        assert(views(r@) =~= Seq::<Seq<char>>::empty());
        return r;
    }
    if is_whitespace(s[from]) {
        assert(t.drop_first() =~= s@.skip(from + 1));
        return words_from(s, from + 1);
    }
    let mut j: usize = from;
    while j < s.len() && !is_whitespace(s[j])
        invariant
            from <= j <= s.len(),
            forall|k: int| from <= k < j ==> !is_ws(#[trigger] s@[k]),
        decreases s.len() - j,
    {
        j = j + 1;
    }
    proof {
        assert forall|k: int| 0 <= k < j - from implies !is_ws(#[trigger] t[k]) by {
            assert(t[k] == s@[from + k]);
        }
        if j < s.len() {
            assert(t[j - from] == s@[j as int]);
        }
        lemma_find_ws_is(t, j - from);
        assert(s@.subrange(from as int, j as int) =~= t.take(j - from));
        assert(s@.skip(j as int) =~= t.skip(j - from));
    }
    let piece = slice_chars(s, from, j);
    let rest = words_from(s, j);
    let mut r: Vec<Vec<char>> = Vec::new();
    r.push(piece);
    let mut k: usize = 0;
    while k < rest.len()
        invariant
            k <= rest.len(),
            r@.len() == k + 1,
            r@[0]@ == t.take(j - from),
            forall|m: int| 0 <= m < k ==> r@[m + 1]@ == rest@[m]@,
        decreases rest.len() - k,
    {
        r.push(rest[k].clone());
        k = k + 1;
    }
    proof {
        assert(views(r@) =~= seq![t.take(j - from)] + views(rest@));
    }
    r
}

/// The whitespace-separated words of `s`.
pub fn words_of(s: &[char]) -> (r: Vec<Vec<char>>)
    ensures
        views(r@) == words(s@),
{
    let r = words_from(s, 0);
    assert(s@.skip(0) =~= s@);
    r
}

/// `join` over a sequence of texts.
pub open spec fn join(parts: Seq<Seq<char>>, sep: Seq<char>) -> Seq<char>
    decreases parts.len(),
{
    if parts.len() == 0 {
        seq![]
    } else if parts.len() == 1 {
        parts[0]
    } else {
        join(parts.drop_last(), sep) + sep + parts.last()
    }
}

/// No line `str::lines` hands out holds a `\n`.
pub proof fn lemma_lines_no_newline(s: Seq<char>)
    ensures
        forall|i: int| 0 <= i < lines(s).len() ==> !(#[trigger] lines(s)[i]).contains('\n'),
    decreases s.len(),
{
    if s.len() > 0 {
        lemma_find(s, '\n');
        match find(s, '\n') {
            Some(i) => {
                if 0 <= i < s.len() {
                    lemma_lines_no_newline(s.skip(i + 1));
                    let head = strip_cr(s.take(i));
                    assert forall|j: int| 0 <= j < head.len() implies head[j] != '\n' by {
                        assert(head[j] == s[j]);
                    }
                    assert forall|k: int| 0 <= k < lines(s).len() implies !(#[trigger] lines(s)[k]).contains('\n') by {
                        if k > 0 {
                            assert(lines(s)[k] == lines(s.skip(i + 1))[k - 1]);
                        }
                    }
                }
            },
            None => {},
        }
    }
}

/// A line, a `\n`, and the rest: the line (without a `\r` it ends in) comes first.
pub proof fn lemma_lines_cons(a: Seq<char>, b: Seq<char>)
    requires
        !a.contains('\n'),
    ensures
        lines(a + seq!['\n'] + b) == seq![strip_cr(a)] + lines(b),
{
    let s = a + seq!['\n'] + b;
    assert forall|j: int| 0 <= j < a.len() implies s[j] != '\n' by {
        assert(s[j] == a[j]);
    }
    lemma_find_is(s, '\n', a.len() as int);
    assert(s.take(a.len() as int) =~= a);
    assert(s.skip(a.len() as int + 1) =~= b);
}

/// `join` taken from the front.
pub proof fn lemma_join_front(ls: Seq<Seq<char>>, sep: Seq<char>)
    requires
        ls.len() >= 2,
    ensures
        join(ls, sep) == ls[0] + sep + join(ls.drop_first(), sep),
    decreases ls.len(),
{
    if ls.len() == 2 {
        assert(ls.drop_last().len() == 1);
        assert(ls.drop_first().len() == 1);
        assert(ls.drop_first()[0] == ls.last());
        assert(join(ls.drop_last(), sep) == ls[0]);
        assert(join(ls.drop_first(), sep) == ls[1]);
        assert(join(ls, sep) == join(ls.drop_last(), sep) + sep + ls.last());
    } else {
        lemma_join_front(ls.drop_last(), sep);
        assert(ls.drop_last().drop_first() =~= ls.drop_first().drop_last());
        assert(ls.drop_first().last() == ls.last());
        assert(ls.drop_last()[0] == ls[0]);
        let a = ls[0];
        let m = join(ls.drop_first().drop_last(), sep);
        assert(join(ls, sep) == (a + sep + m) + sep + ls.last());
        assert(join(ls.drop_first(), sep) == m + sep + ls.last());
        assert((a + sep + m) + sep + ls.last() =~= a + sep + (m + sep + ls.last()));
    }
}

/// Lines joined by `\n` with a final `\n` read back as the same lines, when
/// none holds a `\n` or ends in a `\r`.
pub proof fn lemma_lines_of_joined(ls: Seq<Seq<char>>)
    requires
        ls.len() >= 1,
        forall|i: int| 0 <= i < ls.len() ==> !(#[trigger] ls[i]).contains('\n') && strip_cr(ls[i]) == ls[i],
    ensures
        lines(join(ls, seq!['\n']) + seq!['\n']) == ls,
    decreases ls.len(),
{
    if ls.len() == 1 {
        lemma_lines_cons(ls[0], seq![]);
        assert(join(ls, seq!['\n']) + seq!['\n'] =~= ls[0] + seq!['\n'] + Seq::<char>::empty());
        assert(lines(Seq::<char>::empty()) =~= Seq::<Seq<char>>::empty());
        assert(seq![strip_cr(ls[0])] + Seq::<Seq<char>>::empty() =~= ls);
    } else {
        let rest = ls.drop_first();
        lemma_join_front(ls, seq!['\n']);
        assert forall|i: int| 0 <= i < rest.len() implies !(#[trigger] rest[i]).contains('\n') && strip_cr(rest[i]) == rest[i] by {
            assert(rest[i] == ls[i + 1]);
        }
        lemma_lines_of_joined(rest);
        let tail = join(rest, seq!['\n']) + seq!['\n'];
        assert(join(ls, seq!['\n']) + seq!['\n'] =~= ls[0] + seq!['\n'] + tail);
        lemma_lines_cons(ls[0], tail);
        assert(seq![ls[0]] + rest =~= ls);
    }
}

/// Whitespace before a text that neither starts nor ends with whitespace trims away.
pub proof fn lemma_trim_ws_prefix(w: Seq<char>, u: Seq<char>)
    requires
        forall|i: int| 0 <= i < w.len() ==> is_ws(#[trigger] w[i]),
        u.len() > 0,
        !is_ws(u[0]),
        !is_ws(u.last()),
    ensures
        trim(w + u) == u,
    decreases w.len(),
{
    if w.len() == 0 {
        assert(w + u =~= u);
        assert(trim_start(u) == u);
        assert(trim_end(u) == u);
    } else {
        assert((w + u).drop_first() =~= w.drop_first() + u);
        assert forall|i: int| 0 <= i < w.drop_first().len() implies is_ws(#[trigger] w.drop_first()[i]) by {
            assert(w.drop_first()[i] == w[i + 1]);
        }
        lemma_trim_ws_prefix(w.drop_first(), u);
        assert(trim_start(w + u) == trim_start(w.drop_first() + u));
    }
}

/// Leading whitespace is whitespace, and holds no `\n` when the text holds none.
pub proof fn lemma_leading_ws_is_ws(s: Seq<char>)
    ensures
        forall|i: int| 0 <= i < leading_ws(s).len() ==> is_ws(#[trigger] leading_ws(s)[i]) && leading_ws(s)[i] == s[i],
        leading_ws(s).len() <= s.len(),
    decreases s.len(),
{
    if s.len() > 0 && is_ws(s[0]) {
        lemma_leading_ws_is_ws(s.drop_first());
        assert forall|i: int| 0 <= i < leading_ws(s).len() implies is_ws(#[trigger] leading_ws(s)[i]) && leading_ws(s)[i] == s[i] by {
            if i > 0 {
                assert(leading_ws(s)[i] == leading_ws(s.drop_first())[i - 1]);
            }
        }
    }
}

pub open spec fn views(v: Seq<Vec<char>>) -> Seq<Seq<char>> {
    v.map_values(|x: Vec<char>| x@)
}

/// The lines of `s` from position `from` on.
fn lines_from(s: &[char], from: usize) -> (r: Vec<Vec<char>>)
    requires
        from <= s.len(),
    ensures
        views(r@) == lines(s@.skip(from as int)),
    decreases s.len() - from,
{
    let ghost t = s@.skip(from as int);
    if from == s.len() {
        let r: Vec<Vec<char>> = Vec::new();
        assert(views(r@) =~= Seq::<Seq<char>>::empty());
        return r;
    }
    let mut i: usize = from;
    while i < s.len() && s[i] != '\n'
        invariant
            from <= i <= s.len(),
            forall|j: int| from <= j < i ==> s@[j] != '\n',
        decreases s.len() - i,
    {
        i = i + 1;
    }
    if i == s.len() {
        proof {
            lemma_find_none(t, '\n');
        }
        let mut r: Vec<Vec<char>> = Vec::new();
        r.push(slice_chars(s, from, s.len()));
        proof {
            assert(s@.subrange(from as int, s.len() as int) =~= t);
            assert(views(r@) =~= seq![t]);
        }
        r
    } else {
        proof {
            lemma_find_is(t, '\n', i - from);
        }
        let line = slice_chars(s, from, i);
        let stripped = if line.len() > 0 && line[line.len() - 1] == '\r' {
            slice_chars(&line, 0, line.len() - 1)
        } else {
            line
        };
        proof {
            assert(s@.subrange(from as int, i as int) =~= t.take(i - from));
            assert(s@.skip(i + 1) =~= t.skip(i - from + 1));
            if t.take(i - from).len() > 0 {
                assert(t.take(i - from).drop_last() =~= t.take(i - from).subrange(0, i - from - 1));
            }
        }
        let rest = lines_from(s, i + 1);
        let mut r: Vec<Vec<char>> = Vec::new();
        r.push(stripped);
        let mut k: usize = 0;
        while k < rest.len()
            invariant
                k <= rest.len(),
                r@.len() == k + 1,
                r@[0]@ == strip_cr(t.take(i - from)),
                forall|j: int| 0 <= j < k ==> r@[j + 1]@ == rest@[j]@,
            decreases rest.len() - k,
        {
            r.push(rest[k].clone());
            k = k + 1;
        }
        proof {
            assert(views(r@) =~= seq![strip_cr(t.take(i - from))] + views(rest@));
        }
        r
    }
}

pub fn lines_of(s: &[char]) -> (r: Vec<Vec<char>>)
    ensures
        views(r@) == lines(s@),
{
    let r = lines_from(s, 0);
    assert(s@.skip(0) =~= s@);
    r
}

pub fn join_chars(parts: &Vec<Vec<char>>, sep: &[char]) -> (r: Vec<char>)
    ensures
        r@ == join(views(parts@), sep@),
{
    let mut r: Vec<char> = Vec::new();
    let mut i: usize = 0;
    while i < parts.len()
        invariant
            i <= parts.len(),
            r@ == join(views(parts@).take(i as int), sep@),
        decreases parts.len() - i,
    {
        proof {
            let p = views(parts@).take(i + 1);
            assert(p.drop_last() =~= views(parts@).take(i as int));
            assert(p.last() == parts@[i as int]@);
            if i == 0 {
                assert(p.len() == 1);
            }
        }
        if i > 0 {
            push_chars(&mut r, sep);
        }
        push_chars(&mut r, &parts[i]);
        proof {
            if i == 0 {
                assert(r@ =~= views(parts@).take(1)[0]);
            }
        }
        i = i + 1;
    }
    assert(views(parts@).take(parts.len() as int) =~= views(parts@));
    r
}

/// The texts of `v`, `sep` between each two.
pub fn join_strings(v: &Vec<String>, sep: &str) -> (r: Vec<char>)
    ensures
        r@ == join(crate::order::string_views(v@), sep@),
{
    let mut parts: Vec<Vec<char>> = Vec::new();
    let mut i: usize = 0;
    while i < v.len()
        invariant
            i <= v.len(),
            views(parts@) == crate::order::string_views(v@).take(i as int),
        decreases v.len() - i,
    {
        let ghost before = views(parts@);
        parts.push(to_chars(v[i].as_str()));
        assert(views(parts@) =~= before.push(v@[i as int]@));
        assert(crate::order::string_views(v@).take(i + 1) =~= crate::order::string_views(v@).take(i as int).push(v@[i as int]@));
        i = i + 1;
    }
    assert(crate::order::string_views(v@).take(v.len() as int) =~= crate::order::string_views(v@));
    join_chars(&parts, &to_chars(sep))
}

// ---------------------------------------------------------------------------
// Debug quoting
// ---------------------------------------------------------------------------

/// What `{:?}` writes for a string: the string between double quotes, with
/// the characters Debug escapes escaped.
pub uninterp spec fn debug_str(s: Seq<char>) -> Seq<char>;

/// Printable ASCII that Debug leaves as it is: no double quote, no backslash.
pub open spec fn plainly_printable(s: Seq<char>) -> bool {
    forall|i: int| 0 <= i < s.len() ==> (' ' <= #[trigger] s[i] && s[i] <= '~' && s[i] != '"' && s[i] != '\\')
}

/// `format!("{:?}", s)` on a `&str`. Claimed of it: the result is a function of
/// `s` alone, and printable ASCII without `"` or `\` comes out between two
/// double quotes unchanged. What the escapes of other characters look like is
/// left unsaid.
#[verifier::external_body]
pub(crate) fn debug_quote(s: &str) -> (r: String)
    ensures
        r@ == debug_str(s@),
        plainly_printable(s@) ==> r@ == seq!['"'] + s@ + seq!['"'],
{
    format!("{:?}", s)
}

} // verus!
