//! The end of every import: what was left out, and why. Never silent — a
//! partial estate is fine, an unexplained one is not.

use vstd::prelude::*;
use vstd::string::*;
use crate::discovery::{Discovered, DroppedAttr, DropReason, Skipped, SkipReason, left_out_count, parents_left_out,
    skip_reason_text, row_key, LeftOut};
use crate::order::{lex_lt, sorted_set_of, string_views, SortKey, KeyV, key_lt, key_view, key_views, stable_order,
    sorted_by_key, permutation_of};
use crate::text::{dec, join};

verus! {

// ---------------------------------------------------------------------------
// Counted lines
// ---------------------------------------------------------------------------

/// `s` right-aligned in `w` columns, as `{:w}` writes a number.
pub open spec fn right_aligned(s: Seq<char>, w: nat) -> Seq<char> {
    if s.len() < w {
        Seq::new((w - s.len()) as nat, |i: int| ' ') + s
    } else {
        s
    }
}

/// `  <n, five wide> <label>`.
pub open spec fn count_line(n: nat, label: Seq<char>) -> Seq<char> {
    "  "@ + right_aligned(dec(n), 5) + " "@ + label
}

/// How often `k` occurs in `keys`.
pub open spec fn occurrences(keys: Seq<Seq<char>>, k: Seq<char>) -> nat
    decreases keys.len(),
{
    if keys.len() == 0 {
        0
    } else {
        occurrences(keys.drop_last(), k) + if keys.last() == k { 1nat } else { 0nat }
    }
}

/// `r` holds each key of `keys` once, in order, with how often it occurs.
pub open spec fn tallied(r: Seq<(Seq<char>, nat)>, keys: Seq<Seq<char>>) -> bool {
    &&& sorted_set_of(r.map_values(|p: (Seq<char>, nat)| p.0), keys)
    &&& forall|i: int| 0 <= i < r.len() ==> (#[trigger] r[i]).1 == occurrences(keys, r[i].0)
}

/// Each key once, in order, with its count: what a `BTreeMap` of counts
/// iterates.
pub open spec fn tally(keys: Seq<Seq<char>>) -> Seq<(Seq<char>, nat)> {
    choose|r: Seq<(Seq<char>, nat)>| #[trigger] tallied(r, keys)
}

pub open spec fn count_lines(t: Seq<(Seq<char>, nat)>) -> Seq<Seq<char>> {
    t.map_values(|p: (Seq<char>, nat)| count_line(p.1, p.0))
}

// ---------------------------------------------------------------------------
// Dropped attributes
// ---------------------------------------------------------------------------

/// The dropped attributes whose reason is (`lost`) or is not a loss.
pub open spec fn dropped_where(ds: Seq<DroppedAttr>, lost: bool) -> Seq<DroppedAttr>
    decreases ds.len(),
{
    if ds.len() == 0 {
        seq![]
    } else {
        let r = dropped_where(ds.drop_last(), lost);
        if (ds.last().why is NotCarried) == lost { r.push(ds.last()) } else { r }
    }
}

pub open spec fn lost_line(d: DroppedAttr) -> Seq<char> {
    "  - "@ + d.tf_type@ + " "@ + d.what@ + " ."@ + d.path@ + " — "@ + match d.why {
        DropReason::NotCarried(w) => w@,
        DropReason::Vocabulary => seq![],
    }
}

pub open spec fn vocabulary_line(d: DroppedAttr) -> Seq<char> {
    "  - "@ + d.tf_type@ + " "@ + d.what@ + " ."@ + d.path@
}

/// The losses, named in full, every run.
pub open spec fn lost_part(ds: Seq<DroppedAttr>) -> Seq<Seq<char>> {
    let l = dropped_where(ds, true);
    if l.len() == 0 {
        seq![]
    } else {
        seq!["import: "@ + dec(l.len())
            + " attribute(s) the provider schema names are NOT in the estate — an apply would reset them on the live resource:"@]
            + l.map_values(|d: DroppedAttr| lost_line(d))
    }
}

/// The API vocabulary dropped: counted per type, listed when verbose.
pub open spec fn vocabulary_part(ds: Seq<DroppedAttr>, verbose: bool) -> Seq<Seq<char>> {
    let v = dropped_where(ds, false);
    if v.len() == 0 {
        seq![]
    } else {
        seq!["import: "@ + dec(v.len()) + " attribute(s) dropped — not in the provider schema (API vocabulary; would not plan):"@]
            + count_lines(tally(v.map_values(|d: DroppedAttr| d.tf_type@)))
            + if verbose { v.map_values(|d: DroppedAttr| vocabulary_line(d)) } else { seq![] }
    }
}

// ---------------------------------------------------------------------------
// Children of a filtered-out parent
// ---------------------------------------------------------------------------

pub open spec fn pair_lt(a: (Seq<char>, Seq<char>), b: (Seq<char>, Seq<char>)) -> bool {
    lex_lt(a.0, b.0) || (a.0 == b.0 && lex_lt(a.1, b.1))
}

pub open spec fn pairs_sorted(r: Seq<(Seq<char>, Seq<char>)>) -> bool {
    forall|i: int, j: int| 0 <= i < j < r.len() ==> pair_lt(#[trigger] r[i], #[trigger] r[j])
}

/// The (child type, parent type) pairs with children dropped for a filtered
/// parent, each once, in order.
pub open spec fn left_pairs(skipped: Seq<Skipped>, fo: Seq<Seq<char>>) -> Seq<(Seq<char>, Seq<char>)> {
    choose|r: Seq<(Seq<char>, Seq<char>)>| pairs_sorted(r) && forall|c: Seq<char>, p: Seq<char>|
        #[trigger] r.contains((c, p)) <==> left_out_count(skipped, fo, skipped, c, p) > 0
}

pub open spec fn left_line(c: Seq<char>, p: Seq<char>, n: nat) -> Seq<char> {
    "import: "@ + dec(n) + " "@ + c + " need "@ + p + ", which --only/--exclude left out — add "@ + p + " to --only"@
}

pub open spec fn left_part(skipped: Seq<Skipped>, fo: Seq<Seq<char>>) -> Seq<Seq<char>> {
    left_pairs(skipped, fo).map_values(|cp: (Seq<char>, Seq<char>)| left_line(cp.0, cp.1,
        left_out_count(skipped, fo, skipped, cp.0, cp.1)))
}

// ---------------------------------------------------------------------------
// Skipped resources, by reason
// ---------------------------------------------------------------------------

/// A reason as the tally counts it: the fixed reasons by kind, a skip
/// pattern and a project state each on a line of their own.
pub open spec fn reason_key(r: SkipReason) -> Seq<char> {
    match r {
        SkipReason::TypeOff => "type off (import: false)"@,
        SkipReason::Filtered => "filtered by --only/--exclude"@,
        SkipReason::Unmapped(_) => "unmapped (no import-config row fits)"@,
        SkipReason::ParentNotFound(_) => "parent not imported"@,
        SkipReason::PlatformOwned(p) => "platform-owned, skip pattern `"@ + p@ + "`"@,
        SkipReason::NotActive(s) => "project not ACTIVE ("@ + s@ + ")"@,
    }
}

pub open spec fn not_fetched() -> Seq<char> {
    "type(s) filtered by --only/--exclude, not fetched"@
}

pub open spec fn any_filtered(skipped: Seq<Skipped>) -> bool {
    exists|i: int| 0 <= i < skipped.len() && (#[trigger] skipped[i]).reason is Filtered
}

/// The filtered-out types, each once, in order.
pub open spec fn filtered_types(fo: Seq<Seq<char>>) -> Seq<Seq<char>> {
    choose|r: Seq<Seq<char>>| #[trigger] sorted_set_of(r, fo)
}

/// What the reasons tally counts: the types filtered out unfetched (their
/// number, where no resource was skipped as filtered), and every skipped
/// resource's reason.
pub open spec fn reason_keys(skipped: Seq<Skipped>, fo: Seq<Seq<char>>) -> Seq<Seq<char>> {
    let n = filtered_types(fo).len();
    (if n > 0 && !any_filtered(skipped) { Seq::new(n, |i: int| not_fetched()) } else { seq![] })
        + skipped.map_values(|s: Skipped| reason_key(s.reason))
}

pub open spec fn skipped_total(skipped: Seq<Skipped>, fo: Seq<Seq<char>>) -> nat {
    skipped.len() + if any_filtered(skipped) { 0 } else { filtered_types(fo).len() }
}

/// The skipped resources by type, then by name.
pub open spec fn skipped_order(skipped: Seq<Skipped>) -> Seq<int> {
    stable_order(skipped.map_values(|s: Skipped| (0u8, 0u8, s.tf_type@, s.what@)), skipped.len())
}

pub open spec fn skipped_line(s: Skipped) -> Seq<char> {
    "  - "@ + s.tf_type@ + " "@ + s.what@ + " — "@ + skip_reason_text(s.reason)
}

pub open spec fn levers() -> Seq<char> {
    "  (--verbose lists every one; `import: false` rows, `--all`, `--only` and `--exclude` are the levers)"@
}

/// The last part: the children of filtered parents, the count by reason,
/// and with `verbose` the filtered types and every skipped resource.
pub open spec fn skipped_part(skipped: Seq<Skipped>, fo: Seq<Seq<char>>, verbose: bool) -> Seq<Seq<char>> {
    let ft = filtered_types(fo);
    left_part(skipped, fo)
        + seq!["import: skipped "@ + dec(skipped_total(skipped, fo)) + " resource(s):"@]
        + count_lines(tally(reason_keys(skipped, fo)))
        + (if verbose && ft.len() > 0 { seq!["  filtered type(s): "@ + join(ft, ", "@)] } else { seq![] })
        + (if verbose && skipped.len() > 0 {
            skipped_order(skipped).map_values(|i: int| skipped_line(skipped[i]))
        } else {
            seq![levers()]
        })
}

/// Every line of the report, in order.
pub open spec fn report_of(notes: Seq<Seq<char>>, skipped: Seq<Skipped>, dropped: Seq<DroppedAttr>, fo: Seq<Seq<char>>,
    verbose: bool) -> Seq<Seq<char>> {
    let head = notes + lost_part(dropped) + vocabulary_part(dropped, verbose);
    if skipped.len() == 0 && fo.len() == 0 {
        head + seq!["import: nothing skipped — every resource the source had is in the estate."@]
    } else {
        head + skipped_part(skipped, fo, verbose)
    }
}

// ---------------------------------------------------------------------------
// Uniqueness of the ordered forms
// ---------------------------------------------------------------------------

proof fn lemma_tally_unique(a: Seq<(Seq<char>, nat)>, b: Seq<(Seq<char>, nat)>, keys: Seq<Seq<char>>)
    requires
        tallied(a, keys),
        tallied(b, keys),
    ensures
        a == b,
{
    let ka = a.map_values(|p: (Seq<char>, nat)| p.0);
    let kb = b.map_values(|p: (Seq<char>, nat)| p.0);
    assert forall|x: Seq<char>| ka.contains(x) <==> kb.contains(x) by {
        assert(ka.contains(x) <==> keys.contains(x));
        assert(kb.contains(x) <==> keys.contains(x));
    }
    crate::order::lemma_sorted_set_unique(ka, kb);
    assert forall|i: int| 0 <= i < a.len() implies a[i] == b[i] by {
        assert(ka[i] == kb[i]);
        assert(a[i].1 == occurrences(keys, a[i].0));
        assert(b[i].1 == occurrences(keys, b[i].0));
    }
    assert(a =~= b);
}

proof fn lemma_pair_asym(a: (Seq<char>, Seq<char>), b: (Seq<char>, Seq<char>))
    requires
        pair_lt(a, b),
    ensures
        !pair_lt(b, a),
        a != b,
{
    crate::order::lemma_lex_irreflexive(a.0);
    crate::order::lemma_lex_irreflexive(a.1);
    if lex_lt(a.0, b.0) {
        crate::order::lemma_lex_asym(a.0, b.0);
    } else {
        crate::order::lemma_lex_asym(a.1, b.1);
    }
}

proof fn lemma_pairs_unique(a: Seq<(Seq<char>, Seq<char>)>, b: Seq<(Seq<char>, Seq<char>)>)
    requires
        pairs_sorted(a),
        pairs_sorted(b),
        forall|x: (Seq<char>, Seq<char>)| a.contains(x) <==> b.contains(x),
    ensures
        a == b,
    decreases a.len() + b.len(),
{
    if a.len() == 0 {
        if b.len() > 0 {
            assert(b.contains(b[0]));
        }
        assert(a =~= b);
    } else if b.len() == 0 {
        assert(a.contains(a[0]));
    } else {
        assert(a.contains(a[0]));
        assert(b.contains(b[0]));
        let i = choose|i: int| 0 <= i < b.len() && b[i] == a[0];
        let j = choose|j: int| 0 <= j < a.len() && a[j] == b[0];
        if i > 0 {
            assert(pair_lt(b[0], b[i]));
            if j > 0 {
                assert(pair_lt(a[0], a[j]));
                lemma_pair_asym(b[0], a[0]);
            } else {
                lemma_pair_asym(b[0], b[i]);
            }
        }
        assert(a[0] == b[0]);
        let a1 = a.drop_first();
        let b1 = b.drop_first();
        assert forall|x: (Seq<char>, Seq<char>)| a1.contains(x) <==> b1.contains(x) by {
            if a1.contains(x) {
                let k = choose|k: int| 0 <= k < a1.len() && a1[k] == x;
                assert(a[k + 1] == x);
                assert(pair_lt(a[0], a[k + 1]));
                lemma_pair_asym(a[0], x);
                assert(b.contains(x));
                let m = choose|m: int| 0 <= m < b.len() && b[m] == x;
                assert(m != 0);
                assert(b1[m - 1] == x);
            }
            if b1.contains(x) {
                let k = choose|k: int| 0 <= k < b1.len() && b1[k] == x;
                assert(b[k + 1] == x);
                assert(pair_lt(b[0], b[k + 1]));
                lemma_pair_asym(b[0], x);
                assert(a.contains(x));
                let m = choose|m: int| 0 <= m < a.len() && a[m] == x;
                assert(m != 0);
                assert(a1[m - 1] == x);
            }
        }
        assert forall|p: int, q: int| 0 <= p < q < a1.len() implies pair_lt(#[trigger] a1[p], #[trigger] a1[q]) by {
            assert(a1[p] == a[p + 1] && a1[q] == a[q + 1]);
        }
        assert forall|p: int, q: int| 0 <= p < q < b1.len() implies pair_lt(#[trigger] b1[p], #[trigger] b1[q]) by {
            assert(b1[p] == b[p + 1] && b1[q] == b[q + 1]);
        }
        lemma_pairs_unique(a1, b1);
        assert(a =~= seq![a[0]] + a1);
        assert(b =~= seq![b[0]] + b1);
    }
}

// ---------------------------------------------------------------------------
// The report, executed
// ---------------------------------------------------------------------------

pub open spec fn counts_view(v: Seq<(String, usize)>) -> Seq<(Seq<char>, nat)> {
    v.map_values(|p: (String, usize)| (p.0@, p.1 as nat))
}

fn occurrences_exec(keys: &Vec<String>, k: &str) -> (n: usize)
    ensures
        n as nat == occurrences(string_views(keys@), k@),
{
    let ghost kv = string_views(keys@);
    let mut n: usize = 0;
    let mut i: usize = 0;
    while i < keys.len()
        invariant
            i <= keys@.len(),
            kv == string_views(keys@),
            n as nat == occurrences(kv.take(i as int), k@),
            n <= i,
        decreases keys.len() - i,
    {
        assert(kv.take(i + 1).drop_last() =~= kv.take(i as int));
        assert(kv.take(i + 1).last() == keys@[i as int]@);
        if crate::text::str_eq(keys[i].as_str(), k) {
            n = n + 1;
        }
        i = i + 1;
    }
    assert(kv.take(keys.len() as int) =~= kv);
    n
}

/// Each key once, in order, with its count.
fn tally_exec(keys: &Vec<String>) -> (r: Vec<(String, usize)>)
    ensures
        counts_view(r@) == tally(string_views(keys@)),
{
    let ghost kv = string_views(keys@);
    let sorted = crate::order::sorted_dedup(keys);
    let mut r: Vec<(String, usize)> = Vec::new();
    let mut i: usize = 0;
    while i < sorted.len()
        invariant
            i <= sorted@.len(),
            kv == string_views(keys@),
            counts_view(r@).map_values(|p: (Seq<char>, nat)| p.0) == string_views(sorted@).take(i as int),
            forall|j: int| 0 <= j < i ==> (#[trigger] counts_view(r@)[j]).1 == occurrences(kv, counts_view(r@)[j].0),
            r@.len() == i,
        decreases sorted.len() - i,
    {
        let n = occurrences_exec(keys, sorted[i].as_str());
        let ghost before = counts_view(r@);
        r.push((sorted[i].clone(), n));
        assert(counts_view(r@) =~= before.push((sorted@[i as int]@, n as nat)));
        assert(counts_view(r@).map_values(|p: (Seq<char>, nat)| p.0) =~= before.map_values(|p: (Seq<char>, nat)| p.0).push(
            sorted@[i as int]@));
        assert(string_views(sorted@).take(i + 1) =~= string_views(sorted@).take(i as int).push(sorted@[i as int]@));
        i = i + 1;
    }
    assert(string_views(sorted@).take(sorted.len() as int) =~= string_views(sorted@));
    proof {
        let rv = counts_view(r@);
        assert(tallied(rv, kv));
        lemma_tally_unique(rv, tally(kv), kv);
    }
    r
}

/// `  <n, five wide> <label>`.
fn count_line_exec(n: usize, label: &str) -> (r: String)
    ensures
        r@ == count_line(n as nat, label@),
{
    let d = crate::text::dec_chars(n as u64);
    let mut v: Vec<char> = Vec::new();
    crate::text::push_str_chars(&mut v, "  ");
    let ghost v0 = v@;
    let mut k: usize = d.len();
    while k < 5
        invariant
            d@.len() <= k,
            d@.len() <= 5 ==> k <= 5,
            d@.len() > 5 ==> k == d@.len(),
            v@ == v0 + Seq::new((k - d@.len()) as nat, |i: int| ' '),
        decreases 5 - k,
    {
        v.push(' ');
        assert(Seq::new((k + 1 - d@.len()) as nat, |i: int| ' ') =~= Seq::new((k - d@.len()) as nat, |i: int| ' ').push(' '));
        k = k + 1;
    }
    crate::text::push_chars(&mut v, &d);
    crate::text::push_str_chars(&mut v, " ");
    crate::text::push_str_chars(&mut v, label);
    proof {
        reveal_strlit("  ");
        reveal_strlit(" ");
        if d@.len() >= 5 {
            assert(Seq::new((d@.len() - d@.len()) as nat, |i: int| ' ') =~= Seq::<char>::empty());
        }
    }
    assert(v@ =~= count_line(n as nat, label@));
    crate::text::from_chars(&v)
}

fn count_lines_exec(t: &Vec<(String, usize)>, out: &mut Vec<String>)
    ensures
        string_views(final(out)@) == string_views(old(out)@) + count_lines(counts_view(t@)),
{
    let ghost o0 = string_views(out@);
    let mut i: usize = 0;
    while i < t.len()
        invariant
            i <= t@.len(),
            string_views(out@) == o0 + count_lines(counts_view(t@)).take(i as int),
        decreases t.len() - i,
    {
        let ghost before = string_views(out@);
        let line = count_line_exec(t[i].1, t[i].0.as_str());
        out.push(line);
        assert(string_views(out@) =~= before.push(count_lines(counts_view(t@))[i as int]));
        assert(count_lines(counts_view(t@)).take(i + 1) =~= count_lines(counts_view(t@)).take(i as int).push(
            count_lines(counts_view(t@))[i as int]));
        i = i + 1;
    }
    assert(count_lines(counts_view(t@)).take(t.len() as int) =~= count_lines(counts_view(t@)));
}

fn reason_key_exec(r: &SkipReason) -> (k: String)
    ensures
        k@ == reason_key(*r),
{
    match r {
        SkipReason::TypeOff => String::from_str("type off (import: false)"),
        SkipReason::Filtered => String::from_str("filtered by --only/--exclude"),
        SkipReason::Unmapped(_) => String::from_str("unmapped (no import-config row fits)"),
        SkipReason::ParentNotFound(_) => String::from_str("parent not imported"),
        SkipReason::PlatformOwned(p) => {
            let mut k = String::from_str("platform-owned, skip pattern `");
            k.append(p.as_str());
            k.append("`");
            k
        },
        SkipReason::NotActive(st) => {
            let mut k = String::from_str("project not ACTIVE (");
            k.append(st.as_str());
            k.append(")");
            k
        },
    }
}

fn any_filtered_exec(skipped: &Vec<Skipped>) -> (b: bool)
    ensures
        b == any_filtered(skipped@),
{
    let mut i: usize = 0;
    while i < skipped.len()
        invariant
            i <= skipped@.len(),
            forall|j: int| 0 <= j < i ==> !((#[trigger] skipped@[j]).reason is Filtered),
        decreases skipped.len() - i,
    {
        if skipped[i].reason.is_filtered() {
            return true;
        }
        i = i + 1;
    }
    false
}

fn push_str_line(out: &mut Vec<String>, line: String)
    ensures
        string_views(final(out)@) == string_views(old(out)@).push(line@),
{
    let ghost o0 = string_views(out@);
    out.push(line);
    assert(string_views(out@) =~= o0.push(line@));
}

/// The lines of the losses and of the dropped vocabulary.
fn dropped_lines(ds: &Vec<DroppedAttr>, verbose: bool, out: &mut Vec<String>)
    ensures
        string_views(final(out)@) == string_views(old(out)@) + lost_part(ds@) + vocabulary_part(ds@, verbose),
{
    let ghost dv = ds@;
    let mut lost_lines: Vec<String> = Vec::new();
    let mut vocab_lines: Vec<String> = Vec::new();
    let mut vocab_types: Vec<String> = Vec::new();
    let mut i: usize = 0;
    while i < ds.len()
        invariant
            i <= ds@.len(),
            dv == ds@,
            string_views(lost_lines@) == dropped_where(dv.take(i as int), true).map_values(|d: DroppedAttr| lost_line(d)),
            string_views(vocab_lines@) == dropped_where(dv.take(i as int), false).map_values(|d: DroppedAttr| vocabulary_line(d)),
            string_views(vocab_types@) == dropped_where(dv.take(i as int), false).map_values(|d: DroppedAttr| d.tf_type@),
        decreases ds.len() - i,
    {
        assert(dv.take(i + 1).drop_last() =~= dv.take(i as int));
        assert(dv.take(i + 1).last() == ds@[i as int]);
        let d = &ds[i];
        let mut line: Vec<char> = Vec::new();
        crate::text::push_str_chars(&mut line, "  - ");
        crate::text::push_str_chars(&mut line, d.tf_type.as_str());
        crate::text::push_str_chars(&mut line, " ");
        crate::text::push_str_chars(&mut line, d.what.as_str());
        crate::text::push_str_chars(&mut line, " .");
        crate::text::push_str_chars(&mut line, d.path.as_str());
        match &d.why {
            DropReason::NotCarried(w) => {
                crate::text::push_str_chars(&mut line, " — ");
                crate::text::push_str_chars(&mut line, w.as_str());
                assert(line@ =~= lost_line(*d));
                let ghost before = string_views(lost_lines@);
                lost_lines.push(crate::text::from_chars(&line));
                assert(string_views(lost_lines@) =~= before.push(lost_line(*d)));
                assert(dropped_where(dv.take(i + 1), false) == dropped_where(dv.take(i as int), false));
            },
            DropReason::Vocabulary => {
                assert(line@ =~= vocabulary_line(*d));
                let ghost b1 = string_views(vocab_lines@);
                let ghost b2 = string_views(vocab_types@);
                vocab_lines.push(crate::text::from_chars(&line));
                vocab_types.push(d.tf_type.clone());
                assert(string_views(vocab_lines@) =~= b1.push(vocabulary_line(*d)));
                assert(string_views(vocab_types@) =~= b2.push(d.tf_type@));
                assert(dropped_where(dv.take(i + 1), true) == dropped_where(dv.take(i as int), true));
            },
        }
        i = i + 1;
    }
    assert(dv.take(ds.len() as int) =~= dv);
    let ghost o0 = string_views(out@);
    if lost_lines.len() > 0 {
        let mut h: Vec<char> = Vec::new();
        crate::text::push_str_chars(&mut h, "import: ");
        crate::text::push_chars(&mut h, &crate::text::dec_chars(lost_lines.len() as u64));
        crate::text::push_str_chars(&mut h,
            " attribute(s) the provider schema names are NOT in the estate — an apply would reset them on the live resource:");
        push_str_line(out, crate::text::from_chars(&h));
        let mut j: usize = 0;
        let ghost o1 = string_views(out@);
        while j < lost_lines.len()
            invariant
                j <= lost_lines@.len(),
                string_views(out@) == o1 + string_views(lost_lines@).take(j as int),
            decreases lost_lines.len() - j,
        {
            let ghost before = string_views(out@);
            push_str_line(out, lost_lines[j].clone());
            assert(string_views(lost_lines@).take(j + 1) =~= string_views(lost_lines@).take(j as int).push(lost_lines@[j as int]@));
            j = j + 1;
        }
        assert(string_views(lost_lines@).take(lost_lines.len() as int) =~= string_views(lost_lines@));
        assert(string_views(out@) =~= o0 + lost_part(dv));
    } else {
        assert(lost_part(dv) =~= Seq::<Seq<char>>::empty());
        assert(string_views(out@) =~= o0 + lost_part(dv));
    }
    let ghost o2 = string_views(out@);
    if vocab_lines.len() > 0 {
        let mut h: Vec<char> = Vec::new();
        crate::text::push_str_chars(&mut h, "import: ");
        crate::text::push_chars(&mut h, &crate::text::dec_chars(vocab_lines.len() as u64));
        crate::text::push_str_chars(&mut h, " attribute(s) dropped — not in the provider schema (API vocabulary; would not plan):");
        push_str_line(out, crate::text::from_chars(&h));
        let t = tally_exec(&vocab_types);
        count_lines_exec(&t, out);
        if verbose {
            let mut j: usize = 0;
            let ghost o1 = string_views(out@);
            while j < vocab_lines.len()
                invariant
                    j <= vocab_lines@.len(),
                    string_views(out@) == o1 + string_views(vocab_lines@).take(j as int),
                decreases vocab_lines.len() - j,
            {
                push_str_line(out, vocab_lines[j].clone());
                assert(string_views(vocab_lines@).take(j + 1) =~= string_views(vocab_lines@).take(j as int).push(
                    vocab_lines@[j as int]@));
                j = j + 1;
            }
            assert(string_views(vocab_lines@).take(vocab_lines.len() as int) =~= string_views(vocab_lines@));
        }
        assert(string_views(out@) =~= o2 + vocabulary_part(dv, verbose));
    } else {
        assert(vocabulary_part(dv, verbose) =~= Seq::<Seq<char>>::empty());
        assert(string_views(out@) =~= o2 + vocabulary_part(dv, verbose));
    }
}

/// The children of filtered parents, one line per pair of types, in order.
fn left_lines(skipped: &Vec<Skipped>, filtered_off: &Vec<String>, out: &mut Vec<String>)
    ensures
        string_views(final(out)@) == string_views(old(out)@) + left_part(skipped@, string_views(filtered_off@)),
{
    let ghost sk = skipped@;
    let ghost fo = string_views(filtered_off@);
    let lo = parents_left_out(skipped.as_slice(), filtered_off.as_slice());
    let mut keys: Vec<SortKey> = Vec::new();
    let mut i: usize = 0;
    while i < lo.rows.len()
        invariant
            i <= lo.rows@.len(),
            keys@.len() == i,
            forall|j: int| 0 <= j < i ==> #[trigger] key_view(keys@[j]) == (0u8, 0u8, lo.rows@[j].0@, lo.rows@[j].1@),
        decreases lo.rows.len() - i,
    {
        keys.push(SortKey { first: 0, second: 0, third: lo.rows[i].0.clone(), fourth: lo.rows[i].1.clone() });
        i = i + 1;
    }
    let ghost kv = key_views(keys@);
    proof {
        crate::order::lemma_stable_order(kv, keys@.len() as nat);
    }
    let ord = crate::order::stable_sort_positions(&keys);
    let ghost so = stable_order(kv, keys@.len() as nat);
    let ghost pairs = so.map_values(|x: int| row_key(lo.rows@[x]));
    proof {
        assert forall|p: int, q: int| 0 <= p < q < pairs.len() implies pair_lt(#[trigger] pairs[p], #[trigger] pairs[q]) by {
            let a = so[p];
            let b = so[q];
            assert(!key_lt(kv[b], kv[a]));
            assert(a != b);
            assert(row_key(lo.rows@[a]) != row_key(lo.rows@[b]));
            crate::order::lemma_key_total(kv[a], kv[b]);
        }
        assert forall|c: Seq<char>, p: Seq<char>| #[trigger] pairs.contains((c, p)) <==> left_out_count(sk, fo, sk, c, p) > 0 by {
            if pairs.contains((c, p)) {
                let x = choose|x: int| 0 <= x < pairs.len() && pairs[x] == (c, p);
                let j = so[x];
                assert(lo.rows@[j].2 as nat == left_out_count(sk, fo, sk, lo.rows@[j].0@, lo.rows@[j].1@));
            }
            if left_out_count(sk, fo, sk, c, p) > 0 {
                let j = choose|j: int| 0 <= j < lo.rows@.len() && row_key(lo.rows@[j]) == (c, p);
                crate::order::lemma_permutation_onto(so, lo.rows@.len() as nat, j);
                let x = choose|x: int| 0 <= x < so.len() && so[x] == j;
                assert(pairs[x] == (c, p));
            }
        }
        assert(pairs_sorted(pairs) && forall|c: Seq<char>, p: Seq<char>| #[trigger] pairs.contains((c, p))
            <==> left_out_count(sk, fo, sk, c, p) > 0);
        let lp = left_pairs(sk, fo);
        assert(pairs_sorted(lp) && forall|c: Seq<char>, p: Seq<char>| #[trigger] lp.contains((c, p))
            <==> left_out_count(sk, fo, sk, c, p) > 0);
        assert forall|x: (Seq<char>, Seq<char>)| pairs.contains(x) <==> lp.contains(x) by {
            assert(pairs.contains((x.0, x.1)) <==> left_out_count(sk, fo, sk, x.0, x.1) > 0);
            assert(lp.contains((x.0, x.1)) <==> left_out_count(sk, fo, sk, x.0, x.1) > 0);
        }
        lemma_pairs_unique(pairs, lp);
    }
    let ghost o0 = string_views(out@);
    let ghost want = left_part(sk, fo);
    let mut j: usize = 0;
    while j < ord.len()
        invariant
            j <= ord@.len(),
            ord@.map_values(|x: usize| x as int) == so,
            so.len() == lo.rows@.len(),
            permutation_of(so, lo.rows@.len() as nat),
            pairs == so.map_values(|x: int| row_key(lo.rows@[x])),
            pairs == left_pairs(sk, fo),
            want == left_part(sk, fo),
            lo.counts(sk, fo, sk),
            string_views(out@) == o0 + want.take(j as int),
        decreases ord.len() - j,
    {
        let x = ord[j];
        assert(so[j as int] == x as int);
        let row = &lo.rows[x];
        let mut line: Vec<char> = Vec::new();
        crate::text::push_str_chars(&mut line, "import: ");
        crate::text::push_chars(&mut line, &crate::text::dec_chars(row.2 as u64));
        crate::text::push_str_chars(&mut line, " ");
        crate::text::push_str_chars(&mut line, row.0.as_str());
        crate::text::push_str_chars(&mut line, " need ");
        crate::text::push_str_chars(&mut line, row.1.as_str());
        crate::text::push_str_chars(&mut line, ", which --only/--exclude left out — add ");
        crate::text::push_str_chars(&mut line, row.1.as_str());
        crate::text::push_str_chars(&mut line, " to --only");
        assert(lo.rows@[x as int].2 as nat == left_out_count(sk, fo, sk, lo.rows@[x as int].0@, lo.rows@[x as int].1@));
        assert(want[j as int] == left_line(pairs[j as int].0, pairs[j as int].1, left_out_count(sk, fo, sk, pairs[j as int].0,
            pairs[j as int].1)));
        assert(line@ =~= want[j as int]);
        push_str_line(out, crate::text::from_chars(&line));
        assert(want.take(j + 1) =~= want.take(j as int).push(want[j as int]));
        j = j + 1;
    }
    assert(want.take(ord.len() as int) =~= want);
}

pub fn report_skipped(found: &Discovered, filtered_off: &Vec<String>, verbose: bool) -> (r: Vec<String>)
    ensures
        string_views(r@) == report_of(string_views(found.notes@), found.skipped@, found.dropped_attrs@,
            string_views(filtered_off@), verbose),
{
    let mut out: Vec<String> = Vec::new();
    let mut i: usize = 0;
    while i < found.notes.len()
        invariant
            i <= found.notes@.len(),
            string_views(out@) == string_views(found.notes@).take(i as int),
        decreases found.notes.len() - i,
    {
        push_str_line(&mut out, found.notes[i].clone());
        assert(string_views(found.notes@).take(i + 1) =~= string_views(found.notes@).take(i as int).push(found.notes@[i as int]@));
        i = i + 1;
    }
    assert(string_views(found.notes@).take(found.notes.len() as int) =~= string_views(found.notes@));
    dropped_lines(&found.dropped_attrs, verbose, &mut out);
    let ghost head = string_views(out@);
    let ghost sk = found.skipped@;
    let ghost fo = string_views(filtered_off@);
    if found.skipped.len() == 0 && filtered_off.len() == 0 {
        push_str_line(&mut out, String::from_str("import: nothing skipped — every resource the source had is in the estate."));
        return out;
    }
    left_lines(&found.skipped, filtered_off, &mut out);
    let ft = crate::order::sorted_dedup(filtered_off);
    proof {
        let c = filtered_types(fo);
        assert(sorted_set_of(string_views(ft@), fo));
        crate::order::lemma_sorted_set_unique(string_views(ft@), c);
    }
    let anyf = any_filtered_exec(&found.skipped);
    let total: u128 = if anyf { found.skipped.len() as u128 } else { found.skipped.len() as u128 + ft.len() as u128 };
    let mut h: Vec<char> = Vec::new();
    crate::text::push_str_chars(&mut h, "import: skipped ");
    crate::text::push_chars(&mut h, &crate::text::dec_chars_wide(total));
    crate::text::push_str_chars(&mut h, " resource(s):");
    assert(h@ =~= "import: skipped "@ + dec(skipped_total(sk, fo)) + " resource(s):"@);
    push_str_line(&mut out, crate::text::from_chars(&h));
    let mut keys: Vec<String> = Vec::new();
    if ft.len() > 0 && !anyf {
        let mut k: usize = 0;
        while k < ft.len()
            invariant
                k <= ft@.len(),
                string_views(keys@) == Seq::new(k as nat, |x: int| not_fetched()),
            decreases ft.len() - k,
        {
            let ghost before = string_views(keys@);
            let fnf = String::from_str("type(s) filtered by --only/--exclude, not fetched");
            assert(fnf@ == not_fetched());
            keys.push(fnf);
            assert(string_views(keys@) =~= before.push(not_fetched()));
            assert(string_views(keys@) =~= Seq::new((k + 1) as nat, |x: int| not_fetched()));
            k = k + 1;
        }
    }
    let ghost k0 = string_views(keys@);
    assert(k0 == (if filtered_types(fo).len() > 0 && !any_filtered(sk) {
        Seq::new(filtered_types(fo).len(), |x: int| not_fetched())
    } else {
        Seq::<Seq<char>>::empty()
    }));
    let mut j: usize = 0;
    while j < found.skipped.len()
        invariant
            j <= found.skipped@.len(),
            sk == found.skipped@,
            string_views(keys@) == k0 + sk.take(j as int).map_values(|s: Skipped| reason_key(s.reason)),
        decreases found.skipped.len() - j,
    {
        let ghost before = string_views(keys@);
        let rk = reason_key_exec(&found.skipped[j].reason);
        keys.push(rk);
        assert(string_views(keys@) =~= before.push(reason_key(sk[j as int].reason)));
        assert(sk.take(j + 1).map_values(|s: Skipped| reason_key(s.reason)) =~= sk.take(j as int).map_values(
            |s: Skipped| reason_key(s.reason)).push(reason_key(sk[j as int].reason)));
        j = j + 1;
    }
    assert(sk.take(found.skipped.len() as int) =~= sk);
    assert(string_views(keys@) == reason_keys(sk, fo));
    let t = tally_exec(&keys);
    count_lines_exec(&t, &mut out);
    if verbose && ft.len() > 0 {
        let mut line = crate::text::to_chars("  filtered type(s): ");
        crate::text::push_chars(&mut line, &crate::text::join_strings(&ft, ", "));
        assert(line@ =~= "  filtered type(s): "@ + join(filtered_types(fo), ", "@));
        push_str_line(&mut out, crate::text::from_chars(&line));
    }
    if verbose && found.skipped.len() > 0 {
        let mut sks: Vec<SortKey> = Vec::new();
        let mut x: usize = 0;
        while x < found.skipped.len()
            invariant
                x <= found.skipped@.len(),
                sks@.len() == x,
                forall|y: int| 0 <= y < x ==> #[trigger] key_view(sks@[y]) == (0u8, 0u8, found.skipped@[y].tf_type@,
                    found.skipped@[y].what@),
            decreases found.skipped.len() - x,
        {
            sks.push(SortKey { first: 0, second: 0, third: found.skipped[x].tf_type.clone(), fourth: found.skipped[x].what.clone() });
            x = x + 1;
        }
        assert(key_views(sks@) =~= sk.map_values(|s: Skipped| (0u8, 0u8, s.tf_type@, s.what@)));
        proof {
            crate::order::lemma_stable_order(key_views(sks@), sks@.len() as nat);
        }
        let ord = crate::order::stable_sort_positions(&sks);
        let ghost so = skipped_order(sk);
        let ghost o1 = string_views(out@);
        let mut q: usize = 0;
        while q < ord.len()
            invariant
                q <= ord@.len(),
                ord@.map_values(|z: usize| z as int) == so,
                so == skipped_order(sk),
                permutation_of(so, sk.len() as nat),
                sk == found.skipped@,
                string_views(out@) == o1 + so.map_values(|i: int| skipped_line(sk[i])).take(q as int),
            decreases ord.len() - q,
        {
            let i = ord[q];
            assert(so[q as int] == i as int);
            let s = &found.skipped[i];
            let mut line: Vec<char> = Vec::new();
            crate::text::push_str_chars(&mut line, "  - ");
            crate::text::push_str_chars(&mut line, s.tf_type.as_str());
            crate::text::push_str_chars(&mut line, " ");
            crate::text::push_str_chars(&mut line, s.what.as_str());
            crate::text::push_str_chars(&mut line, " — ");
            let why = s.reason.describe();
            crate::text::push_str_chars(&mut line, why.as_str());
            assert(line@ =~= skipped_line(sk[i as int]));
            push_str_line(&mut out, crate::text::from_chars(&line));
            assert(so.map_values(|i: int| skipped_line(sk[i])).take(q + 1) =~= so.map_values(|i: int| skipped_line(sk[i])).take(
                q as int).push(skipped_line(sk[i as int])));
            q = q + 1;
        }
        assert(so.map_values(|i: int| skipped_line(sk[i])).take(ord.len() as int) =~= so.map_values(|i: int| skipped_line(sk[i])));
    } else {
        push_str_line(&mut out, String::from_str(
            "  (--verbose lists every one; `import: false` rows, `--all`, `--only` and `--exclude` are the levers)"));
    }
    assert(string_views(out@) =~= report_of(string_views(found.notes@), sk, found.dropped_attrs@, fo, verbose));
    out
}

} // verus!
