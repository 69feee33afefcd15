//! `satz adopt`: bringing resources the estate declares, and that already
//! exist live, under Terraform management. What is decided here: how a value
//! a resolution needs is read off the emission manifest (a literal, or a
//! reference followed to what it names), what a resolution's outcome means
//! for the resources inside it, which renamed blocks are state moves rather
//! than imports, the adopt table and its headline, and where a derived id is
//! written back into the declaring file.

use vstd::prelude::*;
use vstd::string::*;
use crate::config::{row_of, DiscoveryConfig};
use crate::discovery::{strip_all_prefix, trim_start_matches};
use crate::text::{debug_quote, debug_str};
use crate::order::{permutation_of, stable_order, SortKey};
use crate::text::{
    contains_seq, dec, find, from_chars, join, join_chars, push_chars, push_str_chars, rfind, slice_chars, str_eq,
    to_chars, views,
};

verus! {

// ---------------------------------------------------------------------------
// Outcomes
// ---------------------------------------------------------------------------

/// What adopt found for one declared resource.
#[derive(Debug, Clone, PartialEq, Eq)]
pub enum Outcome {
    /// The estate already carries an `"import-id"` for it.
    AlreadyAdopted(String),
    /// Found live, or its id is user-chosen and was rendered from the rule
    /// (`verified: false` — existence is not known offline).
    Resolved { id: String, verified: bool },
    /// A managed org-policy constraint the organisation has never had: it must
    /// be activated before it can be imported.
    NeedsActivation { id: String, enforce: Option<bool> },
    /// Looked up, provably absent: `apply` will create it.
    OnApply,
    /// Its parent is not live — it will be created together with the parent.
    ParentOnApply(String),
    /// More than one live candidate. Never guessed.
    Ambiguous(Vec<String>),
    /// A rule exists but needs a lookup this version cannot do yet.
    NeedsLookup(String),
    /// No adoption rule for the type.
    NoRule,
    /// A template placeholder or a parent reference could not be resolved.
    Unresolvable(String),
    /// The lookup itself failed.
    Failed(String),
    /// Filtered out by `--only`.
    Skipped,
}

#[derive(Debug, Clone, PartialEq, Eq)]
pub struct Resolution {
    pub address: String,
    pub tf_type: String,
    /// What it was matched on (display name, email, constraint, or the rendered template).
    pub natural_key: String,
    pub outcome: Outcome,
    /// The declaring file and line.
    pub origin: Option<(String, u32)>,
    /// For org policies: (parent, constraint).
    pub org_policy: Option<(String, String)>,
    /// A second line the table prints under the verdict.
    pub note: Option<String>,
}

/// The live id an outcome carries, when it carries one.
pub open spec fn outcome_id(o: Outcome) -> Option<Seq<char>> {
    match o {
        Outcome::Resolved { id, .. } => Some(id@),
        Outcome::NeedsActivation { id, .. } => Some(id@),
        Outcome::AlreadyAdopted(id) => Some(id@),
        _ => None,
    }
}

fn outcome_id_exec(o: &Outcome) -> (r: Option<&String>)
    ensures
        match r {
            Some(id) => outcome_id(*o) == Some(id@),
            None => outcome_id(*o) is None,
        },
{
    match o {
        Outcome::Resolved { id, .. } => Some(id),
        Outcome::NeedsActivation { id, .. } => Some(id),
        Outcome::AlreadyAdopted(id) => Some(id),
        _ => None,
    }
}

// ---------------------------------------------------------------------------
// What the state manages
// ---------------------------------------------------------------------------

/// What a Terraform state holds, as adopt reads it: each managed object's
/// address, type and live id, and the addresses whose org policy holds rules.
#[derive(Debug, Clone)]
pub struct StateIndex {
    pub objects: Vec<(String, String, String)>,
    pub with_rules: Vec<String>,
}

pub open spec fn object_views(v: Seq<(String, String, String)>) -> Seq<(Seq<char>, Seq<char>, Seq<char>)> {
    v.map_values(|o: (String, String, String)| (o.0@, o.1@, o.2@))
}

/// The state manages `address`.
pub open spec fn manages(st: StateIndex, address: Seq<char>) -> bool {
    exists|i: int| 0 <= i < st.objects@.len() && (#[trigger] st.objects@[i]).0@ == address
}

/// The first object of type `t` with live id `id`, by position.
pub open spec fn object_at(objs: Seq<(String, String, String)>, t: Seq<char>, id: Seq<char>) -> Option<int>
    decreases objs.len(),
{
    if objs.len() == 0 {
        None
    } else {
        match object_at(objs.drop_last(), t, id) {
            Some(i) => Some(i),
            None => if objs.last().1@ == t && objs.last().2@ == id {
                Some(objs.len() - 1)
            } else {
                None
            },
        }
    }
}

/// The address the state manages the object of type `t` with live id `id` under.
pub open spec fn address_of(st: StateIndex, t: Seq<char>, id: Seq<char>) -> Option<Seq<char>> {
    match object_at(st.objects@, t, id) {
        Some(i) => Some(st.objects@[i].0@),
        None => None,
    }
}

pub open spec fn holds_rules(st: StateIndex, address: Seq<char>) -> bool {
    exists|i: int| 0 <= i < st.with_rules@.len() && (#[trigger] st.with_rules@[i])@ == address
}

proof fn lemma_object_at(objs: Seq<(String, String, String)>, t: Seq<char>, id: Seq<char>)
    ensures
        match object_at(objs, t, id) {
            Some(i) => 0 <= i < objs.len() && objs[i].1@ == t && objs[i].2@ == id
                && forall|j: int| 0 <= j < i ==> !((#[trigger] objs[j]).1@ == t && objs[j].2@ == id),
            None => forall|j: int| 0 <= j < objs.len() ==> !((#[trigger] objs[j]).1@ == t && objs[j].2@ == id),
        },
    decreases objs.len(),
{
    if objs.len() > 0 {
        lemma_object_at(objs.drop_last(), t, id);
        assert forall|j: int| 0 <= j < objs.len() - 1 implies #[trigger] objs[j] == objs.drop_last()[j] by {}
    }
}

impl StateIndex {
    /// The index of a state holding these objects, `(address, type, id)`, none
    /// of whose policies hold rules.
    pub fn from_objects(objects: &[(&str, &str, &str)]) -> (r: StateIndex)
        ensures
            r.objects@.len() == objects@.len(),
            forall|i: int| 0 <= i < objects@.len() ==> (#[trigger] r.objects@[i]).0@ == objects@[i].0@
                && r.objects@[i].1@ == objects@[i].1@ && r.objects@[i].2@ == objects@[i].2@,
            r.with_rules@.len() == 0,
    {
        let mut v: Vec<(String, String, String)> = Vec::new();
        let mut i: usize = 0;
        while i < objects.len()
            invariant
                i <= objects.len(),
                v@.len() == i,
                forall|j: int| 0 <= j < i ==> (#[trigger] v@[j]).0@ == objects@[j].0@ && v@[j].1@ == objects@[j].1@
                    && v@[j].2@ == objects@[j].2@,
            decreases objects.len() - i,
        {
            let (a, t, id) = objects[i];
            v.push((String::from_str(a), String::from_str(t), String::from_str(id)));
            i = i + 1;
        }
        StateIndex { objects: v, with_rules: Vec::new() }
    }

    /// The same state, with the policies at these addresses holding rules too.
    pub fn with_rules(self, addresses: &[&str]) -> (r: StateIndex)
        ensures
            r.objects == self.objects,
            forall|a: Seq<char>| holds_rules(r, a) <==> (holds_rules(self, a) || exists|i: int| 0 <= i < addresses@.len() && (#[trigger] addresses@[i])@ == a),
    {
        let ghost before = self;
        let mut s = self;
        let mut i: usize = 0;
        while i < addresses.len()
            invariant
                i <= addresses.len(),
                s.objects == before.objects,
                s.with_rules@.len() == before.with_rules@.len() + i,
                forall|j: int| 0 <= j < before.with_rules@.len() ==> #[trigger] s.with_rules@[j] == before.with_rules@[j],
                forall|j: int| 0 <= j < i ==> (#[trigger] s.with_rules@[before.with_rules@.len() + j])@ == addresses@[j]@,
            decreases addresses.len() - i,
        {
            s.with_rules.push(String::from_str(addresses[i]));
            i = i + 1;
        }
        proof {
            let n = before.with_rules@.len();
            assert forall|a: Seq<char>| holds_rules(s, a) implies (holds_rules(before, a) || exists|i: int| 0 <= i < addresses@.len() && (#[trigger] addresses@[i])@ == a) by {
                let k = choose|k: int| 0 <= k < s.with_rules@.len() && (#[trigger] s.with_rules@[k])@ == a;
                if k < n {
                    assert(before.with_rules@[k]@ == a);
                } else {
                    let j = k - n;
                    assert(s.with_rules@[n + j]@ == addresses@[j]@);
                }
            }
            assert forall|a: Seq<char>| (holds_rules(before, a) || exists|i: int| 0 <= i < addresses@.len() && (#[trigger] addresses@[i])@ == a) implies holds_rules(s, a) by {
                if holds_rules(before, a) {
                    let k = choose|k: int| 0 <= k < before.with_rules@.len() && (#[trigger] before.with_rules@[k])@ == a;
                    assert(s.with_rules@[k]@ == a);
                } else {
                    let k = choose|k: int| 0 <= k < addresses@.len() && (#[trigger] addresses@[k])@ == a;
                    assert(s.with_rules@[n + k]@ == a);
                }
            }
        }
        s
    }

    /// Does the state manage this address?
    pub fn manages(&self, address: &str) -> (b: bool)
        ensures
            b == manages(*self, address@),
    {
        let mut i: usize = 0;
        while i < self.objects.len()
            invariant
                i <= self.objects@.len(),
                forall|j: int| 0 <= j < i ==> (#[trigger] self.objects@[j]).0@ != address@,
            decreases self.objects.len() - i,
        {
            if str_eq(self.objects[i].0.as_str(), address) {
                return true;
            }
            i = i + 1;
        }
        false
    }

    /// The address the state manages an object of this type and live id under.
    pub fn address_of(&self, tf_type: &str, id: &str) -> (r: Option<&str>)
        ensures
            match r {
                Some(a) => address_of(*self, tf_type@, id@) == Some(a@),
                None => address_of(*self, tf_type@, id@) is None,
            },
    {
        proof {
            lemma_object_at(self.objects@, tf_type@, id@);
        }
        let mut i: usize = 0;
        while i < self.objects.len()
            invariant
                i <= self.objects@.len(),
                forall|j: int| 0 <= j < i ==> !((#[trigger] self.objects@[j]).1@ == tf_type@ && self.objects@[j].2@ == id@),
                match object_at(self.objects@, tf_type@, id@) {
                    Some(k) => 0 <= k < self.objects@.len() && self.objects@[k].1@ == tf_type@ && self.objects@[k].2@ == id@
                        && forall|j: int| 0 <= j < k ==> !((#[trigger] self.objects@[j]).1@ == tf_type@ && self.objects@[j].2@ == id@),
                    None => forall|j: int| 0 <= j < self.objects@.len() ==> !((#[trigger] self.objects@[j]).1@ == tf_type@ && self.objects@[j].2@ == id@),
                },
            decreases self.objects.len() - i,
        {
            if str_eq(self.objects[i].1.as_str(), tf_type) && str_eq(self.objects[i].2.as_str(), id) {
                proof {
                    match object_at(self.objects@, tf_type@, id@) {
                        Some(k) => {
                            if k < i {
                            } else if k > i {
                                assert(!((self.objects@[i as int]).1@ == tf_type@ && self.objects@[i as int].2@ == id@));
                            }
                        },
                        None => {
                            assert(!((self.objects@[i as int]).1@ == tf_type@ && self.objects@[i as int].2@ == id@));
                        },
                    }
                }
                return Some(self.objects[i].0.as_str());
            }
            i = i + 1;
        }
        proof {
            match object_at(self.objects@, tf_type@, id@) {
                Some(k) => {
                    assert((self.objects@[k]).1@ == tf_type@ && self.objects@[k].2@ == id@);
                },
                None => {},
            }
        }
        None
    }

    /// Does the live org policy at this address hold rules?
    pub fn holds_rules(&self, address: &str) -> (b: bool)
        ensures
            b == holds_rules(*self, address@),
    {
        let mut i: usize = 0;
        while i < self.with_rules.len()
            invariant
                i <= self.with_rules@.len(),
                forall|j: int| 0 <= j < i ==> (#[trigger] self.with_rules@[j])@ != address@,
            decreases self.with_rules.len() - i,
        {
            if str_eq(self.with_rules[i].as_str(), address) {
                return true;
            }
            i = i + 1;
        }
        false
    }
}

impl Default for StateIndex {
    fn default() -> (r: Self)
        ensures
            r.objects@.len() == 0,
            r.with_rules@.len() == 0,
    {
        StateIndex { objects: Vec::new(), with_rules: Vec::new() }
    }
}

// ---------------------------------------------------------------------------
// Moves
// ---------------------------------------------------------------------------

/// The address the same live object is already managed under, when the
/// estate now declares it somewhere else: not managed at its own address, an
/// id in hand, and the state holding an object of the same type and that
/// exact id under another address. Anything less is not evidence of sameness.
pub open spec fn moved_from_of(r: Resolution, st: StateIndex) -> Option<Seq<char>> {
    if manages(st, r.address@) {
        None
    } else {
        match outcome_id(r.outcome) {
            Some(id) => match address_of(st, r.tf_type@, id) {
                Some(old) => if old != r.address@ {
                    Some(old)
                } else {
                    None
                },
                None => None,
            },
            None => None,
        }
    }
}

pub fn moved_from<'a>(r: &Resolution, state: &'a StateIndex) -> (m: Option<&'a str>)
    ensures
        match m {
            Some(old) => moved_from_of(*r, *state) == Some(old@),
            None => moved_from_of(*r, *state) is None,
        },
{
    if state.manages(r.address.as_str()) {
        return None;
    }
    let id = match outcome_id_exec(&r.outcome) {
        Some(id) => id,
        None => return None,
    };
    match state.address_of(r.tf_type.as_str(), id.as_str()) {
        Some(old) => if str_eq(old, r.address.as_str()) {
            None
        } else {
            Some(old)
        },
        None => None,
    }
}

/// The addresses the estate declares: every resolution's, but the ones `--only` left out.
pub open spec fn declared_address(rs: Seq<Resolution>, a: Seq<char>) -> bool {
    exists|i: int| 0 <= i < rs.len() && !((#[trigger] rs[i]).outcome is Skipped) && rs[i].address@ == a
}

/// The moves the estate itself blocks, `(new, old)`, in order: the estate
/// still declares the old address, so one live object has two declarations.
pub open spec fn conflicts_of(rs: Seq<Resolution>, all: Seq<Resolution>, st: StateIndex) -> Seq<(Seq<char>, Seq<char>)>
    decreases rs.len(),
{
    if rs.len() == 0 {
        seq![]
    } else {
        let prev = conflicts_of(rs.drop_last(), all, st);
        let r = rs.last();
        match moved_from_of(r, st) {
            Some(old) => if declared_address(all, old) {
                prev.push((r.address@, old))
            } else {
                prev
            },
            None => prev,
        }
    }
}

pub open spec fn pair_views(v: Seq<(String, String)>) -> Seq<(Seq<char>, Seq<char>)> {
    v.map_values(|p: (String, String)| (p.0@, p.1@))
}

fn is_declared_address(resolutions: &[Resolution], a: &str) -> (b: bool)
    ensures
        b == declared_address(resolutions@, a@),
{
    let mut i: usize = 0;
    while i < resolutions.len()
        invariant
            i <= resolutions.len(),
            forall|j: int| 0 <= j < i ==> !(!((#[trigger] resolutions@[j]).outcome is Skipped) && resolutions@[j].address@ == a@),
        decreases resolutions.len() - i,
    {
        let skipped = match resolutions[i].outcome {
            Outcome::Skipped => true,
            _ => false,
        };
        if !skipped && str_eq(resolutions[i].address.as_str(), a) {
            return true;
        }
        i = i + 1;
    }
    false
}

/// Moves the estate itself blocks, as `(new address, old address)` pairs.
pub fn move_conflicts(resolutions: &[Resolution], state: &StateIndex) -> (r: Vec<(String, String)>)
    ensures
        pair_views(r@) == conflicts_of(resolutions@, resolutions@, *state),
{
    let mut out: Vec<(String, String)> = Vec::new();
    let mut i: usize = 0;
    while i < resolutions.len()
        invariant
            i <= resolutions.len(),
            pair_views(out@) == conflicts_of(resolutions@.take(i as int), resolutions@, *state),
        decreases resolutions.len() - i,
    {
        proof {
            assert(resolutions@.take(i + 1).drop_last() =~= resolutions@.take(i as int));
            assert(resolutions@.take(i + 1).last() == resolutions@[i as int]);
        }
        let r = &resolutions[i];
        match moved_from(r, state) {
            Some(old) => {
                if is_declared_address(resolutions, old) {
                    let ghost before = pair_views(out@);
                    out.push((r.address.clone(), String::from_str(old)));
                    assert(pair_views(out@) =~= before.push((r.address@, old@)));
                }
            },
            None => {},
        }
        i = i + 1;
    }
    assert(resolutions@.take(resolutions.len() as int) =~= resolutions@);
    out
}

// ---------------------------------------------------------------------------
// The headline
// ---------------------------------------------------------------------------

/// Which count of the headline an outcome falls in: verified and derived
/// imports, activations, adopted, on apply, on apply with the project,
/// ambiguous, without a rule, unresolvable, failed; anything else none.
pub open spec fn kind_of(o: Outcome) -> int {
    match o {
        Outcome::Resolved { verified, .. } => if verified { 0 } else { 1 },
        Outcome::NeedsActivation { .. } => 2,
        Outcome::AlreadyAdopted(_) => 3,
        Outcome::OnApply => 4,
        Outcome::ParentOnApply(_) => 5,
        Outcome::Ambiguous(_) => 6,
        Outcome::NoRule => 7,
        Outcome::Unresolvable(_) => 8,
        Outcome::Failed(_) => 9,
        _ => 10,
    }
}

fn kind_exec(o: &Outcome) -> (k: usize)
    ensures
        k as int == kind_of(*o),
{
    match o {
        Outcome::Resolved { verified, .. } => if *verified { 0 } else { 1 },
        Outcome::NeedsActivation { .. } => 2,
        Outcome::AlreadyAdopted(_) => 3,
        Outcome::OnApply => 4,
        Outcome::ParentOnApply(_) => 5,
        Outcome::Ambiguous(_) => 6,
        Outcome::NoRule => 7,
        Outcome::Unresolvable(_) => 8,
        Outcome::Failed(_) => 9,
        _ => 10,
    }
}

/// How many of `rs` adopt would act on (the state does not manage them), are
/// not moves, and have an outcome of kind `k`.
pub open spec fn count_kind(rs: Seq<Resolution>, st: StateIndex, k: int) -> nat
    decreases rs.len(),
{
    if rs.len() == 0 {
        0
    } else {
        let r = rs.last();
        count_kind(rs.drop_last(), st, k) + if !manages(st, r.address@) && moved_from_of(r, st) is None && kind_of(r.outcome) == k {
            1nat
        } else {
            0nat
        }
    }
}

/// How many of `rs` are moves.
pub open spec fn count_moves(rs: Seq<Resolution>, st: StateIndex) -> nat
    decreases rs.len(),
{
    if rs.len() == 0 {
        0
    } else {
        count_moves(rs.drop_last(), st) + if moved_from_of(rs.last(), st) is Some { 1nat } else { 0nat }
    }
}

/// How many of `rs` the state already manages.
pub open spec fn count_managed(rs: Seq<Resolution>, st: StateIndex) -> nat
    decreases rs.len(),
{
    if rs.len() == 0 {
        0
    } else {
        count_managed(rs.drop_last(), st) + if manages(st, rs.last().address@) { 1nat } else { 0nat }
    }
}

/// The headline, counted over what adopt would act on: a resource the state
/// manages is counted once, as managed, and a move is not an import.
pub open spec fn summary_text(rs: Seq<Resolution>, st: StateIndex) -> Seq<char> {
    let c = |k: int| dec(count_kind(rs, st, k));
    "adopt: "@ + dec(count_kind(rs, st, 0) + count_kind(rs, st, 1)) + " to import ("@ + c(0) + " verified live, "@ + c(1)
        + " derived), "@ + dec(count_moves(rs, st)) + " to move (already in state under another address), "@ + c(2)
        + " need activation, "@ + c(3) + " already adopted, "@ + c(4) + " on apply, "@ + c(5) + " on apply with their project, "@
        + c(6) + " ambiguous, "@ + c(7) + " without a rule, "@ + c(8) + " unresolvable, "@ + c(9) + " failed, "@
        + dec(count_managed(rs, st)) + " already managed in the state"@
}

proof fn lemma_counts_bounded(rs: Seq<Resolution>, st: StateIndex)
    ensures
        count_moves(rs, st) <= rs.len(),
        count_managed(rs, st) <= rs.len(),
        forall|k: int| #[trigger] count_kind(rs, st, k) <= rs.len(),
        count_kind(rs, st, 0) + count_kind(rs, st, 1) <= rs.len(),
    decreases rs.len(),
{
    if rs.len() > 0 {
        lemma_counts_bounded(rs.drop_last(), st);
        assert forall|k: int| #[trigger] count_kind(rs, st, k) <= rs.len() by {
            assert(count_kind(rs.drop_last(), st, k) <= rs.drop_last().len());
        }
    }
}

fn push_count(out: &mut Vec<char>, n: usize)
    ensures
        final(out)@ == old(out)@ + dec(n as nat),
{
    let d = crate::text::dec_chars(n as u64);
    push_chars(out, &d);
}

/// The headline of the adopt run.
pub fn summary(resolutions: &[Resolution], in_state: &StateIndex) -> (s: String)
    ensures
        s@ == summary_text(resolutions@, *in_state),
{
    let ghost rs = resolutions@;
    let mut counts: Vec<usize> = vec![0, 0, 0, 0, 0, 0, 0, 0, 0, 0, 0];
    let mut moves: usize = 0;
    let mut managed: usize = 0;
    let mut i: usize = 0;
    while i < resolutions.len()
        invariant
            i <= rs.len(),
            rs == resolutions@,
            counts@.len() == 11,
            forall|k: int| 0 <= k < 11 ==> (#[trigger] counts@[k]) as nat == count_kind(rs.take(i as int), *in_state, k),
            moves as nat == count_moves(rs.take(i as int), *in_state),
            managed as nat == count_managed(rs.take(i as int), *in_state),
        decreases resolutions.len() - i,
    {
        proof {
            assert(rs.take(i + 1).drop_last() =~= rs.take(i as int));
            assert(rs.take(i + 1).last() == rs[i as int]);
            lemma_counts_bounded(rs.take(i as int), *in_state);
        }
        let r = &resolutions[i];
        if in_state.manages(r.address.as_str()) {
            managed = managed + 1;
        } else {
            match moved_from(r, in_state) {
                Some(_) => {
                    moves = moves + 1;
                },
                None => {
                    let k = kind_exec(&r.outcome);
                    let n = counts[k];
                    assert(n <= i);
                    counts.set(k, n + 1);
                },
            }
        }
        i = i + 1;
    }
    assert(rs.take(i as int) =~= rs);
    proof {
        lemma_counts_bounded(rs, *in_state);
    }
    let mut out: Vec<char> = Vec::new();
    push_str_chars(&mut out, "adopt: ");
    push_count(&mut out, counts[0] + counts[1]);
    push_str_chars(&mut out, " to import (");
    push_count(&mut out, counts[0]);
    push_str_chars(&mut out, " verified live, ");
    push_count(&mut out, counts[1]);
    push_str_chars(&mut out, " derived), ");
    push_count(&mut out, moves);
    push_str_chars(&mut out, " to move (already in state under another address), ");
    push_count(&mut out, counts[2]);
    push_str_chars(&mut out, " need activation, ");
    push_count(&mut out, counts[3]);
    push_str_chars(&mut out, " already adopted, ");
    push_count(&mut out, counts[4]);
    push_str_chars(&mut out, " on apply, ");
    push_count(&mut out, counts[5]);
    push_str_chars(&mut out, " on apply with their project, ");
    push_count(&mut out, counts[6]);
    push_str_chars(&mut out, " ambiguous, ");
    push_count(&mut out, counts[7]);
    push_str_chars(&mut out, " without a rule, ");
    push_count(&mut out, counts[8]);
    push_str_chars(&mut out, " unresolvable, ");
    push_count(&mut out, counts[9]);
    push_str_chars(&mut out, " failed, ");
    push_count(&mut out, managed);
    push_str_chars(&mut out, " already managed in the state");
    assert(out@ =~= summary_text(rs, *in_state));
    from_chars(&out)
}

/// A resolution that did not answer its question: a failed lookup, an
/// unresolvable or ambiguous resource, a type without a rule.
pub open spec fn unanswered_outcome(o: Outcome) -> bool {
    o is Failed || o is Unresolvable || o is Ambiguous || o is NoRule
}

pub open spec fn count_unanswered(rs: Seq<Resolution>, st: StateIndex) -> nat
    decreases rs.len(),
{
    if rs.len() == 0 {
        0
    } else {
        count_unanswered(rs.drop_last(), st) + if !manages(st, rs.last().address@) && unanswered_outcome(rs.last().outcome) {
            1nat
        } else {
            0nat
        }
    }
}

/// Rows that did not answer their question and that adopt would act on: a
/// resource the state already manages is skipped either way. Zero means the
/// table is complete; anything else is a non-zero exit.
pub fn unanswered(resolutions: &[Resolution], in_state: &StateIndex) -> (n: usize)
    ensures
        n as nat == count_unanswered(resolutions@, *in_state),
{
    let ghost rs = resolutions@;
    let mut n: usize = 0;
    let mut i: usize = 0;
    while i < resolutions.len()
        invariant
            i <= rs.len(),
            rs == resolutions@,
            n <= i,
            n as nat == count_unanswered(rs.take(i as int), *in_state),
        decreases resolutions.len() - i,
    {
        proof {
            assert(rs.take(i + 1).drop_last() =~= rs.take(i as int));
            assert(rs.take(i + 1).last() == rs[i as int]);
        }
        let r = &resolutions[i];
        let counts = match r.outcome {
            Outcome::Failed(_) | Outcome::Unresolvable(_) | Outcome::Ambiguous(_) | Outcome::NoRule => true,
            _ => false,
        };
        if counts && !in_state.manages(r.address.as_str()) {
            n = n + 1;
        }
        i = i + 1;
    }
    assert(rs.take(i as int) =~= rs);
    n
}

// ---------------------------------------------------------------------------
// The emission manifest, as adopt reads it
// ---------------------------------------------------------------------------

/// One resource the compile emits: its type and name, its literal attributes,
/// the attributes that are a reference to another resource (`google_T.L.A`),
/// the literal attributes of its nested blocks by dotted path, the import id
/// the estate already carries, where it was declared, and for an org policy
/// whether it is declared reset and what it enforces.
#[derive(Debug, Clone)]
pub struct EmittedResource {
    pub tf_type: String,
    pub name: String,
    pub attrs: Vec<(String, String)>,
    pub refs: Vec<(String, String)>,
    pub nested: Vec<(String, String)>,
    pub import_id: Option<String>,
    pub origin: Option<(String, u32)>,
    pub reset: bool,
    pub enforce: Option<bool>,
}

/// The resources the compile emits.
#[derive(Debug, Clone, Default)]
pub struct Manifest {
    pub resources: Vec<EmittedResource>,
}

/// `google_T.L`.
pub open spec fn address_of_resource(r: EmittedResource) -> Seq<char> {
    r.tf_type@ + "."@ + r.name@
}

impl EmittedResource {
    pub fn address(&self) -> (a: String)
        ensures
            a@ == address_of_resource(*self),
    {
        let mut a = self.tf_type.clone();
        a.append(".");
        a.append(self.name.as_str());
        a
    }
}

/// The first entry of `kv` under key `k`, by position.
pub open spec fn kv_index(kv: Seq<(String, String)>, k: Seq<char>) -> Option<int>
    decreases kv.len(),
{
    if kv.len() == 0 {
        None
    } else {
        match kv_index(kv.drop_last(), k) {
            Some(i) => Some(i),
            None => if kv.last().0@ == k {
                Some(kv.len() - 1)
            } else {
                None
            },
        }
    }
}

/// The value under key `k`.
pub open spec fn kv_get(kv: Seq<(String, String)>, k: Seq<char>) -> Option<Seq<char>> {
    match kv_index(kv, k) {
        Some(i) => Some(kv[i].1@),
        None => None,
    }
}

proof fn lemma_kv_index(kv: Seq<(String, String)>, k: Seq<char>)
    ensures
        match kv_index(kv, k) {
            Some(i) => 0 <= i < kv.len() && kv[i].0@ == k && forall|j: int| 0 <= j < i ==> (#[trigger] kv[j]).0@ != k,
            None => forall|j: int| 0 <= j < kv.len() ==> (#[trigger] kv[j]).0@ != k,
        },
    decreases kv.len(),
{
    if kv.len() > 0 {
        lemma_kv_index(kv.drop_last(), k);
        assert forall|j: int| 0 <= j < kv.len() - 1 implies #[trigger] kv[j] == kv.drop_last()[j] by {}
    }
}

proof fn lemma_kv_index_is(kv: Seq<(String, String)>, k: Seq<char>, i: int)
    requires
        0 <= i < kv.len(),
        kv[i].0@ == k,
        forall|j: int| 0 <= j < i ==> (#[trigger] kv[j]).0@ != k,
    ensures
        kv_index(kv, k) == Some(i),
{
    lemma_kv_index(kv, k);
    match kv_index(kv, k) {
        Some(m) => {
            if m < i {
            } else if m > i {
                assert(kv[i].0@ != k);
            }
        },
        None => {
            assert(kv[i].0@ != k);
        },
    }
}

/// The value under key `k`, when there is one.
pub fn get_value<'a>(kv: &'a Vec<(String, String)>, k: &str) -> (r: Option<&'a String>)
    ensures
        match r {
            Some(v) => kv_get(kv@, k@) == Some(v@),
            None => kv_get(kv@, k@) is None,
        },
{
    let mut i: usize = 0;
    while i < kv.len()
        invariant
            i <= kv@.len(),
            forall|j: int| 0 <= j < i ==> (#[trigger] kv@[j]).0@ != k@,
        decreases kv.len() - i,
    {
        if str_eq(kv[i].0.as_str(), k) {
            proof {
                lemma_kv_index_is(kv@, k@, i as int);
            }
            return Some(&kv[i].1);
        }
        i = i + 1;
    }
    proof {
        lemma_kv_index(kv@, k@);
        match kv_index(kv@, k@) {
            Some(m) => {
                assert(kv@[m].0@ == k@);
            },
            None => {},
        }
    }
    None
}

/// Is there an entry under key `k`?
pub open spec fn kv_has(kv: Seq<(String, String)>, k: Seq<char>) -> bool {
    kv_get(kv, k) is Some
}

/// The first resource of the manifest at address `a`, by position.
pub open spec fn resource_index(rs: Seq<EmittedResource>, a: Seq<char>) -> Option<int>
    decreases rs.len(),
{
    if rs.len() == 0 {
        None
    } else {
        match resource_index(rs.drop_last(), a) {
            Some(i) => Some(i),
            None => if address_of_resource(rs.last()) == a {
                Some(rs.len() - 1)
            } else {
                None
            },
        }
    }
}

pub open spec fn resource_at(m: Manifest, a: Seq<char>) -> Option<EmittedResource> {
    match resource_index(m.resources@, a) {
        Some(i) => Some(m.resources@[i]),
        None => None,
    }
}

proof fn lemma_resource_index(rs: Seq<EmittedResource>, a: Seq<char>)
    ensures
        match resource_index(rs, a) {
            Some(i) => 0 <= i < rs.len() && address_of_resource(rs[i]) == a
                && forall|j: int| 0 <= j < i ==> address_of_resource(#[trigger] rs[j]) != a,
            None => forall|j: int| 0 <= j < rs.len() ==> address_of_resource(#[trigger] rs[j]) != a,
        },
    decreases rs.len(),
{
    if rs.len() > 0 {
        lemma_resource_index(rs.drop_last(), a);
        assert forall|j: int| 0 <= j < rs.len() - 1 implies #[trigger] rs[j] == rs.drop_last()[j] by {}
    }
}

impl Manifest {
    /// The resource at an address.
    pub fn get(&self, address: &str) -> (r: Option<&EmittedResource>)
        ensures
            match r {
                Some(x) => resource_at(*self, address@) == Some(*x),
                None => resource_at(*self, address@) is None,
            },
    {
        proof {
            lemma_resource_index(self.resources@, address@);
        }
        let mut i: usize = 0;
        while i < self.resources.len()
            invariant
                i <= self.resources@.len(),
                forall|j: int| 0 <= j < i ==> address_of_resource(#[trigger] self.resources@[j]) != address@,
                match resource_index(self.resources@, address@) {
                    Some(k) => 0 <= k < self.resources@.len() && address_of_resource(self.resources@[k]) == address@
                        && forall|j: int| 0 <= j < k ==> address_of_resource(#[trigger] self.resources@[j]) != address@,
                    None => forall|j: int| 0 <= j < self.resources@.len() ==> address_of_resource(#[trigger] self.resources@[j]) != address@,
                },
            decreases self.resources.len() - i,
        {
            let a = self.resources[i].address();
            if str_eq(a.as_str(), address) {
                proof {
                    match resource_index(self.resources@, address@) {
                        Some(k) => {
                            if k < i {
                            } else if k > i {
                                assert(address_of_resource(self.resources@[i as int]) != address@);
                            }
                        },
                        None => {
                            assert(address_of_resource(self.resources@[i as int]) != address@);
                        },
                    }
                }
                return Some(&self.resources[i]);
            }
            i = i + 1;
        }
        proof {
            match resource_index(self.resources@, address@) {
                Some(k) => {
                    assert(address_of_resource(self.resources@[k]) == address@);
                },
                None => {},
            }
        }
        None
    }
}

/// A value carrying an interpolation (`${…}`) is not a literal.
pub open spec fn has_interpolation(v: Seq<char>) -> bool {
    contains_seq(v, "${"@)
}

fn has_interpolation_exec(v: &str) -> (b: bool)
    ensures
        b == has_interpolation(v@),
{
    crate::text::contains_str(&to_chars(v), "${")
}

/// How many times `c` occurs in `s`.
pub open spec fn count_char(s: Seq<char>, c: char) -> nat
    decreases s.len(),
{
    if s.len() == 0 {
        0
    } else {
        count_char(s.drop_last(), c) + if s.last() == c { 1nat } else { 0nat }
    }
}

/// `google_T.L.A` → (`google_T.L`, `A`): split at the last `.`, the address
/// holding exactly one `.` of its own.
pub open spec fn ref_target_of(t: Seq<char>) -> Option<(Seq<char>, Seq<char>)> {
    match rfind(t, '.') {
        Some(k) => if count_char(t.take(k), '.') == 1 {
            Some((t.take(k), t.skip(k + 1)))
        } else {
            None
        },
        None => None,
    }
}

pub fn ref_target(traversal: &str) -> (r: Option<(String, String)>)
    ensures
        match r {
            Some(p) => ref_target_of(traversal@) == Some((p.0@, p.1@)),
            None => ref_target_of(traversal@) is None,
        },
{
    let t = to_chars(traversal);
    let n: usize = t.len();
    let k = match crate::text::rfind_char(&t, '.') {
        Some(k) => k,
        None => return None,
    };
    let addr = slice_chars(&t, 0, k);
    assert(addr@ =~= t@.take(k as int));
    let mut dots: usize = 0;
    let mut i: usize = 0;
    while i < addr.len()
        invariant
            i <= addr@.len(),
            dots <= i,
            dots as nat == count_char(addr@.take(i as int), '.'),
        decreases addr.len() - i,
    {
        assert(addr@.take(i + 1).drop_last() =~= addr@.take(i as int));
        if addr[i] == '.' {
            dots = dots + 1;
        }
        i = i + 1;
    }
    assert(addr@.take(i as int) =~= addr@);
    if dots != 1 {
        return None;
    }
    let attr = slice_chars(&t, k + 1, n);
    assert(attr@ =~= t@.skip(k + 1));
    Some((from_chars(&addr), from_chars(&attr)))
}

/// The attributes whose value is the referenced resource's live id — the id
/// adoption resolves for it, not an attribute the estate declares.
pub open spec fn denotes_live_id_of(tf_type: Seq<char>, attr: Seq<char>) -> bool {
    (tf_type == "google_folder"@ || tf_type == "google_cloud_identity_group"@ || tf_type == "google_service_account"@)
        && (attr == "name"@ || attr == "id"@)
}

pub fn denotes_live_id(tf_type: &str, attr: &str) -> (b: bool)
    ensures
        b == denotes_live_id_of(tf_type@, attr@),
{
    (str_eq(tf_type, "google_folder") || str_eq(tf_type, "google_cloud_identity_group")
        || str_eq(tf_type, "google_service_account")) && (str_eq(attr, "name") || str_eq(attr, "id"))
}

// ---------------------------------------------------------------------------
// What the run knows, and what it could not find
// ---------------------------------------------------------------------------

/// What a later resource that references an earlier one reads of its verdict.
#[derive(Debug, Clone, PartialEq, Eq)]
pub enum Verdict {
    /// Not live: `apply` creates it (on apply, or on apply with its parent).
    NotLive,
    /// Its lookup failed, with the failure.
    Failed(String),
    /// Left out by `--only`.
    LeftOut,
    /// Anything else.
    Other,
}

pub open spec fn verdict_of(o: Outcome) -> Verdict {
    match o {
        Outcome::OnApply => Verdict::NotLive,
        Outcome::ParentOnApply(_) => Verdict::NotLive,
        Outcome::Failed(e) => Verdict::Failed(e),
        Outcome::Skipped => Verdict::LeftOut,
        _ => Verdict::Other,
    }
}

fn verdict_exec(o: &Outcome) -> (v: Verdict)
    ensures
        v == verdict_of(*o),
{
    match o {
        Outcome::OnApply => Verdict::NotLive,
        Outcome::ParentOnApply(_) => Verdict::NotLive,
        Outcome::Failed(e) => Verdict::Failed(e.clone()),
        Outcome::Skipped => Verdict::LeftOut,
        _ => Verdict::Other,
    }
}

/// What the run has decided about the resources it has already reached: the
/// live id of each one that has one, and the verdict of every one — the latest
/// entry for an address is the one that counts.
#[derive(Debug, Clone, Default)]
pub struct Known {
    pub ids: Vec<(String, String)>,
    pub verdicts: Vec<(String, Verdict)>,
}

/// The latest entry under key `k`.
pub open spec fn latest_id(kv: Seq<(String, String)>, k: Seq<char>) -> Option<Seq<char>>
    decreases kv.len(),
{
    if kv.len() == 0 {
        None
    } else if kv.last().0@ == k {
        Some(kv.last().1@)
    } else {
        latest_id(kv.drop_last(), k)
    }
}

pub open spec fn latest_verdict(kv: Seq<(String, Verdict)>, k: Seq<char>) -> Option<Verdict>
    decreases kv.len(),
{
    if kv.len() == 0 {
        None
    } else if kv.last().0@ == k {
        Some(kv.last().1)
    } else {
        latest_verdict(kv.drop_last(), k)
    }
}

fn latest_id_exec<'a>(kv: &'a Vec<(String, String)>, k: &str) -> (r: Option<&'a String>)
    ensures
        match r {
            Some(v) => latest_id(kv@, k@) == Some(v@),
            None => latest_id(kv@, k@) is None,
        },
{
    let mut n: usize = kv.len();
    assert(kv@.take(n as int) =~= kv@);
    while n > 0
        invariant
            n <= kv@.len(),
            latest_id(kv@, k@) == latest_id(kv@.take(n as int), k@),
        decreases n,
    {
        assert(kv@.take(n as int).drop_last() =~= kv@.take(n - 1));
        if str_eq(kv[n - 1].0.as_str(), k) {
            return Some(&kv[n - 1].1);
        }
        n = n - 1;
    }
    None
}

fn latest_verdict_exec<'a>(kv: &'a Vec<(String, Verdict)>, k: &str) -> (r: Option<&'a Verdict>)
    ensures
        match r {
            Some(v) => latest_verdict(kv@, k@) == Some(*v),
            None => latest_verdict(kv@, k@) is None,
        },
{
    let mut n: usize = kv.len();
    assert(kv@.take(n as int) =~= kv@);
    while n > 0
        invariant
            n <= kv@.len(),
            latest_verdict(kv@, k@) == latest_verdict(kv@.take(n as int), k@),
        decreases n,
    {
        assert(kv@.take(n as int).drop_last() =~= kv@.take(n - 1));
        if str_eq(kv[n - 1].0.as_str(), k) {
            return Some(&kv[n - 1].1);
        }
        n = n - 1;
    }
    None
}

impl Known {
    /// Record a resource's outcome: its verdict, and its live id when the
    /// outcome carries one.
    pub fn record(&mut self, address: &str, outcome: &Outcome)
        ensures
            forall|a: Seq<char>| latest_verdict(final(self).verdicts@, a) == if a == address@ {
                Some(verdict_of(*outcome))
            } else {
                latest_verdict(old(self).verdicts@, a)
            },
            forall|a: Seq<char>| latest_id(final(self).ids@, a) == if a == address@ && outcome_id(*outcome) is Some {
                outcome_id(*outcome)
            } else {
                latest_id(old(self).ids@, a)
            },
    {
        let ghost ids0 = self.ids@;
        let ghost v0 = self.verdicts@;
        match outcome_id_exec(outcome) {
            Some(id) => {
                self.ids.push((String::from_str(address), id.clone()));
                assert(self.ids@.drop_last() =~= ids0);
            },
            None => {},
        }
        self.verdicts.push((String::from_str(address), verdict_exec(outcome)));
        assert(self.verdicts@.drop_last() =~= v0);
    }
}

/// Why a value a resolution needs could not be produced, and what that means
/// for the resource that needed it.
#[derive(Debug, Clone, PartialEq, Eq)]
pub enum Missing {
    /// The resource the value comes from is not live: `apply` creates it.
    NotLive(String),
    /// The lookup behind the value failed — never read as absence.
    Failed(String),
    /// Nothing satz can follow.
    Unresolvable(String),
}

pub open spec fn missing_outcome(m: Missing) -> Outcome {
    match m {
        Missing::NotLive(why) => Outcome::ParentOnApply(why),
        Missing::Failed(why) => Outcome::Failed(why),
        Missing::Unresolvable(why) => Outcome::Unresolvable(why),
    }
}

pub open spec fn missing_text(m: Missing) -> Seq<char> {
    match m {
        Missing::NotLive(why) => why@,
        Missing::Failed(why) => why@,
        Missing::Unresolvable(why) => why@,
    }
}

impl Missing {
    /// The outcome of the resource that needed the value.
    pub fn outcome(self) -> (o: Outcome)
        ensures
            o == missing_outcome(self),
    {
        match self {
            Missing::NotLive(why) => Outcome::ParentOnApply(why),
            Missing::Failed(why) => Outcome::Failed(why),
            Missing::Unresolvable(why) => Outcome::Unresolvable(why),
        }
    }

    /// What went missing, as the table says it.
    pub fn text(&self) -> (s: String)
        ensures
            s@ == missing_text(*self),
    {
        match self {
            Missing::NotLive(why) => why.clone(),
            Missing::Failed(why) => why.clone(),
            Missing::Unresolvable(why) => why.clone(),
        }
    }
}

/// What a reference to a resource whose live id the run has not got says:
/// the target's own verdict.
pub open spec fn unresolved_target(target: Seq<char>, key: Seq<char>, verdict: Option<Verdict>) -> (Seq<char>, int) {
    match verdict {
        Some(Verdict::NotLive) => (target + " is not live — created with it"@, 0),
        Some(Verdict::Failed(e)) => (target + ": "@ + e@, 1),
        Some(Verdict::LeftOut) => (target + " was left out by --only, so its live id is not resolved in this run"@, 2),
        _ => (target + " is not resolved yet ("@ + key + " on it must be adopted or pinned first)"@, 2),
    }
}

/// The value of attribute `key` on `r`, as a `Missing` of the kind (0 not
/// live, 1 failed, 2 unresolvable) with its text, or the value: a literal,
/// or a reference followed to the resource it names — its resolved live id
/// when that is what the reference denotes, else that resource's own attribute.
pub open spec fn value_of_spec(r: EmittedResource, key: Seq<char>, m: Manifest, known: Known) -> Result<Seq<char>, (int, Seq<char>)> {
    let addr = address_of_resource(r);
    match kv_get(r.attrs@, key) {
        Some(v) => if has_interpolation(v) {
            Err((2, addr + ": `"@ + key + "` = \""@ + v
                + "\" carries a reference that is only known after apply — it cannot be resolved before the resource exists"@))
        } else {
            Ok(v)
        },
        None => match kv_get(r.refs@, key) {
            None => Err((2, addr + " has no `"@ + key + "`"@)),
            Some(tr) => match ref_target_of(tr) {
                None => Err((2, addr + ": `"@ + key + "` = "@ + tr + " is not a resource reference"@)),
                Some((target, attr)) => match resource_at(m, target) {
                    None => Err((2, addr + ": `"@ + key + "` references "@ + target + ", which is not emitted"@)),
                    Some(t) => if denotes_live_id_of(t.tf_type@, attr) {
                        match latest_id(known.ids@, target) {
                            Some(id) => Ok(id),
                            None => {
                                let u = unresolved_target(target, key, latest_verdict(known.verdicts@, target));
                                Err((u.1, u.0))
                            },
                        }
                    } else {
                        match kv_get(t.attrs@, attr) {
                            Some(v) => if has_interpolation(v) {
                                Err((2, addr + ": `"@ + key + "` references "@ + target + "."@ + attr
                                    + ", which is itself a reference known only after apply"@))
                            } else {
                                Ok(v)
                            },
                            None => Err((2, addr + ": `"@ + key + "` references "@ + target + "."@ + attr
                                + ", which is not a literal and is not this run's id for it"@)),
                        }
                    },
                },
            },
        },
    }
}

/// A `Missing` as the kind and text `value_of_spec` gives it.
pub open spec fn missing_view(m: Missing) -> (int, Seq<char>) {
    match m {
        Missing::NotLive(why) => (0, why@),
        Missing::Failed(why) => (1, why@),
        Missing::Unresolvable(why) => (2, why@),
    }
}

fn text_of(parts: &[&str]) -> (r: String)
    ensures
        r@ == concat_all(parts@),
{
    let mut out: Vec<char> = Vec::new();
    let mut i: usize = 0;
    while i < parts.len()
        invariant
            i <= parts.len(),
            out@ == concat_all(parts@.take(i as int)),
        decreases parts.len() - i,
    {
        assert(parts@.take(i + 1).drop_last() =~= parts@.take(i as int));
        push_str_chars(&mut out, parts[i]);
        i = i + 1;
    }
    assert(parts@.take(i as int) =~= parts@);
    from_chars(&out)
}

/// The texts one after another.
pub open spec fn concat_all(parts: Seq<&str>) -> Seq<char>
    decreases parts.len(),
{
    if parts.len() == 0 {
        seq![]
    } else {
        concat_all(parts.drop_last()) + parts.last()@
    }
}

/// The value of attribute `key` on `r`, or why it cannot be had.
pub fn value_of(r: &EmittedResource, key: &str, manifest: &Manifest, known: &Known) -> (v: Result<String, Missing>)
    ensures
        match v {
            Ok(s) => value_of_spec(*r, key@, *manifest, *known) == Ok::<Seq<char>, (int, Seq<char>)>(s@),
            Err(m) => value_of_spec(*r, key@, *manifest, *known) == Err::<Seq<char>, (int, Seq<char>)>(missing_view(m)),
        },
{
    let addr = r.address();
    match get_value(&r.attrs, key) {
        Some(v) => {
            if has_interpolation_exec(v.as_str()) {
                let t = text_of(&[addr.as_str(), ": `", key, "` = \"", v.as_str(),
                    "\" carries a reference that is only known after apply — it cannot be resolved before the resource exists"]);
                proof {
                    reveal_with_fuel(concat_all, 7);
                }
                return Err(Missing::Unresolvable(t));
            }
            return Ok(v.clone());
        },
        None => {},
    }
    let traversal = match get_value(&r.refs, key) {
        Some(t) => t,
        None => {
            let t = text_of(&[addr.as_str(), " has no `", key, "`"]);
            proof {
                reveal_with_fuel(concat_all, 5);
            }
            return Err(Missing::Unresolvable(t));
        },
    };
    let (target, attr) = match ref_target(traversal.as_str()) {
        Some(p) => p,
        None => {
            let t = text_of(&[addr.as_str(), ": `", key, "` = ", traversal.as_str(), " is not a resource reference"]);
            proof {
                reveal_with_fuel(concat_all, 7);
            }
            return Err(Missing::Unresolvable(t));
        },
    };
    let t = match manifest.get(target.as_str()) {
        Some(t) => t,
        None => {
            let m = text_of(&[addr.as_str(), ": `", key, "` references ", target.as_str(), ", which is not emitted"]);
            proof {
                reveal_with_fuel(concat_all, 7);
            }
            return Err(Missing::Unresolvable(m));
        },
    };
    if denotes_live_id(t.tf_type.as_str(), attr.as_str()) {
        match latest_id_exec(&known.ids, target.as_str()) {
            Some(id) => return Ok(id.clone()),
            None => {},
        }
        let m = match latest_verdict_exec(&known.verdicts, target.as_str()) {
            Some(Verdict::NotLive) => {
                let s = text_of(&[target.as_str(), " is not live — created with it"]);
                proof {
                    reveal_with_fuel(concat_all, 3);
                }
                Missing::NotLive(s)
            },
            Some(Verdict::Failed(e)) => {
                let s = text_of(&[target.as_str(), ": ", e.as_str()]);
                proof {
                    reveal_with_fuel(concat_all, 4);
                }
                Missing::Failed(s)
            },
            Some(Verdict::LeftOut) => {
                let s = text_of(&[target.as_str(), " was left out by --only, so its live id is not resolved in this run"]);
                proof {
                    reveal_with_fuel(concat_all, 3);
                }
                Missing::Unresolvable(s)
            },
            _ => {
                let s = text_of(&[target.as_str(), " is not resolved yet (", key, " on it must be adopted or pinned first)"]);
                proof {
                    reveal_with_fuel(concat_all, 5);
                }
                Missing::Unresolvable(s)
            },
        };
        return Err(m);
    }
    match get_value(&t.attrs, attr.as_str()) {
        Some(v) => if has_interpolation_exec(v.as_str()) {
            let s = text_of(&[addr.as_str(), ": `", key, "` references ", target.as_str(), ".", attr.as_str(),
                ", which is itself a reference known only after apply"]);
            proof {
                reveal_with_fuel(concat_all, 9);
            }
            Err(Missing::Unresolvable(s))
        } else {
            Ok(v.clone())
        },
        None => {
            let s = text_of(&[addr.as_str(), ": `", key, "` references ", target.as_str(), ".", attr.as_str(),
                ", which is not a literal and is not this run's id for it"]);
            proof {
                reveal_with_fuel(concat_all, 9);
            }
            Err(Missing::Unresolvable(s))
        },
    }
}

// ---------------------------------------------------------------------------
// The adopt table
// ---------------------------------------------------------------------------

/// What a row asks of whoever reads it, in order of urgency: a row that did
/// not answer first, then the state moves, then the imports, and last the rows
/// that ask for nothing.
#[derive(Debug, Clone, Copy, PartialEq, Eq, PartialOrd, Ord)]
pub enum RowAction {
    /// the lookup did not answer: failed, unresolvable, ambiguous, without a
    /// rule, or waiting on an activation
    Unresolved,
    /// the live object is in the state under another address — `state mv`
    Move,
    /// live and unmanaged — import it
    Import,
    /// nothing to do: already managed, already adopted, or apply creates it
    Nothing,
}

pub open spec fn action_rank(a: RowAction) -> int {
    match a {
        RowAction::Unresolved => 0,
        RowAction::Move => 1,
        RowAction::Import => 2,
        RowAction::Nothing => 3,
    }
}

/// One row of the adopt table: what adopt found for a declared resource and
/// what it would do.
#[derive(Debug, Clone, PartialEq, Eq)]
pub struct AdoptRow {
    pub address: String,
    /// `IMPORT`, `MOVE`, `adopted`, `on apply`, `AMBIGUOUS`, `FAILED`, …
    pub verdict: String,
    pub detail: String,
    pub action: RowAction,
    /// what the live lookup matched on, when it matched on a natural key
    pub matched_on: Option<String>,
    /// the address the same live object is managed under, for a MOVE
    pub move_from: Option<String>,
    /// a second line the row carries
    pub note: Option<String>,
    /// the Satz file and line that declared the resource
    pub declared_at: Option<String>,
}

/// A row as text: address, verdict, detail, action, matched on, move from,
/// note, declared at.
pub type RowV = (Seq<char>, Seq<char>, Seq<char>, RowAction, Option<Seq<char>>, Option<Seq<char>>, Option<Seq<char>>, Option<Seq<char>>);

pub open spec fn opt_str(o: Option<String>) -> Option<Seq<char>> {
    match o {
        Some(s) => Some(s@),
        None => None,
    }
}

pub open spec fn row_view(r: AdoptRow) -> RowV {
    (r.address@, r.verdict@, r.detail@, r.action, opt_str(r.matched_on), opt_str(r.move_from), opt_str(r.note), opt_str(r.declared_at))
}

pub open spec fn row_views(v: Seq<AdoptRow>) -> Seq<RowV> {
    v.map_values(|r: AdoptRow| row_view(r))
}

/// Where a resource was declared, as `file:line`.
pub open spec fn declared_at(origin: Option<(String, u32)>) -> Option<Seq<char>> {
    match origin {
        Some((f, l)) => Some(f@ + ":"@ + dec(l as nat)),
        None => None,
    }
}

pub open spec fn reset_declared(m: Manifest, a: Seq<char>) -> bool {
    match resource_at(m, a) {
        Some(x) => x.reset,
        None => false,
    }
}

/// An outcome's verdict, detail and action, for a resource adopt would act on.
pub open spec fn verdict_of_outcome(o: Outcome, tf_type: Seq<char>) -> (Seq<char>, Seq<char>, RowAction) {
    match o {
        Outcome::AlreadyAdopted(id) => ("adopted"@, id@, RowAction::Nothing),
        Outcome::Resolved { id, verified } => if verified {
            ("IMPORT"@, id@, RowAction::Import)
        } else {
            ("import (derived, unverified)"@, id@, RowAction::Import)
        },
        Outcome::NeedsActivation { id, .. } => ("ACTIVATE + IMPORT"@, id@, RowAction::Import),
        Outcome::OnApply => ("on apply"@, "not live — apply creates it"@, RowAction::Nothing),
        Outcome::ParentOnApply(why) => ("on apply (parent)"@, why@, RowAction::Nothing),
        Outcome::Ambiguous(c) => ("AMBIGUOUS"@, dec(c@.len()) + " candidates: "@ + join(crate::order::string_views(c@), ", "@)
            + " — pin \"import-id\" by hand"@, RowAction::Unresolved),
        Outcome::NeedsLookup(why) => ("needs lookup"@, why@, RowAction::Unresolved),
        Outcome::NoRule => ("no rule"@, "add import_id or match_on for "@ + tf_type + " to import-config.yaml"@, RowAction::Unresolved),
        Outcome::Unresolvable(why) => ("unresolvable"@, why@, RowAction::Unresolved),
        Outcome::Failed(e) => ("FAILED"@, e@, RowAction::Unresolved),
        Outcome::Skipped => (seq![], seq![], RowAction::Nothing),
    }
}

/// The row of one resolution, if it has one: the state comes first (an address
/// it manages is skipped whatever its outcome), then a move (importing would
/// be wrong), then the outcome; a resource `--only` left out has no row.
pub open spec fn row_for(r: Resolution, st: StateIndex, m: Manifest) -> Option<RowV> {
    let at = declared_at(r.origin);
    if manages(st, r.address@) {
        Some((r.address@, "already managed in the state"@, "skipped"@, RowAction::Nothing, None, None, None, at))
    } else {
        match moved_from_of(r, st) {
            Some(old) => Some((r.address@, "MOVE"@, "in state as "@ + old + " — the same live object, so `state mv`, not an import"@,
                RowAction::Move, None, Some(old),
                if holds_rules(st, old) && reset_declared(m, r.address@) {
                    Some("holds rules and is declared reset — `satz plan` and `satz apply` replace it"@)
                } else {
                    None
                }, at)),
            None => if r.outcome is Skipped {
                None
            } else {
                let v = verdict_of_outcome(r.outcome, r.tf_type@);
                let matched = if r.natural_key@.len() > 0 && !(r.outcome matches Outcome::Resolved { verified: false, .. })
                    && !(r.outcome is AlreadyAdopted) {
                    Some(r.natural_key@)
                } else {
                    None
                };
                Some((r.address@, v.0, v.1, v.2, matched, None, opt_str(r.note), at))
            },
        }
    }
}

/// The table's rows, in the order of the resolutions.
pub open spec fn rows_of(rs: Seq<Resolution>, st: StateIndex, m: Manifest) -> Seq<RowV>
    decreases rs.len(),
{
    if rs.len() == 0 {
        seq![]
    } else {
        let prev = rows_of(rs.drop_last(), st, m);
        match row_for(rs.last(), st, m) {
            Some(v) => prev.push(v),
            None => prev,
        }
    }
}

fn clone_opt(o: &Option<String>) -> (r: Option<String>)
    ensures
        opt_str(r) == opt_str(*o),
{
    match o {
        Some(s) => Some(s.clone()),
        None => None,
    }
}

fn declared_at_exec(origin: &Option<(String, u32)>) -> (r: Option<String>)
    ensures
        opt_str(r) == declared_at(*origin),
{
    match origin {
        Some((f, l)) => {
            let mut out = to_chars(f.as_str());
            out.push(':');
            let n = crate::text::dec_chars(*l as u64);
            push_chars(&mut out, &n);
            proof {
                reveal_strlit(":");
            }
            assert(out@ =~= f@ + ":"@ + dec(*l as nat));
            Some(from_chars(&out))
        },
        None => None,
    }
}

fn verdict_exec_row(o: &Outcome, tf_type: &str) -> (r: (String, String, RowAction))
    requires
        !(*o is Skipped),
    ensures
        (r.0@, r.1@, r.2) == verdict_of_outcome(*o, tf_type@),
{
    match o {
        Outcome::AlreadyAdopted(id) => (String::from_str("adopted"), id.clone(), RowAction::Nothing),
        Outcome::Resolved { id, verified } => if *verified {
            (String::from_str("IMPORT"), id.clone(), RowAction::Import)
        } else {
            (String::from_str("import (derived, unverified)"), id.clone(), RowAction::Import)
        },
        Outcome::NeedsActivation { id, .. } => (String::from_str("ACTIVATE + IMPORT"), id.clone(), RowAction::Import),
        Outcome::OnApply => (String::from_str("on apply"), String::from_str("not live — apply creates it"), RowAction::Nothing),
        Outcome::ParentOnApply(why) => (String::from_str("on apply (parent)"), why.clone(), RowAction::Nothing),
        Outcome::Ambiguous(c) => {
            let mut d = crate::text::dec_chars(c.len() as u64);
            push_str_chars(&mut d, " candidates: ");
            let listed = crate::text::join_strings(c, ", ");
            push_chars(&mut d, &listed);
            push_str_chars(&mut d, " — pin \"import-id\" by hand");
            (String::from_str("AMBIGUOUS"), from_chars(&d), RowAction::Unresolved)
        },
        Outcome::NeedsLookup(why) => (String::from_str("needs lookup"), why.clone(), RowAction::Unresolved),
        Outcome::NoRule => {
            let mut d = String::from_str("add import_id or match_on for ");
            d.append(tf_type);
            d.append(" to import-config.yaml");
            (String::from_str("no rule"), d, RowAction::Unresolved)
        },
        Outcome::Unresolvable(why) => (String::from_str("unresolvable"), why.clone(), RowAction::Unresolved),
        Outcome::Failed(e) => (String::from_str("FAILED"), e.clone(), RowAction::Unresolved),
        Outcome::Skipped => (String::new(), String::new(), RowAction::Nothing),
    }
}

/// The row of one resolution, if it has one.
pub fn row(r: &Resolution, in_state: &StateIndex, manifest: &Manifest) -> (out: Option<AdoptRow>)
    ensures
        match out {
            Some(x) => row_for(*r, *in_state, *manifest) == Some(row_view(x)),
            None => row_for(*r, *in_state, *manifest) is None,
        },
{
    let at = declared_at_exec(&r.origin);
    if in_state.manages(r.address.as_str()) {
        return Some(AdoptRow {
            address: r.address.clone(),
            verdict: String::from_str("already managed in the state"),
            detail: String::from_str("skipped"),
            action: RowAction::Nothing,
            matched_on: None,
            move_from: None,
            note: None,
            declared_at: at,
        });
    }
    match moved_from(r, in_state) {
        Some(old) => {
            let mut detail = String::from_str("in state as ");
            detail.append(old);
            detail.append(" — the same live object, so `state mv`, not an import");
            let reset = match manifest.get(r.address.as_str()) {
                Some(x) => x.reset,
                None => false,
            };
            let note = if in_state.holds_rules(old) && reset {
                Some(String::from_str("holds rules and is declared reset — `satz plan` and `satz apply` replace it"))
            } else {
                None
            };
            return Some(AdoptRow {
                address: r.address.clone(),
                verdict: String::from_str("MOVE"),
                detail,
                action: RowAction::Move,
                matched_on: None,
                move_from: Some(String::from_str(old)),
                note,
                declared_at: at,
            });
        },
        None => {},
    }
    match r.outcome {
        Outcome::Skipped => return None,
        _ => {},
    }
    let (verdict, detail, action) = verdict_exec_row(&r.outcome, r.tf_type.as_str());
    let derived_or_adopted = match r.outcome {
        Outcome::Resolved { verified: false, .. } | Outcome::AlreadyAdopted(_) => true,
        _ => false,
    };
    let matched_on = if r.natural_key.unicode_len() > 0 && !derived_or_adopted {
        Some(r.natural_key.clone())
    } else {
        None
    };
    Some(AdoptRow {
        address: r.address.clone(),
        verdict,
        detail,
        action,
        matched_on,
        move_from: None,
        note: clone_opt(&r.note),
        declared_at: at,
    })
}

/// The rows of the adopt table, one per declared resource adopt says something
/// about: already managed, moved, or its resolution.
pub fn rows(resolutions: &[Resolution], in_state: &StateIndex, manifest: &Manifest) -> (out: Vec<AdoptRow>)
    ensures
        row_views(out@) == rows_of(resolutions@, *in_state, *manifest),
{
    let ghost rs = resolutions@;
    let mut out: Vec<AdoptRow> = Vec::new();
    let mut i: usize = 0;
    while i < resolutions.len()
        invariant
            i <= rs.len(),
            rs == resolutions@,
            row_views(out@) == rows_of(rs.take(i as int), *in_state, *manifest),
        decreases resolutions.len() - i,
    {
        proof {
            assert(rs.take(i + 1).drop_last() =~= rs.take(i as int));
            assert(rs.take(i + 1).last() == rs[i as int]);
        }
        match row(&resolutions[i], in_state, manifest) {
            Some(x) => {
                let ghost before = row_views(out@);
                out.push(x);
                assert(row_views(out@) =~= before.push(row_view(x)));
            },
            None => {},
        }
        i = i + 1;
    }
    assert(rs.take(i as int) =~= rs);
    out
}

/// The UTF-8 length of a text, what `str::len` counts.
pub open spec fn byte_len(s: Seq<char>) -> nat {
    vstd::utf8::encode_utf8(s).len()
}

/// The longest address, by `str::len`.
pub open spec fn longest_address(rs: Seq<Resolution>) -> nat
    decreases rs.len(),
{
    if rs.len() == 0 {
        0
    } else {
        let prev = longest_address(rs.drop_last());
        let here = byte_len(rs.last().address@);
        if here > prev { here } else { prev }
    }
}

/// The width of the address column: the longest address, 20 for none, at most 72.
pub open spec fn table_width(rs: Seq<Resolution>) -> nat {
    let w = if rs.len() == 0 { 20 } else { longest_address(rs) };
    if w > 72 { 72 } else { w }
}

/// `{:w$}`: the text, padded with spaces to `w` characters.
pub open spec fn padded(s: Seq<char>, w: nat) -> Seq<char> {
    if s.len() < w {
        s + Seq::new((w - s.len()) as nat, |i: int| ' ')
    } else {
        s
    }
}

/// The lines of one row: address, verdict and detail, then its note and what
/// it matched on, each under the detail.
pub open spec fn row_lines(v: RowV, w: nat) -> Seq<char> {
    let blank = blank_prefix(w);
    main_line(v, w)
        + (match v.6 {
            Some(n) => blank + n + "\n"@,
            None => seq![],
        })
        + (match v.4 {
            Some(m) => blank + "matched on: "@ + m + "\n"@,
            None => seq![],
        })
}

pub open spec fn table_of(rows: Seq<RowV>, w: nat) -> Seq<char>
    decreases rows.len(),
{
    if rows.len() == 0 {
        seq![]
    } else {
        table_of(rows.drop_last(), w) + row_lines(rows.last(), w)
    }
}

fn push_padded(out: &mut Vec<char>, s: &[char], w: usize)
    ensures
        final(out)@ == old(out)@ + padded(s@, w as nat),
{
    let ghost o0 = out@;
    push_chars(out, s);
    if s.len() < w {
        let mut k: usize = s.len();
        while k < w
            invariant
                s@.len() <= k <= w,
                out@ == o0 + s@ + Seq::new((k - s@.len()) as nat, |i: int| ' '),
            decreases w - k,
        {
            out.push(' ');
            assert(Seq::new((k + 1 - s@.len()) as nat, |i: int| ' ') =~= Seq::new((k - s@.len()) as nat, |i: int| ' ').push(' '));
            k = k + 1;
        }
    }
}

pub open spec fn blank_prefix(w: nat) -> Seq<char> {
    "  "@ + padded(seq![], w) + "  "@ + padded(seq![], 30) + "  "@
}

fn push_blank_prefix(out: &mut Vec<char>, w: usize)
    ensures
        final(out)@ == old(out)@ + blank_prefix(w as nat),
{
    let ghost o0 = out@;
    let empty: Vec<char> = Vec::new();
    push_str_chars(out, "  ");
    push_padded(out, &empty, w);
    push_str_chars(out, "  ");
    push_padded(out, &empty, 30);
    push_str_chars(out, "  ");
    assert(out@ =~= o0 + blank_prefix(w as nat));
}

pub open spec fn main_line(v: RowV, w: nat) -> Seq<char> {
    "  "@ + padded(v.0, w) + "  "@ + padded(v.1, 30) + "  "@ + v.2 + "\n"@
}

fn push_main_line(out: &mut Vec<char>, x: &AdoptRow, w: usize)
    ensures
        final(out)@ == old(out)@ + main_line(row_view(*x), w as nat),
{
    let ghost o0 = out@;
    push_str_chars(out, "  ");
    push_padded(out, &to_chars(x.address.as_str()), w);
    push_str_chars(out, "  ");
    push_padded(out, &to_chars(x.verdict.as_str()), 30);
    push_str_chars(out, "  ");
    push_str_chars(out, x.detail.as_str());
    push_str_chars(out, "\n");
    assert(out@ =~= o0 + main_line(row_view(*x), w as nat));
}

fn push_row_lines(out: &mut Vec<char>, x: &AdoptRow, w: usize)
    ensures
        final(out)@ == old(out)@ + row_lines(row_view(*x), w as nat),
{
    let ghost o0 = out@;
    push_main_line(out, x, w);
    let ghost o1 = out@;
    match &x.note {
        Some(n) => {
            push_blank_prefix(out, w);
            push_str_chars(out, n.as_str());
            push_str_chars(out, "\n");
        },
        None => {},
    }
    let ghost o2 = out@;
    assert(o2 == o1 + (match row_view(*x).6 {
        Some(n) => blank_prefix(w as nat) + n + "\n"@,
        None => seq![],
    }));
    match &x.matched_on {
        Some(m) => {
            push_blank_prefix(out, w);
            push_str_chars(out, "matched on: ");
            push_str_chars(out, m.as_str());
            push_str_chars(out, "\n");
        },
        None => {},
    }
    assert(out@ == o2 + (match row_view(*x).4 {
        Some(m) => blank_prefix(w as nat) + "matched on: "@ + m + "\n"@,
        None => seq![],
    }));
    assert(out@ =~= o0 + row_lines(row_view(*x), w as nat));
}

/// The adopt table as printed.
pub fn render_table(resolutions: &[Resolution], in_state: &StateIndex, manifest: &Manifest) -> (s: String)
    ensures
        s@ == table_of(rows_of(resolutions@, *in_state, *manifest), table_width(resolutions@)),
{
    let ghost rs = resolutions@;
    let mut longest: usize = 0;
    let mut i: usize = 0;
    while i < resolutions.len()
        invariant
            i <= rs.len(),
            rs == resolutions@,
            longest as nat == longest_address(rs.take(i as int)),
        decreases resolutions.len() - i,
    {
        proof {
            assert(rs.take(i + 1).drop_last() =~= rs.take(i as int));
            assert(rs.take(i + 1).last() == rs[i as int]);
        }
        let st: &str = resolutions[i].address.as_str();
        let b: &[u8] = st.as_bytes();
        let n: usize = b.len();
        assert(st@ == rs[i as int].address@);
        if n > longest {
            longest = n;
        }
        i = i + 1;
    }
    assert(rs.take(i as int) =~= rs);
    let w0: usize = if resolutions.len() == 0 { 20 } else { longest };
    let w: usize = if w0 > 72 { 72 } else { w0 };
    let all = rows(resolutions, in_state, manifest);
    let ghost rv = row_views(all@);
    let mut out: Vec<char> = Vec::new();
    let mut k: usize = 0;
    while k < all.len()
        invariant
            k <= all@.len(),
            rv == row_views(all@),
            out@ == table_of(rv.take(k as int), w as nat),
        decreases all.len() - k,
    {
        proof {
            assert(rv.take(k + 1).drop_last() =~= rv.take(k as int));
            assert(rv.take(k + 1).last() == row_view(all@[k as int]));
        }
        push_row_lines(&mut out, &all[k], w);
        k = k + 1;
    }
    assert(rv.take(k as int) =~= rv);
    from_chars(&out)
}

// ---------------------------------------------------------------------------
// Writing a derived id back
// ---------------------------------------------------------------------------

/// For a derived resource — one that has no block of its own — the key of the
/// object form and the texts its list entry may be written as: the role of a
/// grant (`<parent> <role> <member>`), the service of a project service, the
/// member of a group membership as written bare or with its principal prefix.
/// None for a resource with a block of its own.
pub open spec fn derived_entry_of(tf_type: Seq<char>, id: Seq<char>, natural_key: Seq<char>) -> Option<(Seq<char>, Seq<Seq<char>>)> {
    if crate::text::has_suffix(tf_type, "_iam_member"@) {
        let w = crate::text::words(id);
        if w.len() >= 2 {
            Some(("role"@, seq![w[1]]))
        } else {
            None
        }
    } else if tf_type == "google_project_service"@ {
        let svc = match rfind(id, '/') {
            Some(k) => id.skip(k + 1),
            None => id,
        };
        Some(("service"@, seq![svc]))
    } else if tf_type == "google_cloud_identity_group_membership"@ {
        let first = match crate::text::first_occurrence(natural_key, " in "@) {
            Some(k) => natural_key.take(k),
            None => natural_key,
        };
        let email = crate::text::trim(first);
        if email.len() == 0 {
            None
        } else {
            Some(("id"@, seq![email, "user:"@ + email, "serviceAccount:"@ + email, "group:"@ + email]))
        }
    } else {
        None
    }
}

pub fn derived_entry(tf_type: &str, id: &str, natural_key: &str) -> (r: Option<(&'static str, Vec<String>)>)
    ensures
        match r {
            Some((k, v)) => derived_entry_of(tf_type@, id@, natural_key@) == Some((k@, crate::order::string_views(v@))),
            None => derived_entry_of(tf_type@, id@, natural_key@) is None,
        },
{
    let t = to_chars(tf_type);
    if crate::text::ends_with_str(&t, "_iam_member") {
        let w = crate::text::words_of(&to_chars(id));
        if w.len() >= 2 {
            let mut v: Vec<String> = Vec::new();
            v.push(from_chars(&w[1]));
            assert(crate::order::string_views(v@) =~= seq![views(w@)[1]]);
            return Some(("role", v));
        }
        return None;
    }
    if str_eq(tf_type, "google_project_service") {
        let ic = to_chars(id);
        let n: usize = ic.len();
        let svc = match crate::text::rfind_char(&ic, '/') {
            Some(k) => {
                let x = slice_chars(&ic, k + 1, n);
                assert(x@ =~= id@.skip(k + 1));
                x
            },
            None => ic,
        };
        let mut v: Vec<String> = Vec::new();
        v.push(from_chars(&svc));
        assert(crate::order::string_views(v@) =~= seq![svc@]);
        return Some(("service", v));
    }
    if str_eq(tf_type, "google_cloud_identity_group_membership") {
        let nk = to_chars(natural_key);
        let sep = to_chars(" in ");
        let first = match crate::text::find_chars(&nk, &sep) {
            Some(k) => {
                proof {
                    crate::text::lemma_first_occurrence(nk@, sep@);
                }
                let x = slice_chars(&nk, 0, k);
                assert(x@ =~= natural_key@.take(k as int));
                x
            },
            None => nk,
        };
        let email = crate::text::trimmed(&first);
        if email.len() == 0 {
            return None;
        }
        let e = from_chars(&email);
        let mut v: Vec<String> = Vec::new();
        v.push(e.clone());
        let mut u = String::from_str("user:");
        u.append(e.as_str());
        v.push(u);
        let mut sa = String::from_str("serviceAccount:");
        sa.append(e.as_str());
        v.push(sa);
        let mut g = String::from_str("group:");
        g.append(e.as_str());
        v.push(g);
        assert(crate::order::string_views(v@) =~= seq![email@, "user:"@ + email@, "serviceAccount:"@ + email@, "group:"@ + email@]);
        return Some(("id", v));
    }
    None
}

/// `str::trim_end_matches` on one character.
pub open spec fn trim_end_char(s: Seq<char>, c: char) -> Seq<char>
    decreases s.len(),
{
    if s.len() > 0 && s.last() == c {
        trim_end_char(s.drop_last(), c)
    } else {
        s
    }
}

/// The quoted string a list line holds, without its quotes and its comma.
pub open spec fn entry_inner(t: Seq<char>) -> Option<Seq<char>> {
    let item = crate::text::trim(trim_end_char(t, ','));
    if item.len() >= 2 && item[0] == '"' && item.last() == '"' {
        Some(item.subrange(1, item.len() - 1))
    } else {
        None
    }
}

/// How much a line opens: its `{` and `[` less its `}` and `]`.
pub open spec fn bracket_delta(t: Seq<char>) -> int
    decreases t.len(),
{
    if t.len() == 0 {
        0
    } else {
        bracket_delta(t.drop_last()) + if t.last() == '{' || t.last() == '[' {
            1int
        } else if t.last() == '}' || t.last() == ']' {
            -1int
        } else {
            0int
        }
    }
}

pub open spec fn seq_views(v: Seq<String>) -> Seq<Seq<char>> {
    crate::order::string_views(v)
}

/// From line `i` on, inside the block opened at `start` (at `depth` so far):
/// the first line after `start` whose entry is one of `needles`, unless the
/// block closes first.
pub open spec fn entry_line(lines: Seq<Seq<char>>, start: int, i: int, depth: int, needles: Seq<Seq<char>>) -> Option<int>
    decreases lines.len() - i,
{
    if i < 0 || i >= lines.len() {
        None
    } else {
        let t = crate::text::trim(lines[i]);
        let hit = i > start && match entry_inner(t) {
            Some(inner) => needles.contains(inner),
            None => false,
        };
        if hit {
            Some(i)
        } else {
            let d = depth + bracket_delta(t);
            if i > start && d <= 0 {
                None
            } else {
                entry_line(lines, start, i + 1, d, needles)
            }
        }
    }
}

/// The object form of a list entry: `{ <key> = "<entry>" "import-id" = "<id>" }`,
/// at the line's indentation, with its comma.
pub open spec fn object_form(raw: Seq<char>, key: Seq<char>, id: Seq<char>) -> Seq<char> {
    let t = crate::text::trim(raw);
    let inner = entry_inner(t).unwrap();
    crate::text::leading_ws(raw) + "{ "@ + key + " = \""@ + inner + "\" \"import-id\" = \""@ + id + "\" }"@
        + if crate::text::has_suffix(t, ","@) { ","@ } else { seq![] }
}

fn trim_end_char_exec(s: &[char], c: char) -> (r: Vec<char>)
    ensures
        r@ == trim_end_char(s@, c),
{
    let mut k: usize = s.len();
    assert(s@.take(k as int) =~= s@);
    while k > 0 && s[k - 1] == c
        invariant
            k <= s.len(),
            trim_end_char(s@, c) == trim_end_char(s@.take(k as int), c),
        decreases k,
    {
        assert(s@.take(k as int).drop_last() =~= s@.take(k - 1));
        k = k - 1;
    }
    let r = slice_chars(s, 0, k);
    assert(r@ =~= s@.take(k as int));
    r
}

fn entry_inner_exec(t: &[char]) -> (r: Option<Vec<char>>)
    ensures
        match r {
            Some(x) => entry_inner(t@) == Some(x@),
            None => entry_inner(t@) is None,
        },
{
    let a = trim_end_char_exec(t, ',');
    let item = crate::text::trimmed(&a);
    let n = item.len();
    if n >= 2 && item[0] == '"' && item[n - 1] == '"' {
        let x = slice_chars(&item, 1, n - 1);
        return Some(x);
    }
    None
}

fn bracket_delta_exec(t: &[char]) -> (d: i64)
    requires
        t@.len() <= 0x1000_0000_0000,
    ensures
        d as int == bracket_delta(t@),
        -(t@.len() as int) <= d <= t@.len(),
{
    let mut d: i64 = 0;
    let mut i: usize = 0;
    while i < t.len()
        invariant
            i <= t@.len() <= 0x1000_0000_0000,
            d as int == bracket_delta(t@.take(i as int)),
            -(i as int) <= d <= i,
        decreases t.len() - i,
    {
        assert(t@.take(i + 1).drop_last() =~= t@.take(i as int));
        let c = t[i];
        if c == '{' || c == '[' {
            d = d + 1;
        } else if c == '}' || c == ']' {
            d = d - 1;
        }
        i = i + 1;
    }
    assert(t@.take(i as int) =~= t@);
    d
}

/// How many characters the lines hold, together.
pub open spec fn chars_in(lines: Seq<Seq<char>>) -> nat
    decreases lines.len(),
{
    if lines.len() == 0 {
        0
    } else {
        chars_in(lines.drop_last()) + lines.last().len()
    }
}

proof fn lemma_chars_in_take(lines: Seq<Seq<char>>, i: int)
    requires
        0 <= i < lines.len(),
    ensures
        chars_in(lines.take(i + 1)) == chars_in(lines.take(i)) + lines[i].len(),
        chars_in(lines.take(i)) <= chars_in(lines),
        lines[i].len() <= chars_in(lines),
    decreases lines.len(),
{
    assert(lines.take(i + 1).drop_last() =~= lines.take(i));
    if i + 1 < lines.len() {
        lemma_chars_in_take(lines.drop_last(), i);
        assert(lines.drop_last().take(i + 1) =~= lines.take(i + 1));
        assert(lines.drop_last().take(i) =~= lines.take(i));
        assert(lines.drop_last()[i] == lines[i]);
    } else {
        assert(lines.take(i + 1) =~= lines);
    }
}

fn listed(needles: &[String], x: &[char]) -> (b: bool)
    ensures
        b == seq_views(needles@).contains(x@),
{
    let mut i: usize = 0;
    while i < needles.len()
        invariant
            i <= needles.len(),
            forall|j: int| 0 <= j < i ==> seq_views(needles@)[j] != x@,
        decreases needles.len() - i,
    {
        if crate::text::chars_eq(&to_chars(needles[i].as_str()), x) {
            assert(seq_views(needles@)[i as int] == x@);
            return true;
        }
        i = i + 1;
    }
    false
}

/// Inside the block or list opened at `start`, replace the first line whose
/// entry is one of `needles` (a quoted string item) with the object form;
/// the line rewritten, and every other line as it was. None, and the lines
/// untouched, when the block closes first.
pub fn rewrite_list_entry(lines: &mut Vec<String>, start: usize, needles: &[String], key: &str, id: &str) -> (r: Option<usize>)
    requires
        chars_in(seq_views(old(lines)@)) <= 0x1000_0000_0000,
    ensures
        r == match entry_line(seq_views(old(lines)@), start as int, start as int, 0, seq_views(needles@)) {
            Some(i) => Some(i as usize),
            None => None::<usize>,
        },
        match r {
            Some(i) => i < old(lines)@.len() && final(lines)@.len() == old(lines)@.len()
                && (forall|j: int| 0 <= j < old(lines)@.len() && j != i ==> #[trigger] final(lines)@[j] == old(lines)@[j])
                && final(lines)@[i as int]@ == object_form(old(lines)@[i as int]@, key@, id@),
            None => final(lines)@ == old(lines)@,
        },
{
    let ghost ls = seq_views(lines@);
    let ghost nd = seq_views(needles@);
    let mut depth: i64 = 0;
    let mut i: usize = start;
    if i >= lines.len() {
        return None;
    }
    proof {
        assert(chars_in(ls.take(start as int)) >= 0);
    }
    while i < lines.len()
        invariant
            start <= i <= lines@.len(),
            lines@ == old(lines)@,
            ls == seq_views(lines@),
            nd == seq_views(needles@),
            chars_in(ls) <= 0x1000_0000_0000,
            entry_line(ls, start as int, start as int, 0, nd) == entry_line(ls, start as int, i as int, depth as int, nd),
            -(chars_in(ls.take(i as int)) as int) <= depth <= chars_in(ls.take(i as int)),
        decreases lines.len() - i,
    {
        proof {
            lemma_chars_in_take(ls, i as int);
        }
        let raw = to_chars(lines[i].as_str());
        let t = crate::text::trimmed(&raw);
        proof {
            assert(raw@ == ls[i as int]);
            crate::text::lemma_trim_len(raw@);
        }
        if i > start {
            match entry_inner_exec(&t) {
                Some(inner) => {
                    if listed(needles, &inner) {
                        let indent = crate::text::leading_whitespace(&raw);
                        let mut out = indent;
                        push_str_chars(&mut out, "{ ");
                        push_str_chars(&mut out, key);
                        push_str_chars(&mut out, " = \"");
                        push_chars(&mut out, &inner);
                        push_str_chars(&mut out, "\" \"import-id\" = \"");
                        push_str_chars(&mut out, id);
                        push_str_chars(&mut out, "\" }");
                        if crate::text::ends_with_str(&t, ",") {
                            push_str_chars(&mut out, ",");
                        }
                        assert(out@ =~= object_form(ls[i as int], key@, id@));
                        assert(entry_line(ls, start as int, i as int, depth as int, nd) == Some(i as int));
                        lines.set(i, from_chars(&out));
                        return Some(i);
                    }
                },
                None => {},
            }
        }
        let d = bracket_delta_exec(&t);
        depth = depth + d;
        if i > start && depth <= 0 {
            return None;
        }
        i = i + 1;
    }
    None
}

// ---------------------------------------------------------------------------
// Templates and scopes
// ---------------------------------------------------------------------------

/// A value or why it cannot be had, as `value_of_spec` gives it.
pub type Valued = Result<Seq<char>, (int, Seq<char>)>;

/// What rendering the rest of a template gives: `{placeholder}`s filled from
/// the resource's attributes and resolved references, or the first reason
/// one cannot be.
pub open spec fn rendered(template: Seq<char>, rest: Seq<char>, r: EmittedResource, m: Manifest, k: Known, acc: Seq<char>) -> Valued
    decreases rest.len(),
{
    match find(rest, '{') {
        None => Ok(acc + rest),
        Some(start) => match find(rest.skip(start), '}') {
            None => Err((2, "unterminated placeholder in rule `"@ + template + "`"@)),
            Some(end) => {
                if 0 <= start && 1 <= end && start + end + 1 <= rest.len() {
                    match value_of_spec(r, rest.subrange(start + 1, start + end), m, k) {
                        Ok(v) => rendered(template, rest.skip(start + end + 1), r, m, k, acc + rest.take(start) + v),
                        Err(e) => Err(e),
                    }
                } else {
                    Ok(acc + rest)
                }
            },
        },
    }
}

/// The outcome a rendered or refused value gives.
pub open spec fn valued_outcome(v: Valued) -> (Seq<char>, int) {
    match v {
        Ok(id) => (id, 3),
        Err(e) => (e.1, e.0),
    }
}

/// `(text, kind)` of an outcome: the id of a `Resolved` one (kind 3,
/// unverified), the reason of a parent on apply (0), a failure (1) or an
/// unresolvable one (2).
pub open spec fn outcome_reading(o: Outcome) -> Option<(Seq<char>, int)> {
    match o {
        Outcome::Resolved { id, verified } => if verified { None } else { Some((id@, 3)) },
        Outcome::ParentOnApply(w) => Some((w@, 0)),
        Outcome::Failed(w) => Some((w@, 1)),
        Outcome::Unresolvable(w) => Some((w@, 2)),
        _ => None,
    }
}

/// Render `{placeholder}`s from the resource's attributes and resolved
/// references: the id and its `Resolved` outcome, or the template as it
/// stands and why a placeholder could not be filled.
pub fn render_template(template: &str, r: &EmittedResource, manifest: &Manifest, known: &Known) -> (out: (String, Outcome))
    ensures
        outcome_reading(out.1) == Some(valued_outcome(rendered(template@, template@, *r, *manifest, *known, seq![]))),
        out.0@ == match rendered(template@, template@, *r, *manifest, *known, seq![]) {
            Ok(id) => id,
            Err(_) => template@,
        },
{
    let t = to_chars(template);
    let mut acc: Vec<char> = Vec::new();
    let mut pos: usize = 0;
    assert(t@.skip(0) =~= t@);
    while pos <= t.len()
        invariant
            pos <= t@.len(),
            t@ == template@,
            rendered(template@, template@, *r, *manifest, *known, seq![]) == rendered(template@, t@.skip(pos as int), *r, *manifest,
                *known, acc@),
        decreases t.len() - pos,
    {
        let rest = slice_chars(&t, pos, t.len());
        assert(rest@ =~= t@.skip(pos as int));
        proof {
            crate::text::lemma_find(rest@, '{');
        }
        match crate::text::find_char(&rest, '{') {
            None => {
                push_chars(&mut acc, &rest);
                let id = from_chars(&acc);
                return (id.clone(), Outcome::Resolved { id, verified: false });
            },
            Some(start) => {
                let after = slice_chars(&rest, start, rest.len());
                proof {
                    crate::text::lemma_find(after@, '}');
                }
                match crate::text::find_char(&after, '}') {
                    None => {
                        let mut msg = to_chars("unterminated placeholder in rule `");
                        push_str_chars(&mut msg, template);
                        push_str_chars(&mut msg, "`");
                        return (String::from_str(template), Outcome::Unresolvable(from_chars(&msg)));
                    },
                    Some(end) => {
                        assert(after@[0] == '{');
                        assert(end >= 1);
                        let key = slice_chars(&rest, start + 1, start + end);
                        let kstr = from_chars(&key);
                        match value_of(r, kstr.as_str(), manifest, known) {
                            Ok(v) => {
                                let head = slice_chars(&rest, 0, start);
                                assert(head@ =~= rest@.take(start as int));
                                push_chars(&mut acc, &head);
                                push_str_chars(&mut acc, v.as_str());
                                assert(t@.skip(pos as int).skip(start + end + 1) =~= t@.skip(pos + start + end + 1));
                                pos = pos + start + end + 1;
                            },
                            Err(m) => {
                                let o = m.outcome();
                                return (String::from_str(template), o);
                            },
                        }
                    },
                }
            },
        }
    }
    assert(false);
    (String::new(), Outcome::Skipped)
}

/// A resource has attribute `k`, as a literal or as a reference.
pub open spec fn has_attr(r: EmittedResource, k: Seq<char>) -> bool {
    kv_has(r.attrs@, k) || kv_has(r.refs@, k)
}

/// `prefix` and the value with any leading `prefix`es removed.
pub open spec fn scoped(v: Valued, prefix: Seq<char>) -> Valued {
    match v {
        Ok(s) => Ok(prefix + strip_all_prefix(s, prefix)),
        Err(e) => Err(e),
    }
}

/// The scope a lookup lists under: the resource's `parent`, else its
/// project, folder or organisation; the first of them it has decides.
pub open spec fn scope_of(r: EmittedResource, m: Manifest, k: Known) -> Valued {
    if has_attr(r, "parent"@) {
        value_of_spec(r, "parent"@, m, k)
    } else if has_attr(r, "project"@) {
        scoped(value_of_spec(r, "project"@, m, k), "projects/"@)
    } else if has_attr(r, "folder"@) {
        scoped(value_of_spec(r, "folder"@, m, k), "folders/"@)
    } else if has_attr(r, "org_id"@) {
        scoped(value_of_spec(r, "org_id"@, m, k), "organizations/"@)
    } else {
        Err((2, address_of_resource(r) + " has no parent, project, folder or org_id to scope the lookup"@))
    }
}

fn has_attr_exec(r: &EmittedResource, k: &str) -> (b: bool)
    ensures
        b == has_attr(*r, k@),
{
    get_value(&r.attrs, k).is_some() || get_value(&r.refs, k).is_some()
}

fn scoped_exec(v: Result<String, Missing>, prefix: &str) -> (r: Result<String, Missing>)
    ensures
        match r {
            Ok(s) => scoped(match v {
                Ok(x) => Ok::<Seq<char>, (int, Seq<char>)>(x@),
                Err(m) => Err(missing_view(m)),
            }, prefix@) == Ok::<Seq<char>, (int, Seq<char>)>(s@),
            Err(m) => scoped(match v {
                Ok(x) => Ok::<Seq<char>, (int, Seq<char>)>(x@),
                Err(m) => Err(missing_view(m)),
            }, prefix@) == Err::<Seq<char>, (int, Seq<char>)>(missing_view(m)),
        },
{
    match v {
        Ok(s) => {
            let t = trim_start_matches(&to_chars(s.as_str()), prefix);
            let mut out = to_chars(prefix);
            push_chars(&mut out, &t);
            Ok(from_chars(&out))
        },
        Err(m) => Err(m),
    }
}

/// The scope to list under, or why there is none.
pub fn match_scope(r: &EmittedResource, manifest: &Manifest, known: &Known) -> (v: Result<String, Missing>)
    ensures
        match v {
            Ok(s) => scope_of(*r, *manifest, *known) == Ok::<Seq<char>, (int, Seq<char>)>(s@),
            Err(m) => scope_of(*r, *manifest, *known) == Err::<Seq<char>, (int, Seq<char>)>(missing_view(m)),
        },
{
    proof {
        reveal_strlit("parent");
        reveal_strlit("project");
        reveal_strlit("folder");
        reveal_strlit("org_id");
    }
    if has_attr_exec(r, "parent") {
        return value_of(r, "parent", manifest, known);
    }
    if has_attr_exec(r, "project") {
        return scoped_exec(value_of(r, "project", manifest, known), "projects/");
    }
    if has_attr_exec(r, "folder") {
        return scoped_exec(value_of(r, "folder", manifest, known), "folders/");
    }
    if has_attr_exec(r, "org_id") {
        return scoped_exec(value_of(r, "org_id", manifest, known), "organizations/");
    }
    let a = r.address();
    let mut msg = to_chars(a.as_str());
    push_str_chars(&mut msg, " has no parent, project, folder or org_id to scope the lookup");
    Err(Missing::Unresolvable(from_chars(&msg)))
}

// ---------------------------------------------------------------------------
// Grants against a live IAM policy
// ---------------------------------------------------------------------------

/// A principal whose address IAM compares without regard to case.
pub open spec fn folds_case(m: Seq<char>) -> bool {
    crate::text::has_prefix(m, "user:"@) || crate::text::has_prefix(m, "group:"@) || crate::text::has_prefix(m, "serviceAccount:"@)
        || crate::text::has_prefix(m, "domain:"@)
}

/// Members compare as IAM compares them: the address of a user, group,
/// service account or domain without regard to case, every other principal
/// exactly.
pub open spec fn same_member_of(a: Seq<char>, b: Seq<char>) -> bool {
    if folds_case(a) && folds_case(b) {
        crate::bootstrap::eq_ignore_ascii_case(a, b)
    } else {
        a == b
    }
}

fn folds_case_exec(m: &str) -> (b: bool)
    ensures
        b == folds_case(m@),
{
    let c = to_chars(m);
    crate::text::starts_with_str(&c, "user:") || crate::text::starts_with_str(&c, "group:")
        || crate::text::starts_with_str(&c, "serviceAccount:") || crate::text::starts_with_str(&c, "domain:")
}

pub fn same_member(a: &str, b: &str) -> (r: bool)
    ensures
        r == same_member_of(a@, b@),
{
    if folds_case_exec(a) && folds_case_exec(b) {
        let x = to_chars(a);
        let y = to_chars(b);
        if x.len() != y.len() {
            return false;
        }
        let mut i: usize = 0;
        while i < x.len()
            invariant
                i <= x@.len(),
                x@ == a@,
                y@ == b@,
                x@.len() == y@.len(),
                forall|j: int| 0 <= j < i ==> crate::text::ascii_lower(#[trigger] x@[j]) == crate::text::ascii_lower(y@[j]),
            decreases x.len() - i,
        {
            if crate::text::to_ascii_lower(x[i]) != crate::text::to_ascii_lower(y[i]) {
                return false;
            }
            i = i + 1;
        }
        true
    } else {
        str_eq(a, b)
    }
}

/// The condition a grant declares, as far as it can be compared with a
/// live one.
#[derive(Debug, Clone, PartialEq, Eq)]
pub enum DeclaredCondition {
    /// no condition declared
    Unconditional,
    Literal { title: String, expression: String },
    /// declared, but with a title or expression that is not a literal
    Undecidable,
}

/// Some nested attribute of `r` is under `condition.`.
pub open spec fn has_condition(r: EmittedResource) -> bool {
    exists|i: int| 0 <= i < r.nested@.len() && crate::text::has_prefix(#[trigger] r.nested@[i].0@, "condition."@)
}

pub open spec fn declared_condition_of(r: EmittedResource) -> (int, Seq<char>, Seq<char>) {
    if !has_condition(r) {
        (0, seq![], seq![])
    } else {
        match (kv_get(r.nested@, "condition.title"@), kv_get(r.nested@, "condition.expression"@)) {
            (Some(t), Some(e)) => if !has_interpolation(t) && !has_interpolation(e) { (1, t, e) } else { (2, seq![], seq![]) },
            _ => (2, seq![], seq![]),
        }
    }
}

pub open spec fn condition_view(c: DeclaredCondition) -> (int, Seq<char>, Seq<char>) {
    match c {
        DeclaredCondition::Unconditional => (0, seq![], seq![]),
        DeclaredCondition::Literal { title, expression } => (1, title@, expression@),
        DeclaredCondition::Undecidable => (2, seq![], seq![]),
    }
}

/// The condition a grant declares: none, a literal title and expression, or
/// one that cannot be compared.
pub fn declared_condition(r: &EmittedResource) -> (c: DeclaredCondition)
    ensures
        condition_view(c) == declared_condition_of(*r),
{
    let mut any = false;
    let mut i: usize = 0;
    while i < r.nested.len()
        invariant_except_break
            !any,
            forall|j: int| 0 <= j < i ==> !crate::text::has_prefix(#[trigger] r.nested@[j].0@, "condition."@),
        invariant
            i <= r.nested@.len(),
        ensures
            any ==> has_condition(*r),
            !any ==> !has_condition(*r),
        decreases r.nested.len() - i,
    {
        if crate::text::starts_with_str(&to_chars(r.nested[i].0.as_str()), "condition.") {
            any = true;
            break;
        }
        i = i + 1;
    }
    if !any {
        return DeclaredCondition::Unconditional;
    }
    match (get_value(&r.nested, "condition.title"), get_value(&r.nested, "condition.expression")) {
        (Some(t), Some(e)) => {
            if !has_interpolation_exec(t.as_str()) && !has_interpolation_exec(e.as_str()) {
                DeclaredCondition::Literal { title: t.clone(), expression: e.clone() }
            } else {
                DeclaredCondition::Undecidable
            }
        },
        _ => DeclaredCondition::Undecidable,
    }
}

/// What a live IAM policy says about one declared grant.
#[derive(Debug, Clone, PartialEq, Eq)]
pub enum GrantLive {
    /// A binding of the role, under the declared condition (its title when
    /// there is one), holds the member.
    Held(Option<String>),
    /// No such binding holds the member.
    Absent,
    /// The member holds the role live only under conditions that cannot be
    /// told apart from the declared one — each as `title: expression`.
    Unclear(Vec<String>),
}

pub open spec fn grant_live_view(g: GrantLive) -> (int, Option<Seq<char>>, Seq<Seq<char>>) {
    match g {
        GrantLive::Held(t) => (0, opt_str(t), seq![]),
        GrantLive::Absent => (1, None, seq![]),
        GrantLive::Unclear(cs) => (2, None, crate::order::string_views(cs@)),
    }
}

/// The text of member `k`, empty where it is missing or no string.
pub open spec fn text_at(c: crate::yaml::YamlV, k: Seq<char>) -> Seq<char> {
    match crate::align::member(c, k) {
        Some(x) => match crate::yaml::str_of(x) {
            Some(s) => s,
            None => seq![],
        },
        None => seq![],
    }
}

/// A policy's bindings.
pub open spec fn bindings_of(policy: crate::yaml::YamlV) -> Seq<crate::yaml::YamlV> {
    match crate::align::member(policy, "bindings"@) {
        Some(crate::yaml::YamlV::Sequence(bs)) => bs,
        _ => seq![],
    }
}

/// A string that is `member`, as IAM compares them.
pub open spec fn names_member(v: crate::yaml::YamlV, member: Seq<char>) -> bool {
    match crate::yaml::str_of(v) {
        Some(x) => same_member_of(x, member),
        None => false,
    }
}

/// Some string of `members` is `member`, as IAM compares them.
pub open spec fn lists_member(members: Seq<crate::yaml::YamlV>, member: Seq<char>) -> bool {
    exists|i: int| 0 <= i < members.len() && #[trigger] names_member(members[i], member)
}

/// A binding's condition that is the declared one: the same title, the
/// same expression but for surrounding white space.
pub open spec fn same_condition(o: Option<(Seq<char>, Seq<char>)>, title: Seq<char>, expression: Seq<char>) -> bool {
    match o {
        Some(te) => te.0 == title && crate::text::trim(te.1) == crate::text::trim(expression),
        None => false,
    }
}

/// A binding of `role` that holds `member`.
pub open spec fn binds(b: crate::yaml::YamlV, role: Seq<char>, member: Seq<char>) -> bool {
    &&& text_role(b) == Some(role)
    &&& match crate::align::member(b, "members"@) {
        Some(crate::yaml::YamlV::Sequence(ms)) => lists_member(ms, member),
        _ => false,
    }
}

pub open spec fn text_role(b: crate::yaml::YamlV) -> Option<Seq<char>> {
    match crate::align::member(b, "role"@) {
        Some(r) => crate::yaml::str_of(r),
        None => None,
    }
}

/// The conditions under which the first `n` bindings give `member` the
/// role, `None` for an unconditional binding.
pub open spec fn held_under(bs: Seq<crate::yaml::YamlV>, role: Seq<char>, member: Seq<char>, n: nat) -> Seq<Option<(Seq<char>, Seq<char>)>>
    decreases n,
{
    if n == 0 || n > bs.len() {
        seq![]
    } else {
        let h = held_under(bs, role, member, (n - 1) as nat);
        let b = bs[n - 1];
        if binds(b, role, member) {
            h.push(match crate::align::member(b, "condition"@) {
                Some(c) => Some((text_at(c, "title"@), text_at(c, "expression"@))),
                None => None,
            })
        } else {
            h
        }
    }
}

/// The conditional ones, each as `title: expression`.
pub open spec fn conditional_of(h: Seq<Option<(Seq<char>, Seq<char>)>>) -> Seq<Seq<char>>
    decreases h.len(),
{
    if h.len() == 0 {
        seq![]
    } else {
        let c = conditional_of(h.drop_last());
        match h.last() {
            Some(te) => c.push(te.0 + ": "@ + te.1),
            None => c,
        }
    }
}

pub open spec fn grant_live_of(policy: crate::yaml::YamlV, role: Seq<char>, member: Seq<char>, cond: (int, Seq<char>, Seq<char>))
    -> (int, Option<Seq<char>>, Seq<Seq<char>>) {
    let bs = bindings_of(policy);
    let h = held_under(bs, role, member, bs.len());
    let c = conditional_of(h);
    if cond.0 == 0 {
        if h.contains(None) { (0, None, seq![]) } else { (1, None, seq![]) }
    } else if cond.0 == 1 {
        if exists|i: int| 0 <= i < h.len() && #[trigger] same_condition(h[i], cond.1, cond.2) {
            (0, Some(cond.1), seq![])
        } else if c.len() == 0 {
            (1, None, seq![])
        } else {
            (2, None, c)
        }
    } else {
        if c.len() == 0 { (1, None, seq![]) } else { (2, None, c) }
    }
}

fn lists_exec(b: &crate::yaml::Yaml, member: &str) -> (r: bool)
    ensures
        r == match crate::align::member(crate::yaml::yaml_view(*b), "members"@) {
            Some(crate::yaml::YamlV::Sequence(ms)) => lists_member(ms, member@),
            _ => false,
        },
{
    proof {
        reveal_strlit("members");
    }
    match crate::align::member_exec(b, "members") {
        Some(crate::yaml::Yaml::Sequence(ms)) => {
            let ghost mv = crate::yaml::seq_view(ms@);
            proof {
                crate::yaml::lemma_seq_view(ms@);
            }
            let mut j: usize = 0;
            while j < ms.len()
                invariant
                    j <= ms@.len(),
                    mv == crate::yaml::seq_view(ms@),
                    mv.len() == ms@.len(),
                    forall|x: int| 0 <= x < ms@.len() ==> #[trigger] mv[x] == crate::yaml::yaml_view(ms@[x]),
                    forall|x: int| 0 <= x < j ==> !#[trigger] names_member(mv[x], member@),
                    crate::align::member(crate::yaml::yaml_view(*b), "members"@) == Some(crate::yaml::YamlV::Sequence(mv)),
                decreases ms.len() - j,
            {
                match crate::yaml::as_str(&ms[j]) {
                    Some(s) => {
                        if same_member(s.as_str(), member) {
                            assert(names_member(mv[j as int], member@));
                            assert(lists_member(mv, member@));
                            return true;
                        }
                    },
                    None => {},
                }
                j = j + 1;
            }
            false
        },
        _ => false,
    }
}

fn text_at_exec(c: &crate::yaml::Yaml, k: &str) -> (r: String)
    ensures
        r@ == text_at(crate::yaml::yaml_view(*c), k@),
{
    match crate::align::member_exec(c, k) {
        Some(x) => match crate::yaml::as_str(x) {
            Some(s) => s.clone(),
            None => String::new(),
        },
        None => String::new(),
    }
}

/// Whether `policy` (an IAM policy, version 3) holds the declared grant.
pub fn grant_in_policy(policy: &crate::yaml::Yaml, role: &str, member: &str, condition: &DeclaredCondition) -> (g: GrantLive)
    ensures
        grant_live_view(g) == grant_live_of(crate::yaml::yaml_view(*policy), role@, member@, condition_view(*condition)),
{
    let ghost pv = crate::yaml::yaml_view(*policy);
    proof {
        reveal_strlit("bindings");
        reveal_strlit("members");
        reveal_strlit("role");
        reveal_strlit("condition");
        reveal_strlit("title");
        reveal_strlit("expression");
    }
    let mut held: Vec<Option<(String, String)>> = Vec::new();
    let mut conditional: Vec<String> = Vec::new();
    let empty: Vec<crate::yaml::Yaml> = Vec::new();
    let bs: &Vec<crate::yaml::Yaml> = match crate::align::member_exec(policy, "bindings") {
        Some(crate::yaml::Yaml::Sequence(bs)) => bs,
        _ => &empty,
    };
    let ghost bv = crate::yaml::seq_view(bs@);
    proof {
        crate::yaml::lemma_seq_view(bs@);
        crate::yaml::lemma_seq_view(empty@);
    }
    assert(bv == bindings_of(pv));
    let mut i: usize = 0;
    while i < bs.len()
        invariant
            i <= bs@.len(),
            bv == crate::yaml::seq_view(bs@),
            bv.len() == bs@.len(),
            forall|j: int| 0 <= j < bs@.len() ==> #[trigger] bv[j] == crate::yaml::yaml_view(bs@[j]),
            bv == bindings_of(pv),
            held@.map_values(|o: Option<(String, String)>| match o {
                Some(p) => Some((p.0@, p.1@)),
                None => None,
            }) == held_under(bv, role@, member@, i as nat),
            crate::order::string_views(conditional@) == conditional_of(held_under(bv, role@, member@, i as nat)),
        decreases bs.len() - i,
    {
        let b = &bs[i];
        let role_ok = match crate::align::member_exec(b, "role") {
            Some(r) => match crate::yaml::as_str(r) {
                Some(s) => str_eq(s.as_str(), role),
                None => false,
            },
            None => false,
        };
        assert(role_ok == (text_role(bv[i as int]) == Some(role@)));
        let member_ok = if role_ok { lists_exec(b, member) } else { false };
        let ghost h0 = held_under(bv, role@, member@, i as nat);
        assert(member_ok == binds(bv[i as int], role@, member@));
        if member_ok {
            let entry = match crate::align::member_exec(b, "condition") {
                Some(c) => Some((text_at_exec(c, "title"), text_at_exec(c, "expression"))),
                None => None,
            };
            let ghost ev = if entry is Some {
                Some((entry->Some_0.0@, entry->Some_0.1@))
            } else {
                None::<(Seq<char>, Seq<char>)>
            };
            match &entry {
                Some(te) => {
                    let mut line = to_chars(te.0.as_str());
                    push_str_chars(&mut line, ": ");
                    push_str_chars(&mut line, te.1.as_str());
                    let ghost c0 = crate::order::string_views(conditional@);
                    conditional.push(from_chars(&line));
                    assert(crate::order::string_views(conditional@) =~= c0.push(te.0@ + ": "@ + te.1@));
                },
                None => {},
            }
            let ghost hv0 = held@.map_values(|o: Option<(String, String)>| match o {
                Some(p) => Some((p.0@, p.1@)),
                None => None,
            });
            held.push(entry);
            assert(held@.map_values(|o: Option<(String, String)>| match o {
                Some(p) => Some((p.0@, p.1@)),
                None => None,
            }) =~= hv0.push(ev));
            assert(h0.push(ev).drop_last() =~= h0);
        }
        i = i + 1;
    }
    let ghost hv = held_under(bv, role@, member@, bs@.len() as nat);
    assert(hv == held_under(bindings_of(pv), role@, member@, bindings_of(pv).len()));
    match condition {
        DeclaredCondition::Unconditional => {
            let mut k: usize = 0;
            while k < held.len()
                invariant
                    k <= held@.len(),
                    held@.map_values(|o: Option<(String, String)>| match o {
                        Some(p) => Some((p.0@, p.1@)),
                        None => None,
                    }) == hv,
                    forall|x: int| 0 <= x < k ==> (#[trigger] hv[x]) is Some,
                    condition_view(*condition).0 == 0,
                    hv == held_under(bindings_of(pv), role@, member@, bindings_of(pv).len()),
                    pv == crate::yaml::yaml_view(*policy),
                decreases held.len() - k,
            {
                if held[k].is_none() {
                    assert(hv[k as int] is None);
                    assert(hv.contains(None));
                    assert(condition_view(*condition).0 == 0);
                    return GrantLive::Held(None);
                }
                k = k + 1;
            }
            proof {
                if hv.contains(None) {
                    let x = choose|x: int| 0 <= x < hv.len() && hv[x] == None::<(Seq<char>, Seq<char>)>;
                    assert(hv[x] is Some);
                }
            }
            GrantLive::Absent
        },
        DeclaredCondition::Literal { title, expression } => {
            let et = crate::text::trim_str(expression.as_str());
            let mut k: usize = 0;
            while k < held.len()
                invariant
                    k <= held@.len(),
                    held@.map_values(|o: Option<(String, String)>| match o {
                        Some(p) => Some((p.0@, p.1@)),
                        None => None,
                    }) == hv,
                    et@ == crate::text::trim(expression@),
                    forall|x: int| 0 <= x < k ==> !#[trigger] same_condition(hv[x], title@, expression@),
                    condition_view(*condition) == (1int, title@, expression@),
                    hv == held_under(bindings_of(pv), role@, member@, bindings_of(pv).len()),
                    pv == crate::yaml::yaml_view(*policy),
                decreases held.len() - k,
            {
                match &held[k] {
                    Some(te) => {
                        if str_eq(te.0.as_str(), title.as_str()) && crate::text::chars_eq(&crate::text::trim_str(te.1.as_str()), &et) {
                            assert(hv[k as int] == Some((te.0@, te.1@)));
                            assert(same_condition(hv[k as int], title@, expression@));
                            assert(condition_view(*condition) == (1int, title@, expression@));
                            let ghost cv = condition_view(*condition);
                            let ghost hh = held_under(bindings_of(pv), role@, member@, bindings_of(pv).len());
                            assert(hh == hv);
                            assert(same_condition(hh[k as int], cv.1, cv.2));
                            assert(exists|i: int| 0 <= i < hh.len() && #[trigger] same_condition(hh[i], cv.1, cv.2));
                            assert(grant_live_of(pv, role@, member@, condition_view(*condition)) == (0int, Some(title@),
                                Seq::<Seq<char>>::empty()));
                            let t = title.clone();
                            assert(t@ == title@);
                            return GrantLive::Held(Some(t));
                            return GrantLive::Held(Some(title.clone()));
                        }
                    },
                    None => {},
                }
                k = k + 1;
            }
            if conditional.len() == 0 {
                GrantLive::Absent
            } else {
                GrantLive::Unclear(conditional)
            }
        },
        DeclaredCondition::Undecidable => {
            if conditional.len() == 0 {
                GrantLive::Absent
            } else {
                GrantLive::Unclear(conditional)
            }
        },
    }
}

/// The IAM API that holds a parent's policy.
#[derive(Debug, Clone, Copy, PartialEq, Eq)]
pub enum PolicyApi {
    ResourceManager,
    Billing,
    Storage,
    ServiceAccount,
    PubSub,
    BigQueryDataset,
}

/// `prefix`, then the parent with any leading `prefix`es removed.
pub open spec fn under_prefix(prefix: Seq<char>, parent: Seq<char>) -> Seq<char> {
    prefix + strip_all_prefix(parent, prefix)
}

/// The grant types whose import id is `<parent> <role> <member>`: the API
/// that holds the parent's IAM policy, and the parent as that API names it.
pub open spec fn grant_parent_of(t: Seq<char>, parent: Seq<char>) -> Option<(PolicyApi, Seq<char>)> {
    if t == "google_organization_iam_member"@ {
        Some((PolicyApi::ResourceManager, under_prefix("organizations/"@, parent)))
    } else if t == "google_folder_iam_member"@ {
        Some((PolicyApi::ResourceManager, under_prefix("folders/"@, parent)))
    } else if t == "google_project_iam_member"@ {
        Some((PolicyApi::ResourceManager, under_prefix("projects/"@, parent)))
    } else if t == "google_billing_account_iam_member"@ {
        Some((PolicyApi::Billing, under_prefix("billingAccounts/"@, parent)))
    } else if t == "google_storage_bucket_iam_member"@ {
        Some((PolicyApi::Storage, under_prefix("b/"@, parent)))
    } else if t == "google_service_account_iam_member"@ {
        if !parent.contains('/') {
            Some((PolicyApi::ServiceAccount, "projects/-/serviceAccounts/"@ + parent))
        } else {
            Some((PolicyApi::ServiceAccount, parent))
        }
    } else if t == "google_pubsub_topic_iam_member"@ || t == "google_pubsub_subscription_iam_member"@ {
        Some((PolicyApi::PubSub, parent))
    } else if t == "google_bigquery_dataset_iam_member"@ {
        Some((PolicyApi::BigQueryDataset, parent))
    } else {
        None
    }
}

fn under_exec(prefix: &str, parent: &str) -> (r: String)
    ensures
        r@ == under_prefix(prefix@, parent@),
{
    let t = trim_start_matches(&to_chars(parent), prefix);
    let mut out = to_chars(prefix);
    push_chars(&mut out, &t);
    from_chars(&out)
}

/// The API and the parent as it names it, for a grant type; `None` for
/// every other type.
pub fn grant_parent(tf_type: &str, parent: &str) -> (r: Option<(PolicyApi, String)>)
    ensures
        match r {
            Some(p) => grant_parent_of(tf_type@, parent@) == Some((p.0, p.1@)),
            None => grant_parent_of(tf_type@, parent@) is None,
        },
{
    if str_eq(tf_type, "google_organization_iam_member") {
        Some((PolicyApi::ResourceManager, under_exec("organizations/", parent)))
    } else if str_eq(tf_type, "google_folder_iam_member") {
        Some((PolicyApi::ResourceManager, under_exec("folders/", parent)))
    } else if str_eq(tf_type, "google_project_iam_member") {
        Some((PolicyApi::ResourceManager, under_exec("projects/", parent)))
    } else if str_eq(tf_type, "google_billing_account_iam_member") {
        Some((PolicyApi::Billing, under_exec("billingAccounts/", parent)))
    } else if str_eq(tf_type, "google_storage_bucket_iam_member") {
        Some((PolicyApi::Storage, under_exec("b/", parent)))
    } else if str_eq(tf_type, "google_service_account_iam_member") {
        let pc = to_chars(parent);
        proof {
            crate::text::lemma_find(pc@, '/');
            if pc@.contains('/') {
                let i = choose|i: int| 0 <= i < pc@.len() && pc@[i] == '/';
                assert(pc@[i] == '/');
            }
        }
        if crate::text::find_char(&pc, '/').is_none() {
            let mut out = to_chars("projects/-/serviceAccounts/");
            push_str_chars(&mut out, parent);
            Some((PolicyApi::ServiceAccount, from_chars(&out)))
        } else {
            Some((PolicyApi::ServiceAccount, String::from_str(parent)))
        }
    } else if str_eq(tf_type, "google_pubsub_topic_iam_member") || str_eq(tf_type, "google_pubsub_subscription_iam_member") {
        Some((PolicyApi::PubSub, String::from_str(parent)))
    } else if str_eq(tf_type, "google_bigquery_dataset_iam_member") {
        Some((PolicyApi::BigQueryDataset, String::from_str(parent)))
    } else {
        None
    }
}

// ---------------------------------------------------------------------------
// The short list
// ---------------------------------------------------------------------------

/// The rows that ask for something, in order.
pub open spec fn asking(all: Seq<AdoptRow>) -> Seq<AdoptRow>
    decreases all.len(),
{
    if all.len() == 0 {
        seq![]
    } else {
        let a = asking(all.drop_last());
        if all.last().action != RowAction::Nothing { a.push(all.last()) } else { a }
    }
}

/// The rows that ask for something, most urgent first, then by address.
pub open spec fn urgent_order(kept: Seq<AdoptRow>) -> Seq<int> {
    stable_order(kept.map_values(|r: AdoptRow| (action_rank(r.action) as u8, 0u8, r.address@, Seq::<char>::empty())), kept.len())
}

/// At most `limit` of them.
pub open spec fn attention_of(all: Seq<AdoptRow>, limit: nat) -> Seq<RowV> {
    let kept = asking(all);
    let ord = urgent_order(kept);
    let n = if limit < ord.len() { limit } else { ord.len() };
    ord.take(n as int).map_values(|i: int| row_view(kept[i]))
}

fn clone_row(r: &AdoptRow) -> (c: AdoptRow)
    ensures
        row_view(c) == row_view(*r),
{
    AdoptRow {
        address: r.address.clone(),
        verdict: r.verdict.clone(),
        detail: r.detail.clone(),
        action: r.action,
        matched_on: clone_opt(&r.matched_on),
        move_from: clone_opt(&r.move_from),
        note: clone_opt(&r.note),
        declared_at: clone_opt(&r.declared_at),
    }
}

/// The rows that ask for something, most urgent first, at most `limit` of
/// them, and how many of `all` are left out — the rows that ask for nothing
/// included.
pub fn attention(all: &[AdoptRow], limit: usize) -> (r: (Vec<AdoptRow>, usize))
    ensures
        row_views(r.0@) == attention_of(all@, limit as nat),
        r.1 == all@.len() - r.0@.len(),
{
    let mut kept: Vec<AdoptRow> = Vec::new();
    let mut i: usize = 0;
    while i < all.len()
        invariant
            i <= all@.len(),
            row_views(kept@) == row_views(asking(all@.take(i as int))),
            kept@.len() == asking(all@.take(i as int)).len(),
            asking(all@.take(i as int)).len() <= i,
        decreases all.len() - i,
    {
        assert(all@.take(i + 1).drop_last() =~= all@.take(i as int));
        assert(all@.take(i + 1).last() == all@[i as int]);
        let ghost before = row_views(kept@);
        let keep = match all[i].action {
            RowAction::Nothing => false,
            _ => true,
        };
        if keep {
            kept.push(clone_row(&all[i]));
            assert(row_views(kept@) =~= before.push(row_view(all@[i as int])));
            assert(row_views(asking(all@.take(i + 1))) =~= row_views(asking(all@.take(i as int))).push(row_view(all@[i as int])));
        }
        i = i + 1;
    }
    assert(all@.take(all.len() as int) =~= all@);
    let ghost kv = asking(all@);
    let mut keys: Vec<SortKey> = Vec::new();
    let mut j: usize = 0;
    while j < kept.len()
        invariant
            j <= kept@.len(),
            keys@.len() == j,
            row_views(kept@) == row_views(kv),
            kept@.len() == kv.len(),
            forall|x: int| 0 <= x < j ==> #[trigger] crate::order::key_view(keys@[x]) == (action_rank(kv[x].action) as u8, 0u8,
                kv[x].address@, Seq::<char>::empty()),
        decreases kept.len() - j,
    {
        assert(row_views(kept@)[j as int] == row_views(kv)[j as int]);
        let rank: u8 = match kept[j].action {
            RowAction::Unresolved => 0,
            RowAction::Move => 1,
            RowAction::Import => 2,
            RowAction::Nothing => 3,
        };
        keys.push(SortKey { first: rank, second: 0, third: kept[j].address.clone(), fourth: String::new() });
        j = j + 1;
    }
    assert(crate::order::key_views(keys@) =~= kv.map_values(|r: AdoptRow| (action_rank(r.action) as u8, 0u8, r.address@,
        Seq::<char>::empty())));
    proof {
        crate::order::lemma_stable_order(crate::order::key_views(keys@), keys@.len() as nat);
    }
    let ord = crate::order::stable_sort_positions(&keys);
    let ghost so = urgent_order(kv);
    let n = if limit < ord.len() { limit } else { ord.len() };
    let mut out: Vec<AdoptRow> = Vec::new();
    let mut q: usize = 0;
    while q < n
        invariant
            q <= n,
            n <= ord@.len(),
            ord@.map_values(|z: usize| z as int) == so,
            permutation_of(so, kv.len() as nat),
            row_views(kept@) == row_views(kv),
            kept@.len() == kv.len(),
            row_views(out@) == so.take(q as int).map_values(|i: int| row_view(kv[i])),
        decreases n - q,
    {
        let x = ord[q];
        assert(so[q as int] == x as int);
        assert(row_views(kept@)[x as int] == row_views(kv)[x as int]);
        let ghost before = row_views(out@);
        out.push(clone_row(&kept[x]));
        assert(row_views(out@) =~= before.push(row_view(kv[x as int])));
        assert(so.take(q + 1).map_values(|i: int| row_view(kv[i])) =~= so.take(q as int).map_values(|i: int| row_view(kv[i])).push(
            row_view(kv[x as int])));
        q = q + 1;
    }
    let omitted = all.len() - out.len();
    (out, omitted)
}

// ---------------------------------------------------------------------------
// What a resource inherits from a project that is not live
// ---------------------------------------------------------------------------

/// The latest entry of `kv` under key `k`, by position: a later entry for a
/// key stands in for an earlier one.
pub open spec fn entry_index<V>(kv: Seq<(String, V)>, k: Seq<char>) -> Option<int>
    decreases kv.len(),
{
    if kv.len() == 0 {
        None
    } else if kv.last().0@ == k {
        Some(kv.len() - 1)
    } else {
        entry_index(kv.drop_last(), k)
    }
}

proof fn lemma_entry_index<V>(kv: Seq<(String, V)>, k: Seq<char>)
    ensures
        match entry_index(kv, k) {
            Some(i) => 0 <= i < kv.len() && kv[i].0@ == k && forall|j: int| i < j < kv.len() ==> (#[trigger] kv[j]).0@ != k,
            None => forall|j: int| 0 <= j < kv.len() ==> (#[trigger] kv[j]).0@ != k,
        },
    decreases kv.len(),
{
    if kv.len() > 0 {
        lemma_entry_index(kv.drop_last(), k);
        assert forall|j: int| 0 <= j < kv.len() - 1 implies #[trigger] kv[j] == kv.drop_last()[j] by {}
    }
}

proof fn lemma_entry_index_is<V>(kv: Seq<(String, V)>, k: Seq<char>, i: int)
    requires
        0 <= i < kv.len(),
        kv[i].0@ == k,
        forall|j: int| i < j < kv.len() ==> (#[trigger] kv[j]).0@ != k,
    ensures
        entry_index(kv, k) == Some(i),
    decreases kv.len(),
{
    if i < kv.len() - 1 {
        assert(kv.last() == kv[kv.len() - 1]);
        lemma_entry_index_is(kv.drop_last(), k, i);
    }
}

fn entry_lookup<V>(kv: &Vec<(String, V)>, k: &str) -> (r: Option<usize>)
    ensures
        match r {
            Some(i) => entry_index(kv@, k@) == Some(i as int) && i < kv@.len(),
            None => entry_index(kv@, k@) is None,
        },
{
    let mut i: usize = kv.len();
    while i > 0
        invariant
            i <= kv@.len(),
            forall|j: int| i <= j < kv@.len() ==> (#[trigger] kv@[j]).0@ != k@,
        decreases i,
    {
        i = i - 1;
        if str_eq(kv[i].0.as_str(), k) {
            proof {
                lemma_entry_index_is(kv@, k@, i as int);
            }
            return Some(i);
        }
    }
    proof {
        lemma_entry_index(kv@, k@);
        match entry_index(kv@, k@) {
            Some(m) => {
                assert(kv@[m].0@ == k@);
            },
            None => {},
        }
    }
    None
}

/// Through the attribute `key` — a reference to a declared project, or a
/// literal `projects/P` — the entry of `not_live` the resource falls under.
pub open spec fn not_live_under(r: EmittedResource, m: Manifest, not_live: Seq<(String, Outcome)>, key: Seq<char>) -> Option<int> {
    let by_ref = match kv_get(r.refs@, key) {
        Some(t) => match ref_target_of(t) {
            Some(p) => match resource_at(m, p.0) {
                Some(x) => if x.tf_type@ == "google_project"@ {
                    entry_index(not_live, p.0)
                } else {
                    None
                },
                None => None,
            },
            None => None,
        },
        None => None,
    };
    match by_ref {
        Some(i) => Some(i),
        None => match kv_get(r.attrs@, key) {
            Some(lit) => entry_index(not_live, strip_all_prefix(lit, "projects/"@)),
            None => None,
        },
    }
}

/// The verdict a resource inherits from the project it lives in when that
/// project is not live (a project itself inherits nothing): looked for under
/// `project`, then under `parent`.
pub open spec fn parent_not_live_of(r: EmittedResource, m: Manifest, not_live: Seq<(String, Outcome)>) -> Option<int> {
    if r.tf_type@ == "google_project"@ || not_live.len() == 0 {
        None
    } else {
        match not_live_under(r, m, not_live, "project"@) {
            Some(i) => Some(i),
            None => not_live_under(r, m, not_live, "parent"@),
        }
    }
}

fn not_live_under_exec(r: &EmittedResource, manifest: &Manifest, not_live: &Vec<(String, Outcome)>, key: &str) -> (i: Option<usize>)
    ensures
        match i {
            Some(i) => not_live_under(*r, *manifest, not_live@, key@) == Some(i as int) && i < not_live@.len(),
            None => not_live_under(*r, *manifest, not_live@, key@) is None,
        },
{
    proof {
        reveal_strlit("google_project");
        reveal_strlit("projects/");
    }
    match get_value(&r.refs, key) {
        Some(t) => match ref_target(t.as_str()) {
            Some(p) => match manifest.get(p.0.as_str()) {
                Some(x) => {
                    if str_eq(x.tf_type.as_str(), "google_project") {
                        match entry_lookup(not_live, p.0.as_str()) {
                            Some(i) => {
                                return Some(i);
                            },
                            None => {},
                        }
                    }
                },
                None => {},
            },
            None => {},
        },
        None => {},
    }
    match get_value(&r.attrs, key) {
        Some(lit) => {
            let pid = from_chars(&trim_start_matches(&to_chars(lit.as_str()), "projects/"));
            entry_lookup(not_live, pid.as_str())
        },
        None => None,
    }
}

/// What a resource inherits from a project that is not live, if anything.
pub fn parent_not_live<'a>(r: &EmittedResource, manifest: &Manifest, not_live: &'a Vec<(String, Outcome)>) -> (o: Option<&'a Outcome>)
    ensures
        match parent_not_live_of(*r, *manifest, not_live@) {
            Some(i) => o == Some(&not_live@[i].1),
            None => o is None,
        },
{
    proof {
        reveal_strlit("google_project");
    }
    if str_eq(r.tf_type.as_str(), "google_project") || not_live.len() == 0 {
        return None;
    }
    let i = match not_live_under_exec(r, manifest, not_live, "project") {
        Some(i) => Some(i),
        None => not_live_under_exec(r, manifest, not_live, "parent"),
    };
    match i {
        Some(i) => Some(&not_live[i].1),
        None => None,
    }
}

// ---------------------------------------------------------------------------
// The order resources are resolved in
// ---------------------------------------------------------------------------

/// The declared folder a resource's `parent` reference names, if any.
pub open spec fn parent_folder(m: Manifest, r: EmittedResource) -> Option<EmittedResource> {
    match kv_get(r.refs@, "parent"@) {
        Some(t) => match ref_target_of(t) {
            Some(p) => match resource_at(m, p.0) {
                Some(x) => if x.tf_type@ == "google_folder"@ { Some(x) } else { None },
                None => None,
            },
            None => None,
        },
        None => None,
    }
}

/// How many declared folders lie above `r`, counted on from `d` and capped
/// at 64.
pub open spec fn depth_from(m: Manifest, r: EmittedResource, d: int) -> int
    decreases 64 - d,
{
    if d < 64 {
        match parent_folder(m, r) {
            Some(p) => depth_from(m, p, d + 1),
            None => d,
        }
    } else {
        d
    }
}

proof fn lemma_depth_bound(m: Manifest, r: EmittedResource, d: int)
    requires
        0 <= d <= 64,
    ensures
        d <= depth_from(m, r, d) <= 64,
    decreases 64 - d,
{
    if d < 64 {
        match parent_folder(m, r) {
            Some(p) => lemma_depth_bound(m, p, d + 1),
            None => {},
        }
    }
}

/// Folders first, then projects, then everything else, and the IAM grants last.
pub open spec fn resolve_group(r: EmittedResource) -> u8 {
    if r.tf_type@ == "google_folder"@ {
        0
    } else if r.tf_type@ == "google_project"@ {
        1
    } else if grant_parent_of(r.tf_type@, seq![]) is Some {
        3
    } else {
        2
    }
}

pub open spec fn resolve_key(m: Manifest, r: EmittedResource) -> crate::order::KeyV {
    (resolve_group(r), if r.tf_type@ == "google_folder"@ { depth_from(m, r, 0) as u8 } else { 0u8 },
        address_of_resource(r), Seq::<char>::empty())
}

/// The positions of the manifest's resources in the order they are resolved:
/// folders by depth, outermost first, then by address; projects by address;
/// everything else by address; the IAM grants last, by address.
pub open spec fn resolve_order(m: Manifest) -> Seq<int> {
    stable_order(m.resources@.map_values(|r: EmittedResource| resolve_key(m, r)), m.resources@.len())
}

fn parent_folder_exec<'a>(m: &'a Manifest, r: &EmittedResource) -> (p: Option<&'a EmittedResource>)
    ensures
        match p {
            Some(x) => parent_folder(*m, *r) == Some(*x),
            None => parent_folder(*m, *r) is None,
        },
{
    proof {
        reveal_strlit("parent");
        reveal_strlit("google_folder");
    }
    match get_value(&r.refs, "parent") {
        Some(t) => match ref_target(t.as_str()) {
            Some(p) => match m.get(p.0.as_str()) {
                Some(x) => if str_eq(x.tf_type.as_str(), "google_folder") { Some(x) } else { None },
                None => None,
            },
            None => None,
        },
        None => None,
    }
}

fn depth_exec(m: &Manifest, r: &EmittedResource) -> (d: u8)
    ensures
        d == depth_from(*m, *r, 0),
{
    let mut d: u8 = 0;
    let mut cur: &EmittedResource = r;
    loop
        invariant
            d <= 64,
            depth_from(*m, *cur, d as int) == depth_from(*m, *r, 0),
        decreases 64 - d,
    {
        if d >= 64 {
            return d;
        }
        match parent_folder_exec(m, cur) {
            Some(p) => {
                d = d + 1;
                cur = p;
            },
            None => {
                return d;
            },
        }
    }
}

/// The positions of the manifest's resources in the order adopt resolves them.
pub fn ordered(manifest: &Manifest) -> (o: Vec<usize>)
    ensures
        o@.map_values(|z: usize| z as int) == resolve_order(*manifest),
{
    proof {
        reveal_strlit("google_folder");
        reveal_strlit("google_project");
    }
    let ghost rv = manifest.resources@.map_values(|r: EmittedResource| resolve_key(*manifest, r));
    let mut keys: Vec<SortKey> = Vec::new();
    let mut i: usize = 0;
    while i < manifest.resources.len()
        invariant
            i <= manifest.resources@.len(),
            rv == manifest.resources@.map_values(|r: EmittedResource| resolve_key(*manifest, r)),
            crate::order::key_views(keys@) == rv.take(i as int),
        decreases manifest.resources.len() - i,
    {
        let r = &manifest.resources[i];
        let t = r.tf_type.as_str();
        let group: u8 = if str_eq(t, "google_folder") {
            0
        } else if str_eq(t, "google_project") {
            1
        } else if grant_parent(t, "").is_some() {
            3
        } else {
            2
        };
        let depth: u8 = if str_eq(t, "google_folder") { depth_exec(manifest, r) } else { 0 };
        proof {
            lemma_depth_bound(*manifest, *r, 0);
            reveal_strlit("");
            assert(""@ =~= Seq::<char>::empty());
        }
        let ghost before = crate::order::key_views(keys@);
        keys.push(SortKey { first: group, second: depth, third: r.address(), fourth: String::new() });
        assert(crate::order::key_views(keys@) =~= before.push(rv[i as int]));
        assert(rv.take(i + 1) =~= rv.take(i as int).push(rv[i as int]));
        i = i + 1;
    }
    assert(rv.take(i as int) =~= rv);
    crate::order::stable_sort_positions(&keys)
}

// ---------------------------------------------------------------------------
// Rules
// ---------------------------------------------------------------------------

/// The adoption rule of a resource type, from the import configuration.
#[derive(Debug, Clone)]
pub enum Rule {
    /// an import-id template, rendered offline
    Template(String),
    /// the attributes to match a live asset on, and the asset type to list
    Match(Vec<String>, Option<String>),
    /// no rule for the type
    Absent,
}

/// A rule as the contracts see it.
pub enum RuleV {
    Template(Seq<char>),
    Match(Seq<Seq<char>>, Option<Seq<char>>),
    Absent,
}

pub open spec fn rule_view(r: Rule) -> RuleV {
    match r {
        Rule::Template(t) => RuleV::Template(t@),
        Rule::Match(on, a) => RuleV::Match(crate::order::string_views(on@), opt_str(a)),
        Rule::Absent => RuleV::Absent,
    }
}

/// The rule the configuration's row for `t` gives: its `import_id` template
/// first, else its `match_on` attributes.
pub open spec fn rule_of(rules: DiscoveryConfig, t: Seq<char>) -> RuleV {
    match row_of(rules, t) {
        Some(row) => match row.import_id {
            Some(id) => RuleV::Template(id@),
            None => match row.match_on {
                Some(on) => RuleV::Match(crate::order::string_views(on@), opt_str(row.asset_type)),
                None => RuleV::Absent,
            },
        },
        None => RuleV::Absent,
    }
}

fn copy_strings(v: &Vec<String>) -> (c: Vec<String>)
    ensures
        c@ == v@,
{
    let mut c: Vec<String> = Vec::new();
    let mut i: usize = 0;
    while i < v.len()
        invariant
            i <= v@.len(),
            c@ == v@.take(i as int),
        decreases v.len() - i,
    {
        c.push(v[i].clone());
        assert(v@.take(i + 1) =~= v@.take(i as int).push(v@[i as int]));
        i = i + 1;
    }
    assert(v@.take(v@.len() as int) =~= v@);
    c
}

/// The adoption rule for a resource type.
pub fn rule_for(rules: &DiscoveryConfig, tf_type: &str) -> (r: Rule)
    ensures
        rule_view(r) == rule_of(*rules, tf_type@),
{
    match rules.get(tf_type) {
        Some(row) => match &row.import_id {
            Some(id) => Rule::Template(id.clone()),
            None => match &row.match_on {
                Some(on) => Rule::Match(copy_strings(on), clone_opt(&row.asset_type)),
                None => Rule::Absent,
            },
        },
        None => Rule::Absent,
    }
}

/// The types adopt looks up by their natural key in code rather than by a rule.
pub open spec fn is_native(t: Seq<char>) -> bool {
    t == "google_folder"@ || t == "google_project"@ || t == "google_cloud_identity_group"@
        || t == "google_cloud_identity_group_membership"@ || t == "google_org_policy_policy"@ || t == "google_billing_budget"@
}

fn is_native_exec(t: &str) -> (b: bool)
    ensures
        b == is_native(t@),
{
    str_eq(t, "google_folder") || str_eq(t, "google_project") || str_eq(t, "google_cloud_identity_group")
        || str_eq(t, "google_cloud_identity_group_membership") || str_eq(t, "google_org_policy_policy")
        || str_eq(t, "google_billing_budget")
}

/// Whether adopt can resolve a live object of the type at all: a native
/// lookup, an `import_id` template or a `match_on` rule.
pub fn adoptable(rules: &DiscoveryConfig, tf_type: &str) -> (b: bool)
    ensures
        b == (is_native(tf_type@) || !(rule_of(*rules, tf_type@) is Absent)),
{
    if is_native_exec(tf_type) {
        return true;
    }
    match rule_for(rules, tf_type) {
        Rule::Absent => false,
        _ => true,
    }
}

/// Rendering looks at what the run knows only through its ids and verdicts,
/// and a rendering error is of kind 0, 1 or 2.
proof fn lemma_rendered_known(template: Seq<char>, rest: Seq<char>, r: EmittedResource, m: Manifest, k1: Known, k2: Known, acc: Seq<char>)
    requires
        k1.ids@ == k2.ids@,
        k1.verdicts@ == k2.verdicts@,
    ensures
        rendered(template, rest, r, m, k1, acc) == rendered(template, rest, r, m, k2, acc),
        match rendered(template, rest, r, m, k1, acc) {
            Ok(_) => true,
            Err(e) => 0 <= e.0 <= 2,
        },
    decreases rest.len(),
{
    match find(rest, '{') {
        None => {},
        Some(start) => match find(rest.skip(start), '}') {
            None => {},
            Some(end) => {
                if 0 <= start && 1 <= end && start + end + 1 <= rest.len() {
                    let key = rest.subrange(start + 1, start + end);
                    assert(value_of_spec(r, key, m, k1) == value_of_spec(r, key, m, k2));
                    match value_of_spec(r, key, m, k1) {
                        Ok(v) => {
                            lemma_rendered_known(template, rest.skip(start + end + 1), r, m, k1, k2, acc + rest.take(start) + v);
                        },
                        Err(e) => {},
                    }
                }
            },
        },
    }
}

/// What a template rule renders offline, as the template check of the shipped library reads it: the id,
/// or why not — the reason of an unresolvable placeholder, else the outcome
/// as `{:?}` writes it.
pub open spec fn rule_rendering(v: Valued) -> Result<Seq<char>, Seq<char>> {
    match v {
        Ok(id) => Ok(id),
        Err(e) => if e.0 == 2 {
            Err(e.1)
        } else if e.0 == 0 {
            Err("ParentOnApply("@ + debug_str(e.1) + ")"@)
        } else {
            Err("Failed("@ + debug_str(e.1) + ")"@)
        },
    }
}

pub open spec fn result_view(r: Result<String, String>) -> Result<Seq<char>, Seq<char>> {
    match r {
        Ok(s) => Ok(s@),
        Err(s) => Err(s@),
    }
}

/// The id an `import_id` rule renders for `r` offline, knowing nothing of the
/// run, or why it cannot; `None` for a type without a template rule.
pub fn render_rule(rules: &DiscoveryConfig, r: &EmittedResource, manifest: &Manifest) -> (o: Option<Result<String, String>>)
    ensures
        match rule_of(*rules, r.tf_type@) {
            RuleV::Template(t) => o is Some && forall|k: Known| k.ids@.len() == 0 && k.verdicts@.len() == 0
                ==> result_view(#[trigger] o->0) == rule_rendering(rendered(t, t, *r, *manifest, k, seq![])),
            _ => o is None,
        },
{
    let known = Known { ids: Vec::new(), verdicts: Vec::new() };
    match rule_for(rules, r.tf_type.as_str()) {
        Rule::Template(t) => {
            let (_, out) = render_template(t.as_str(), r, manifest, &known);
            proof {
                lemma_rendered_known(t@, t@, *r, *manifest, known, known, seq![]);
                assert forall|k: Known| k.ids@.len() == 0 && k.verdicts@.len() == 0 implies rendered(t@, t@, *r, *manifest, k, seq![])
                    == rendered(t@, t@, *r, *manifest, known, seq![]) by {
                    assert(k.ids@ =~= known.ids@);
                    assert(k.verdicts@ =~= known.verdicts@);
                    lemma_rendered_known(t@, t@, *r, *manifest, k, known, seq![]);
                }
            }
            let res = match out {
                Outcome::Resolved { id, .. } => Ok(id),
                Outcome::Unresolvable(why) => Err(why),
                other => Err(outcome_debug(&other)),
            };
            Some(res)
        },
        _ => None,
    }
}

// ---------------------------------------------------------------------------
// An outcome as `{:?}` writes it
// ---------------------------------------------------------------------------

pub open spec fn bool_text(b: bool) -> Seq<char> {
    if b { "true"@ } else { "false"@ }
}

pub open spec fn opt_bool_text(o: Option<bool>) -> Seq<char> {
    match o {
        Some(b) => "Some("@ + bool_text(b) + ")"@,
        None => "None"@,
    }
}

/// A list of strings as `{:?}` writes it, without its brackets.
pub open spec fn debug_items(v: Seq<Seq<char>>) -> Seq<char> {
    join(v.map_values(|x: Seq<char>| debug_str(x)), ", "@)
}

/// What `{:?}` writes for an outcome.
pub open spec fn debug_text(o: Outcome) -> Seq<char> {
    match o {
        Outcome::AlreadyAdopted(s) => "AlreadyAdopted("@ + debug_str(s@) + ")"@,
        Outcome::Resolved { id, verified } => "Resolved { id: "@ + debug_str(id@) + ", verified: "@ + bool_text(verified) + " }"@,
        Outcome::NeedsActivation { id, enforce } => "NeedsActivation { id: "@ + debug_str(id@) + ", enforce: "@
            + opt_bool_text(enforce) + " }"@,
        Outcome::OnApply => "OnApply"@,
        Outcome::ParentOnApply(s) => "ParentOnApply("@ + debug_str(s@) + ")"@,
        Outcome::Ambiguous(v) => "Ambiguous(["@ + debug_items(crate::order::string_views(v@)) + "])"@,
        Outcome::NeedsLookup(s) => "NeedsLookup("@ + debug_str(s@) + ")"@,
        Outcome::NoRule => "NoRule"@,
        Outcome::Unresolvable(s) => "Unresolvable("@ + debug_str(s@) + ")"@,
        Outcome::Failed(s) => "Failed("@ + debug_str(s@) + ")"@,
        Outcome::Skipped => "Skipped"@,
    }
}

fn push_bool(out: &mut Vec<char>, b: bool)
    ensures
        final(out)@ == old(out)@ + bool_text(b),
{
    proof {
        reveal_strlit("true");
        reveal_strlit("false");
    }
    if b {
        push_str_chars(out, "true");
    } else {
        push_str_chars(out, "false");
    }
}

fn push_debug(out: &mut Vec<char>, s: &str)
    ensures
        final(out)@ == old(out)@ + debug_str(s@),
{
    let q = debug_quote(s);
    push_str_chars(out, q.as_str());
}

/// `{:?}` of an outcome.
pub fn outcome_debug(o: &Outcome) -> (r: String)
    ensures
        r@ == debug_text(*o),
{
    let mut out: Vec<char> = Vec::new();
    match o {
        Outcome::AlreadyAdopted(s) => {
            push_str_chars(&mut out, "AlreadyAdopted(");
            push_debug(&mut out, s.as_str());
            push_str_chars(&mut out, ")");
        },
        Outcome::Resolved { id, verified } => {
            push_str_chars(&mut out, "Resolved { id: ");
            push_debug(&mut out, id.as_str());
            push_str_chars(&mut out, ", verified: ");
            push_bool(&mut out, *verified);
            push_str_chars(&mut out, " }");
        },
        Outcome::NeedsActivation { id, enforce } => {
            push_str_chars(&mut out, "NeedsActivation { id: ");
            push_debug(&mut out, id.as_str());
            push_str_chars(&mut out, ", enforce: ");
            match enforce {
                Some(b) => {
                    push_str_chars(&mut out, "Some(");
                    push_bool(&mut out, *b);
                    push_str_chars(&mut out, ")");
                },
                None => push_str_chars(&mut out, "None"),
            }
            push_str_chars(&mut out, " }");
        },
        Outcome::OnApply => push_str_chars(&mut out, "OnApply"),
        Outcome::ParentOnApply(s) => {
            push_str_chars(&mut out, "ParentOnApply(");
            push_debug(&mut out, s.as_str());
            push_str_chars(&mut out, ")");
        },
        Outcome::Ambiguous(v) => {
            push_str_chars(&mut out, "Ambiguous([");
            let mut parts: Vec<Vec<char>> = Vec::new();
            let mut i: usize = 0;
            while i < v.len()
                invariant
                    i <= v@.len(),
                    views(parts@) == crate::order::string_views(v@).take(i as int).map_values(|x: Seq<char>| debug_str(x)),
                decreases v.len() - i,
            {
                let q = debug_quote(v[i].as_str());
                let ghost before = views(parts@);
                parts.push(to_chars(q.as_str()));
                assert(views(parts@) =~= before.push(debug_str(v@[i as int]@)));
                assert(crate::order::string_views(v@)[i as int] == v@[i as int]@);
                assert(views(parts@) =~= crate::order::string_views(v@).take(i + 1).map_values(|x: Seq<char>| debug_str(x)));
                i = i + 1;
            }
            assert(crate::order::string_views(v@).take(v@.len() as int) =~= crate::order::string_views(v@));
            let joined = join_chars(&parts, &to_chars(", "));
            push_chars(&mut out, &joined);
            push_str_chars(&mut out, "])");
        },
        Outcome::NeedsLookup(s) => {
            push_str_chars(&mut out, "NeedsLookup(");
            push_debug(&mut out, s.as_str());
            push_str_chars(&mut out, ")");
        },
        Outcome::NoRule => push_str_chars(&mut out, "NoRule"),
        Outcome::Unresolvable(s) => {
            push_str_chars(&mut out, "Unresolvable(");
            push_debug(&mut out, s.as_str());
            push_str_chars(&mut out, ")");
        },
        Outcome::Failed(s) => {
            push_str_chars(&mut out, "Failed(");
            push_debug(&mut out, s.as_str());
            push_str_chars(&mut out, ")");
        },
        Outcome::Skipped => push_str_chars(&mut out, "Skipped"),
    }
    from_chars(&out)
}

// ---------------------------------------------------------------------------
// What a project's outcome means for what it holds
// ---------------------------------------------------------------------------

/// The verdict the resources inside a project inherit from its outcome, as
/// `(text, kind)` of `outcome_reading` (0 on apply with it, 1 failed, 2
/// unresolvable); `None` when they are resolved normally.
pub open spec fn children_verdict(r: EmittedResource, o: Outcome) -> Option<(Seq<char>, int)> {
    let a = address_of_resource(r);
    match o {
        Outcome::Resolved { .. } => None,
        Outcome::AlreadyAdopted(_) => None,
        Outcome::Skipped => None,
        Outcome::OnApply => Some((a + " is not live — created with it"@, 0)),
        Outcome::Failed(e) => Some((a + ": "@ + e@, 1)),
        _ => Some((a + ": "@ + debug_text(o), 2)),
    }
}

/// What a project's outcome means for the resources inside it.
pub fn project_verdict_for_children(r: &EmittedResource, outcome: &Outcome) -> (v: Option<Outcome>)
    ensures
        match children_verdict(*r, *outcome) {
            Some(c) => v is Some && outcome_reading(v->0) == Some(c) && !(v->0 is Resolved),
            None => v is None,
        },
{
    match outcome {
        Outcome::Resolved { .. } => None,
        Outcome::AlreadyAdopted(_) => None,
        Outcome::Skipped => None,
        Outcome::OnApply => {
            let mut t = to_chars(r.address().as_str());
            push_str_chars(&mut t, " is not live — created with it");
            Some(Outcome::ParentOnApply(from_chars(&t)))
        },
        Outcome::Failed(e) => {
            let mut t = to_chars(r.address().as_str());
            push_str_chars(&mut t, ": ");
            push_str_chars(&mut t, e.as_str());
            Some(Outcome::Failed(from_chars(&t)))
        },
        _ => {
            let mut t = to_chars(r.address().as_str());
            push_str_chars(&mut t, ": ");
            push_str_chars(&mut t, outcome_debug(outcome).as_str());
            Some(Outcome::Unresolvable(from_chars(&t)))
        },
    }
}

/// A copy of a verdict a project hands its children.
fn copy_verdict(o: &Outcome) -> (c: Outcome)
    requires
        o is ParentOnApply || o is Failed || o is Unresolvable,
    ensures
        c == *o,
{
    match o {
        Outcome::ParentOnApply(w) => Outcome::ParentOnApply(w.clone()),
        Outcome::Failed(w) => Outcome::Failed(w.clone()),
        _ => match o {
            Outcome::Unresolvable(w) => Outcome::Unresolvable(w.clone()),
            _ => Outcome::OnApply,
        },
    }
}

// ---------------------------------------------------------------------------
// Resolving the manifest, one resource at a time
// ---------------------------------------------------------------------------

/// The live lookup a resource needs.
#[derive(Debug, Clone)]
pub enum Lookup {
    Folder,
    Project,
    Group,
    Membership,
    OrgPolicy,
    Budget,
    /// an IAM grant whose import id rendered offline: the live IAM policy of
    /// its parent decides
    Grant(String),
    /// a live asset matched on these attributes, of this asset type
    Match(Vec<String>, Option<String>),
}

pub enum LookupV {
    Folder,
    Project,
    Group,
    Membership,
    OrgPolicy,
    Budget,
    Grant(Seq<char>),
    Match(Seq<Seq<char>>, Option<Seq<char>>),
}

pub open spec fn lookup_view(l: Lookup) -> LookupV {
    match l {
        Lookup::Folder => LookupV::Folder,
        Lookup::Project => LookupV::Project,
        Lookup::Group => LookupV::Group,
        Lookup::Membership => LookupV::Membership,
        Lookup::OrgPolicy => LookupV::OrgPolicy,
        Lookup::Budget => LookupV::Budget,
        Lookup::Grant(id) => LookupV::Grant(id@),
        Lookup::Match(on, a) => LookupV::Match(crate::order::string_views(on@), opt_str(a)),
    }
}

/// What resolving one resource takes.
#[derive(Debug, Clone)]
pub enum Step {
    /// The estate already carries this import id: the outcome is `AlreadyAdopted`.
    Adopted(String),
    /// Left out by `--only`.
    Skipped,
    /// The resource takes the verdict of this entry of the projects that are
    /// not live.
    Inherited(usize),
    /// No adoption rule for the type.
    NoRule,
    /// Decided offline from a template rule: what it was matched on, and the outcome.
    Rendered(String, Outcome),
    /// A live lookup decides.
    Ask(Lookup),
}

pub enum StepV {
    Adopted(Seq<char>),
    Skipped,
    Inherited(int),
    NoRule,
    Rendered(Seq<char>, Option<(Seq<char>, int)>),
    Ask(LookupV),
}

pub open spec fn step_view(s: Step) -> StepV {
    match s {
        Step::Adopted(id) => StepV::Adopted(id@),
        Step::Skipped => StepV::Skipped,
        Step::Inherited(i) => StepV::Inherited(i as int),
        Step::NoRule => StepV::NoRule,
        Step::Rendered(k, o) => StepV::Rendered(k@, outcome_reading(o)),
        Step::Ask(l) => StepV::Ask(lookup_view(l)),
    }
}

/// The types adopt looks up natively, and how.
pub open spec fn native_lookup(t: Seq<char>) -> Option<LookupV> {
    if t == "google_folder"@ {
        Some(LookupV::Folder)
    } else if t == "google_project"@ {
        Some(LookupV::Project)
    } else if t == "google_cloud_identity_group"@ {
        Some(LookupV::Group)
    } else if t == "google_cloud_identity_group_membership"@ {
        Some(LookupV::Membership)
    } else if t == "google_org_policy_policy"@ {
        Some(LookupV::OrgPolicy)
    } else if t == "google_billing_budget"@ {
        Some(LookupV::Budget)
    } else {
        None
    }
}

/// What resolving `r` takes: an import id the estate carries decides first,
/// then `--only` (an empty list keeps every type), then a project that is not
/// live and holds it, then a native lookup, and last the type's rule — a
/// template is rendered offline, and a rendered IAM grant is checked against
/// the live policy of its parent.
pub open spec fn plan_of(r: EmittedResource, m: Manifest, rules: DiscoveryConfig, only: Seq<Seq<char>>, k: Known,
    not_live: Seq<(String, Outcome)>) -> StepV {
    match r.import_id {
        Some(id) => StepV::Adopted(id@),
        None => if only.len() > 0 && !only.contains(r.tf_type@) {
            StepV::Skipped
        } else {
            match parent_not_live_of(r, m, not_live) {
                Some(i) => StepV::Inherited(i),
                None => match native_lookup(r.tf_type@) {
                    Some(l) => StepV::Ask(l),
                    None => match rule_of(rules, r.tf_type@) {
                        RuleV::Template(t) => {
                            let v = rendered(t, t, r, m, k, seq![]);
                            match v {
                                Ok(id) => if grant_parent_of(r.tf_type@, seq![]) is Some {
                                    StepV::Ask(LookupV::Grant(id))
                                } else {
                                    StepV::Rendered(id, Some(valued_outcome(v)))
                                },
                                Err(_) => StepV::Rendered(t, Some(valued_outcome(v))),
                            }
                        },
                        RuleV::Match(on, a) => StepV::Ask(LookupV::Match(on, a)),
                        RuleV::Absent => StepV::NoRule,
                    },
                },
            }
        },
    }
}

fn listed_type(only: &Vec<String>, t: &str) -> (b: bool)
    ensures
        b == crate::order::string_views(only@).contains(t@),
{
    let mut i: usize = 0;
    while i < only.len()
        invariant
            i <= only@.len(),
            forall|j: int| 0 <= j < i ==> only@[j]@ != t@,
        decreases only.len() - i,
    {
        if str_eq(only[i].as_str(), t) {
            assert(crate::order::string_views(only@)[i as int] == t@);
            return true;
        }
        i = i + 1;
    }
    proof {
        if crate::order::string_views(only@).contains(t@) {
            let j = choose|j: int| 0 <= j < only@.len() && crate::order::string_views(only@)[j] == t@;
            assert(only@[j]@ == t@);
        }
    }
    false
}

fn native_lookup_exec(t: &str) -> (l: Option<Lookup>)
    ensures
        match l {
            Some(x) => native_lookup(t@) == Some(lookup_view(x)),
            None => native_lookup(t@) is None,
        },
{
    if str_eq(t, "google_folder") {
        Some(Lookup::Folder)
    } else if str_eq(t, "google_project") {
        Some(Lookup::Project)
    } else if str_eq(t, "google_cloud_identity_group") {
        Some(Lookup::Group)
    } else if str_eq(t, "google_cloud_identity_group_membership") {
        Some(Lookup::Membership)
    } else if str_eq(t, "google_org_policy_policy") {
        Some(Lookup::OrgPolicy)
    } else if str_eq(t, "google_billing_budget") {
        Some(Lookup::Budget)
    } else {
        None
    }
}

/// What resolving `r` takes, given what the run knows so far and the
/// projects it has found not live.
pub fn resolve_step(r: &EmittedResource, manifest: &Manifest, rules: &DiscoveryConfig, only: &Vec<String>, known: &Known,
    not_live: &Vec<(String, Outcome)>) -> (s: Step)
    ensures
        step_view(s) == plan_of(*r, *manifest, *rules, crate::order::string_views(only@), *known, not_live@),
        match s {
            Step::Inherited(i) => i < not_live@.len(),
            _ => true,
        },
{
    match &r.import_id {
        Some(id) => {
            return Step::Adopted(id.clone());
        },
        None => {},
    }
    if only.len() > 0 && !listed_type(only, r.tf_type.as_str()) {
        return Step::Skipped;
    }
    let ghost nl = not_live@;
    match parent_not_live(r, manifest, not_live) {
        Some(_) => {
            let i = inherited_index(r, manifest, not_live);
            return Step::Inherited(i);
        },
        None => {},
    }
    match native_lookup_exec(r.tf_type.as_str()) {
        Some(l) => {
            return Step::Ask(l);
        },
        None => {},
    }
    match rule_for(rules, r.tf_type.as_str()) {
        Rule::Template(t) => {
            let (key, out) = render_template(t.as_str(), r, manifest, known);
            proof {
                lemma_rendered_known(t@, t@, *r, *manifest, *known, *known, seq![]);
                reveal_strlit("");
                assert(""@ =~= Seq::<char>::empty());
            }
            match out {
                Outcome::Resolved { id, verified } => {
                    if !verified && grant_parent(r.tf_type.as_str(), "").is_some() {
                        proof {
                            reveal_strlit("");
                            assert(""@ =~= Seq::<char>::empty());
                        }
                        Step::Ask(Lookup::Grant(id))
                    } else {
                        proof {
                            reveal_strlit("");
                            assert(""@ =~= Seq::<char>::empty());
                        }
                        Step::Rendered(key, Outcome::Resolved { id, verified })
                    }
                },
                other => Step::Rendered(key, other),
            }
        },
        Rule::Match(on, a) => Step::Ask(Lookup::Match(on, a)),
        Rule::Absent => Step::NoRule,
    }
}

/// The index `parent_not_live` found, as a position.
fn inherited_index(r: &EmittedResource, manifest: &Manifest, not_live: &Vec<(String, Outcome)>) -> (i: usize)
    requires
        parent_not_live_of(*r, *manifest, not_live@) is Some,
    ensures
        parent_not_live_of(*r, *manifest, not_live@) == Some(i as int),
        i < not_live@.len(),
{
    match not_live_under_exec(r, manifest, not_live, "project") {
        Some(i) => i,
        None => match not_live_under_exec(r, manifest, not_live, "parent") {
            Some(i) => i,
            None => 0,
        },
    }
}

/// The entries a resolved resource adds to the projects that are not live: a
/// project whose outcome its children inherit, under its address and under
/// its literal `project_id`, with the verdict as `outcome_reading` reads it.
pub open spec fn not_live_added(r: EmittedResource, o: Outcome) -> Seq<(Seq<char>, (Seq<char>, int))> {
    if r.tf_type@ == "google_project"@ {
        match children_verdict(r, o) {
            Some(v) => seq![(address_of_resource(r), v)] + match kv_get(r.attrs@, "project_id"@) {
                Some(pid) => seq![(pid, v)],
                None => Seq::empty(),
            },
            None => Seq::empty(),
        }
    } else {
        Seq::empty()
    }
}

/// `after` is `before` with the entries `not_live_added` gives appended.
pub open spec fn recorded_not_live(before: Seq<(String, Outcome)>, after: Seq<(String, Outcome)>, r: EmittedResource, o: Outcome) -> bool {
    let add = not_live_added(r, o);
    &&& after.len() == before.len() + add.len()
    &&& after.take(before.len() as int) == before
    &&& forall|j: int| 0 <= j < add.len() ==> after[before.len() + j].0@ == (#[trigger] add[j]).0
        && outcome_reading(after[before.len() + j].1) == Some(add[j].1) && !(after[before.len() + j].1 is Resolved)
}

/// Record a resolved resource: its verdict and live id in what the run knows,
/// and, for a project its children cannot be resolved under, its verdict among
/// the projects that are not live.
pub fn record_resolution(r: &EmittedResource, outcome: &Outcome, known: &mut Known, not_live: &mut Vec<(String, Outcome)>)
    ensures
        forall|a: Seq<char>| latest_verdict(final(known).verdicts@, a) == if a == address_of_resource(*r) {
            Some(verdict_of(*outcome))
        } else {
            latest_verdict(old(known).verdicts@, a)
        },
        forall|a: Seq<char>| latest_id(final(known).ids@, a) == if a == address_of_resource(*r) && outcome_id(*outcome) is Some {
            outcome_id(*outcome)
        } else {
            latest_id(old(known).ids@, a)
        },
        recorded_not_live(old(not_live)@, final(not_live)@, *r, *outcome),
{
    proof {
        reveal_strlit("google_project");
        reveal_strlit("project_id");
    }
    let address = r.address();
    known.record(address.as_str(), outcome);
    let ghost before = not_live@;
    if str_eq(r.tf_type.as_str(), "google_project") {
        match project_verdict_for_children(r, outcome) {
            Some(v) => {
                let ghost add = not_live_added(*r, *outcome);
                match get_value(&r.attrs, "project_id") {
                    Some(pid) => {
                        let w = copy_verdict(&v);
                        not_live.push((address, v));
                        not_live.push((pid.clone(), w));
                        assert(not_live@.take(before.len() as int) =~= before);
                        assert forall|j: int| 0 <= j < add.len() implies (#[trigger] not_live@[before.len() + j]).0@ == add[j].0
                            && outcome_reading(not_live@[before.len() + j].1) == Some(add[j].1)
                            && !(not_live@[before.len() + j].1 is Resolved) by {
                            if j == 0 {
                            } else {
                                assert(j == 1);
                            }
                        }
                    },
                    None => {
                        not_live.push((address, v));
                        assert(not_live@.take(before.len() as int) =~= before);
                        assert forall|j: int| 0 <= j < add.len() implies (#[trigger] not_live@[before.len() + j]).0@ == add[j].0
                            && outcome_reading(not_live@[before.len() + j].1) == Some(add[j].1)
                            && !(not_live@[before.len() + j].1 is Resolved) by {
                            assert(j == 0);
                        }
                    },
                }
            },
            None => {
                assert(not_live@.take(before.len() as int) =~= before);
            },
        }
    } else {
        assert(not_live@.take(before.len() as int) =~= before);
    }
}

/// `plan` is to take entry `i` of `not_live`, whose verdict reads `v`.
pub open spec fn inherits(plan: StepV, not_live: Seq<(String, Outcome)>, v: (Seq<char>, int)) -> bool {
    match plan {
        StepV::Inherited(i) => 0 <= i < not_live.len() && outcome_reading(not_live[i].1) == Some(v),
        _ => false,
    }
}

/// Once a project is recorded with an outcome its children cannot be resolved
/// under, a resource of another type that names that project by reference
/// through `project`, carries no import id and is not left out by `--only`
/// takes the project's verdict before any rule of its own runs.
pub proof fn law_children_inherit_project_verdict(p: EmittedResource, o: Outcome, c: EmittedResource, m: Manifest,
    rules: DiscoveryConfig, only: Seq<Seq<char>>, k: Known, before: Seq<(String, Outcome)>, after: Seq<(String, Outcome)>,
    t: Seq<char>, attr: Seq<char>)
    requires
        p.tf_type@ == "google_project"@,
        children_verdict(p, o) is Some,
        recorded_not_live(before, after, p, o),
        resource_at(m, address_of_resource(p)) == Some(p),
        kv_get(c.refs@, "project"@) == Some(t),
        ref_target_of(t) == Some((address_of_resource(p), attr)),
        c.tf_type@ != "google_project"@,
        c.import_id is None,
        only.len() == 0 || only.contains(c.tf_type@),
    ensures
        inherits(plan_of(c, m, rules, only, k, after), after, children_verdict(p, o)->0),
{
    let a = address_of_resource(p);
    let add = not_live_added(p, o);
    assert(add.len() >= 1);
    assert(add[0].0 == a);
    assert(after[before.len() + 0int].0@ == a);
    lemma_entry_index(after, a);
    let i = entry_index(after, a)->0;
    assert(i >= before.len());
    let j = i - before.len();
    assert(0 <= j < add.len());
    assert(after[before.len() + j].0@ == add[j].0);
    assert(add[j].1 == children_verdict(p, o)->0);
    assert(outcome_reading(after[i].1) == Some(add[j].1));
    assert(not_live_under(c, m, after, "project"@) == Some(i));
    assert(parent_not_live_of(c, m, after) == Some(i));
}

// ---------------------------------------------------------------------------
// What counts as unanswered
// ---------------------------------------------------------------------------

/// Each resolution the state does not manage whose lookup failed, or that is
/// unresolvable, ambiguous or without a rule, adds exactly one to the count
/// of unanswered rows; any other resolution adds nothing.
pub proof fn law_each_unanswered_row_counts_once(rs: Seq<Resolution>, r: Resolution, st: StateIndex)
    ensures
        !manages(st, r.address@) && (r.outcome is Failed || r.outcome is Unresolvable || r.outcome is Ambiguous
            || r.outcome is NoRule) ==> count_unanswered(rs.push(r), st) == count_unanswered(rs, st) + 1,
        manages(st, r.address@) || r.outcome is AlreadyAdopted || r.outcome is Resolved || r.outcome is NeedsActivation
            || r.outcome is OnApply || r.outcome is ParentOnApply || r.outcome is NeedsLookup || r.outcome is Skipped
            ==> count_unanswered(rs.push(r), st) == count_unanswered(rs, st),
{
    assert(rs.push(r).drop_last() =~= rs);
}

} // verus!
