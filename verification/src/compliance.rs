//! Compliance plane: catalogs, control claims, and the goal view — which
//! controls the declared estate discharges, which are partial, broken,
//! deliberately deviated, unmet or organizational — and the triage of scanner
//! findings into the buckets that say who fixes them.

use vstd::prelude::*;
use vstd::string::*;
use crate::order::{lex_lt, lemma_lex_asym, lemma_lex_total, sorted_dedup, sorted_set_of, string_views};
use crate::text::{dec, dec_string, has_suffix, str_eq, to_chars};
use crate::discovery::{strip_all_prefix, trim_start_matches};

verus! {

// ---------------------------------------------------------------------------
// Data model
// ---------------------------------------------------------------------------

/// One control of a framework catalog.
#[derive(Debug, Clone)]
pub struct Control {
    pub title: String,
    pub paraphrase: String,
    /// `technical` unless the catalog says otherwise; `organizational` has no
    /// IaC witness.
    pub automatability: String,
}

/// The automatability a control has when the catalog does not name one.
pub fn default_automatability() -> (r: String)
    ensures
        r@ == "technical"@,
{
    String::from_str("technical")
}

/// A framework catalog: its controls, in catalog order.
#[derive(Debug, Clone)]
pub struct Catalog {
    pub catalog: String,
    pub version: String,
    pub controls: Vec<(String, Control)>,
}

#[derive(Debug, Clone)]
pub struct ManualDuty {
    pub id: String,
    pub duty: String,
}

/// A pack's statement about one control: `implements` discharges it,
/// `contributes` is a necessary part, `deviates` declares a deliberate
/// non-conformance with a reason.
#[derive(Debug, Clone)]
pub struct Claim {
    pub framework: String,
    pub framework_version: String,
    pub control: String,
    pub coverage: String,
    pub resources: Vec<String>,
    pub reason: String,
    pub manual_duties: Vec<ManualDuty>,
    pub interpretation: String,
}

/// One control's verdict in the goal view.
#[derive(Debug, PartialEq, Eq)]
pub enum Goal {
    /// An `implements` claim from an included pack, every witness emitted, no duties.
    Satisfied { witnesses: Vec<String> },
    /// Witnesses present but duties remain open, or only `contributes` claims exist.
    Partial { witnesses: Vec<String>, open_duties: Vec<String>, contributes_only: bool },
    /// An included pack claims the control but declared witnesses are not emitted.
    ClaimBroken { missing: Vec<String>, pack: String },
    /// An included pack or the estate declares a deliberate non-conformance.
    Deviation { reasons: Vec<(String, String)>, witnesses: Vec<String>, open_duties: Vec<String> },
    /// No included pack claims it; `providers` are the library packs that would.
    Unmet { providers: Vec<String> },
    /// The catalog marks it organizational: no IaC witness possible.
    Organizational,
}

// ---------------------------------------------------------------------------
// The goal view, stated
// ---------------------------------------------------------------------------

/// A claim about control `id` of this catalog (a claim without a version
/// matches every version).
pub open spec fn claims_control(cat: &Catalog, c: Claim, id: Seq<char>) -> bool {
    &&& c.framework@ == cat.catalog@
    &&& (c.framework_version@.len() == 0 || c.framework_version@ == cat.version@)
    &&& c.control@ == id
}

/// The claims about control `id`, in order.
pub open spec fn claims_for(cs: Seq<(String, Claim)>, cat: &Catalog, id: Seq<char>) -> Seq<(String, Claim)>
    decreases cs.len(),
{
    if cs.len() == 0 {
        seq![]
    } else {
        let rest = claims_for(cs.drop_last(), cat, id);
        if claims_control(cat, cs.last().1, id) {
            rest.push(cs.last())
        } else {
            rest
        }
    }
}

/// The packs of a list of claims.
pub open spec fn packs_of(cs: Seq<(String, Claim)>) -> Seq<Seq<char>> {
    cs.map_values(|pc: (String, Claim)| pc.0@)
}

/// The deviations among a list of claims, in order.
pub open spec fn deviations(cs: Seq<(String, Claim)>) -> Seq<(String, Claim)>
    decreases cs.len(),
{
    if cs.len() == 0 {
        seq![]
    } else {
        let rest = deviations(cs.drop_last());
        if cs.last().1.coverage@ == "deviates"@ {
            rest.push(cs.last())
        } else {
            rest
        }
    }
}

/// The texts of `rs` that `emitted` holds (`present`) or does not (`!present`), in order.
pub open spec fn emitted_or_not(rs: Seq<Seq<char>>, emitted: Seq<Seq<char>>, present: bool) -> Seq<Seq<char>>
    decreases rs.len(),
{
    if rs.len() == 0 {
        seq![]
    } else {
        let rest = emitted_or_not(rs.drop_last(), emitted, present);
        if emitted.contains(rs.last()) == present {
            rest.push(rs.last())
        } else {
            rest
        }
    }
}

/// The resources a claim declares that are not emitted.
pub open spec fn missing_of(c: Claim, emitted: Seq<Seq<char>>) -> Seq<Seq<char>> {
    emitted_or_not(string_views(c.resources@), emitted, false)
}

pub open spec fn duty_ids(c: Claim) -> Seq<Seq<char>> {
    c.manual_duties@.map_values(|d: ManualDuty| d.id@)
}

/// The missing witnesses of a list of deviations, each with its pack, in order.
pub open spec fn deviation_missing(ds: Seq<(String, Claim)>, emitted: Seq<Seq<char>>) -> Seq<(Seq<char>, Seq<char>)>
    decreases ds.len(),
{
    if ds.len() == 0 {
        seq![]
    } else {
        let pack = ds.last().0@;
        deviation_missing(ds.drop_last(), emitted) + missing_of(ds.last().1, emitted).map_values(|r: Seq<char>| (r, pack))
    }
}

/// The emitted witnesses of a list of claims, in order.
pub open spec fn present_of(ds: Seq<(String, Claim)>, emitted: Seq<Seq<char>>) -> Seq<Seq<char>>
    decreases ds.len(),
{
    if ds.len() == 0 {
        seq![]
    } else {
        present_of(ds.drop_last(), emitted) + emitted_or_not(string_views(ds.last().1.resources@), emitted, true)
    }
}

/// The manual duties of a list of claims, in order.
pub open spec fn duties_of(ds: Seq<(String, Claim)>) -> Seq<Seq<char>>
    decreases ds.len(),
{
    if ds.len() == 0 {
        seq![]
    } else {
        duties_of(ds.drop_last()) + duty_ids(ds.last().1)
    }
}

/// `(pack, reason)` of each deviation.
pub open spec fn reasons_of(ds: Seq<(String, Claim)>) -> Seq<(Seq<char>, Seq<char>)> {
    ds.map_values(|pc: (String, Claim)| (pc.0@, pc.1.reason@))
}

/// The claims whose every witness is emitted, in order.
pub open spec fn holding(cs: Seq<(String, Claim)>, emitted: Seq<Seq<char>>) -> Seq<(String, Claim)>
    decreases cs.len(),
{
    if cs.len() == 0 {
        seq![]
    } else {
        let rest = holding(cs.drop_last(), emitted);
        if missing_of(cs.last().1, emitted).len() == 0 {
            rest.push(cs.last())
        } else {
            rest
        }
    }
}

/// The last claim with a missing witness: its missing witnesses and its pack.
pub open spec fn last_broken(cs: Seq<(String, Claim)>, emitted: Seq<Seq<char>>) -> Option<(Seq<Seq<char>>, Seq<char>)>
    decreases cs.len(),
{
    if cs.len() == 0 {
        None
    } else if missing_of(cs.last().1, emitted).len() > 0 {
        Some((missing_of(cs.last().1, emitted), cs.last().0@))
    } else {
        last_broken(cs.drop_last(), emitted)
    }
}

/// Some claim of the list `implements` the control.
pub open spec fn any_implements(cs: Seq<(String, Claim)>) -> bool {
    exists|i: int| 0 <= i < cs.len() && (#[trigger] cs[i]).1.coverage@ == "implements"@
}

/// The resources of a list of claims, in order.
pub open spec fn resources_of(cs: Seq<(String, Claim)>) -> Seq<Seq<char>>
    decreases cs.len(),
{
    if cs.len() == 0 {
        seq![]
    } else {
        resources_of(cs.drop_last()) + string_views(cs.last().1.resources@)
    }
}

pub open spec fn pair_views(v: Seq<(String, String)>) -> Seq<(Seq<char>, Seq<char>)> {
    v.map_values(|p: (String, String)| (p.0@, p.1@))
}

/// The goal view's verdict on control `id`:
/// - organizational controls are `Organizational`;
/// - with no included claim, `Unmet` names the library packs that claim it;
/// - a deliberate deviation decides the control before anything else — but
///   if a witness it declares is not emitted, the claim is broken;
/// - otherwise a claim holds iff every witness it declares is emitted:
///   no holding claim with a witness is `Unmet` (or broken, naming the last
///   broken claim), an `implements` claim without duties is `Satisfied`,
///   anything else `Partial`.
pub open spec fn goal_for(g: Goal, cat: &Catalog, library: Seq<(String, Claim)>, included: Seq<(String, Claim)>,
    emitted: Seq<Seq<char>>, id: Seq<char>, control: Control) -> bool {
    let inc = claims_for(included, cat, id);
    let devs = deviations(inc);
    let good = holding(inc, emitted);
    let ws = resources_of(good);
    let duties = duties_of(good);
    if control.automatability@ == "organizational"@ {
        g is Organizational
    } else if inc.len() == 0 {
        g matches Goal::Unmet { providers } && sorted_set_of(string_views(providers@), packs_of(claims_for(library, cat, id)))
    } else if devs.len() > 0 {
        let missing = deviation_missing(devs, emitted);
        if missing.len() > 0 {
            g matches Goal::ClaimBroken { missing: m, pack } && string_views(m@) == missing.map_values(|p: (Seq<char>, Seq<char>)| p.0)
                && pack@ == missing[0].1
        } else {
            g matches Goal::Deviation { reasons, witnesses, open_duties }
                && pair_views(reasons@) == reasons_of(devs)
                && sorted_set_of(string_views(witnesses@), present_of(devs, emitted))
                && sorted_set_of(string_views(open_duties@), duties_of(devs))
        }
    } else if ws.len() == 0 {
        match last_broken(inc, emitted) {
            Some((m0, p0)) => g matches Goal::ClaimBroken { missing, pack } && string_views(missing@) == m0 && pack@ == p0,
            None => g matches Goal::Unmet { providers } && providers@.len() == 0,
        }
    } else if any_implements(good) && duties.len() == 0 {
        g matches Goal::Satisfied { witnesses } && sorted_set_of(string_views(witnesses@), ws)
    } else {
        g matches Goal::Partial { witnesses, open_duties, contributes_only }
            && sorted_set_of(string_views(witnesses@), ws)
            && sorted_set_of(string_views(open_duties@), duties)
            && contributes_only == !any_implements(good)
    }
}

// ---------------------------------------------------------------------------
// The goal view, computed
// ---------------------------------------------------------------------------

/// Whether `emitted` holds `x`.
pub fn holds(emitted: &[String], x: &str) -> (b: bool)
    ensures
        b == string_views(emitted@).contains(x@),
{
    let mut i: usize = 0;
    while i < emitted.len()
        invariant
            i <= emitted.len(),
            forall|j: int| 0 <= j < i ==> string_views(emitted@)[j] != x@,
        decreases emitted.len() - i,
    {
        if str_eq(emitted[i].as_str(), x) {
            assert(string_views(emitted@)[i as int] == x@);
            return true;
        }
        i = i + 1;
    }
    false
}

fn is_claim_for(cat: &Catalog, c: &Claim, id: &str) -> (b: bool)
    ensures
        b == claims_control(cat, *c, id@),
{
    let fv = to_chars(c.framework_version.as_str());
    str_eq(c.framework.as_str(), cat.catalog.as_str())
        && (fv.len() == 0 || str_eq(c.framework_version.as_str(), cat.version.as_str()))
        && str_eq(c.control.as_str(), id)
}

/// The claims at the positions `idx`, in that order.
pub open spec fn pick(cs: Seq<(String, Claim)>, idx: Seq<usize>) -> Seq<(String, Claim)> {
    idx.map_values(|k: usize| cs[k as int])
}

pub open spec fn in_bounds(idx: Seq<usize>, n: int) -> bool {
    forall|j: int| 0 <= j < idx.len() ==> (#[trigger] idx[j]) < n
}

/// The positions of the claims about control `id`.
fn select_claims(cs: &[(String, Claim)], cat: &Catalog, id: &str) -> (r: Vec<usize>)
    ensures
        in_bounds(r@, cs@.len() as int),
        pick(cs@, r@) == claims_for(cs@, cat, id@),
{
    let mut r: Vec<usize> = Vec::new();
    let mut i: usize = 0;
    while i < cs.len()
        invariant
            i <= cs.len(),
            in_bounds(r@, cs@.len() as int),
            pick(cs@, r@) == claims_for(cs@.take(i as int), cat, id@),
        decreases cs.len() - i,
    {
        proof {
            assert(cs@.take(i + 1).drop_last() =~= cs@.take(i as int));
            assert(cs@.take(i + 1).last() == cs@[i as int]);
        }
        if is_claim_for(cat, &cs[i].1, id) {
            let ghost before = r@;
            r.push(i);
            assert(pick(cs@, r@) =~= pick(cs@, before).push(cs@[i as int]));
        }
        i = i + 1;
    }
    assert(cs@.take(cs.len() as int) =~= cs@);
    r
}

/// The positions, among `idx`, of the deviations.
fn select_deviations(cs: &[(String, Claim)], idx: &Vec<usize>) -> (r: Vec<usize>)
    requires
        in_bounds(idx@, cs@.len() as int),
    ensures
        in_bounds(r@, cs@.len() as int),
        pick(cs@, r@) == deviations(pick(cs@, idx@)),
{
    let mut r: Vec<usize> = Vec::new();
    let mut i: usize = 0;
    while i < idx.len()
        invariant
            i <= idx.len(),
            in_bounds(idx@, cs@.len() as int),
            in_bounds(r@, cs@.len() as int),
            pick(cs@, r@) == deviations(pick(cs@, idx@.take(i as int))),
        decreases idx.len() - i,
    {
        proof {
            assert(pick(cs@, idx@.take(i + 1)).drop_last() =~= pick(cs@, idx@.take(i as int)));
            assert(pick(cs@, idx@.take(i + 1)).last() == cs@[idx@[i as int] as int]);
        }
        let k = idx[i];
        if str_eq(cs[k].1.coverage.as_str(), "deviates") {
            let ghost before = r@;
            r.push(k);
            assert(pick(cs@, r@) =~= pick(cs@, before).push(cs@[k as int]));
        }
        i = i + 1;
    }
    assert(idx@.take(idx.len() as int) =~= idx@);
    r
}

/// The texts of `rs` that `emitted` holds (`present`) or does not.
fn split_emitted(rs: &Vec<String>, emitted: &[String], present: bool) -> (r: Vec<String>)
    ensures
        string_views(r@) == emitted_or_not(string_views(rs@), string_views(emitted@), present),
{
    let mut r: Vec<String> = Vec::new();
    let mut i: usize = 0;
    while i < rs.len()
        invariant
            i <= rs.len(),
            string_views(r@) == emitted_or_not(string_views(rs@).take(i as int), string_views(emitted@), present),
        decreases rs.len() - i,
    {
        proof {
            assert(string_views(rs@).take(i + 1).drop_last() =~= string_views(rs@).take(i as int));
            assert(string_views(rs@).take(i + 1).last() == rs@[i as int]@);
        }
        if holds(emitted, rs[i].as_str()) == present {
            let ghost before = string_views(r@);
            r.push(rs[i].clone());
            assert(string_views(r@) =~= before.push(rs@[i as int]@));
        }
        i = i + 1;
    }
    assert(string_views(rs@).take(rs.len() as int) =~= string_views(rs@));
    r
}

/// `dst` followed by `src`.
fn extend_strings(dst: &mut Vec<String>, src: &Vec<String>)
    ensures
        string_views(final(dst)@) == string_views(old(dst)@) + string_views(src@),
{
    let ghost d0 = string_views(dst@);
    let mut i: usize = 0;
    while i < src.len()
        invariant
            i <= src.len(),
            string_views(dst@) == d0 + string_views(src@).take(i as int),
        decreases src.len() - i,
    {
        let ghost before = string_views(dst@);
        dst.push(src[i].clone());
        assert(string_views(dst@) =~= before.push(src@[i as int]@));
        assert(string_views(src@).take(i + 1) =~= string_views(src@).take(i as int).push(src@[i as int]@));
        i = i + 1;
    }
    assert(string_views(src@).take(src.len() as int) =~= string_views(src@));
}

fn duty_id_list(c: &Claim) -> (r: Vec<String>)
    ensures
        string_views(r@) == duty_ids(*c),
{
    let mut r: Vec<String> = Vec::new();
    let mut i: usize = 0;
    while i < c.manual_duties.len()
        invariant
            i <= c.manual_duties@.len(),
            string_views(r@) == duty_ids(*c).take(i as int),
        decreases c.manual_duties.len() - i,
    {
        let ghost before = string_views(r@);
        r.push(c.manual_duties[i].id.clone());
        assert(string_views(r@) =~= before.push(c.manual_duties@[i as int].id@));
        assert(duty_ids(*c).take(i + 1) =~= duty_ids(*c).take(i as int).push(c.manual_duties@[i as int].id@));
        i = i + 1;
    }
    assert(duty_ids(*c).take(c.manual_duties@.len() as int) =~= duty_ids(*c));
    r
}

/// Goal view of one deviated control.
fn deviation_goal(cs: &[(String, Claim)], devs: &Vec<usize>, emitted: &[String]) -> (g: Goal)
    requires
        in_bounds(devs@, cs@.len() as int),
        devs@.len() > 0,
    ensures
        ({
            let ds = pick(cs@, devs@);
            let missing = deviation_missing(ds, string_views(emitted@));
            if missing.len() > 0 {
                g matches Goal::ClaimBroken { missing: m, pack } && string_views(m@) == missing.map_values(|p: (Seq<char>, Seq<char>)| p.0)
                    && pack@ == missing[0].1
            } else {
                g matches Goal::Deviation { reasons, witnesses, open_duties }
                    && pair_views(reasons@) == reasons_of(ds)
                    && sorted_set_of(string_views(witnesses@), present_of(ds, string_views(emitted@)))
                    && sorted_set_of(string_views(open_duties@), duties_of(ds))
            }
        }),
{
    let ghost em = string_views(emitted@);
    let mut missing: Vec<String> = Vec::new();
    let mut packs: Vec<String> = Vec::new();
    let mut witnesses: Vec<String> = Vec::new();
    let mut duties: Vec<String> = Vec::new();
    let mut reasons: Vec<(String, String)> = Vec::new();
    let mut i: usize = 0;
    while i < devs.len()
        invariant
            i <= devs.len(),
            in_bounds(devs@, cs@.len() as int),
            em == string_views(emitted@),
            string_views(missing@) == deviation_missing(pick(cs@, devs@.take(i as int)), em).map_values(|p: (Seq<char>, Seq<char>)| p.0),
            string_views(packs@) == deviation_missing(pick(cs@, devs@.take(i as int)), em).map_values(|p: (Seq<char>, Seq<char>)| p.1),
            string_views(witnesses@) == present_of(pick(cs@, devs@.take(i as int)), em),
            string_views(duties@) == duties_of(pick(cs@, devs@.take(i as int))),
            pair_views(reasons@) == reasons_of(pick(cs@, devs@.take(i as int))),
        decreases devs.len() - i,
    {
        let k = devs[i];
        let c = &cs[k].1;
        let pack = &cs[k].0;
        let ghost p0 = pick(cs@, devs@.take(i as int));
        let ghost p1 = pick(cs@, devs@.take(i + 1));
        proof {
            assert(p1.drop_last() =~= p0);
            assert(p1.last() == cs@[k as int]);
        }
        let m = split_emitted(&c.resources, emitted, false);
        let ghost mm = deviation_missing(p0, em);
        let mut j: usize = 0;
        while j < m.len()
            invariant
                j <= m.len(),
                string_views(missing@) == (mm + string_views(m@).take(j as int).map_values(|r: Seq<char>| (r, pack@))).map_values(|p: (Seq<char>, Seq<char>)| p.0),
                string_views(packs@) == (mm + string_views(m@).take(j as int).map_values(|r: Seq<char>| (r, pack@))).map_values(|p: (Seq<char>, Seq<char>)| p.1),
            decreases m.len() - j,
        {
            let ghost b0 = string_views(missing@);
            let ghost b1 = string_views(packs@);
            missing.push(m[j].clone());
            packs.push(pack.clone());
            proof {
                let t0 = mm + string_views(m@).take(j as int).map_values(|r: Seq<char>| (r, pack@));
                let t1 = mm + string_views(m@).take(j + 1).map_values(|r: Seq<char>| (r, pack@));
                assert(t1 =~= t0.push((m@[j as int]@, pack@)));
                assert(string_views(missing@) =~= b0.push(m@[j as int]@));
                assert(string_views(packs@) =~= b1.push(pack@));
                assert(t1.map_values(|p: (Seq<char>, Seq<char>)| p.0) =~= t0.map_values(|p: (Seq<char>, Seq<char>)| p.0).push(m@[j as int]@));
                assert(t1.map_values(|p: (Seq<char>, Seq<char>)| p.1) =~= t0.map_values(|p: (Seq<char>, Seq<char>)| p.1).push(pack@));
            }
            j = j + 1;
        }
        proof {
            assert(string_views(m@).take(m@.len() as int) =~= string_views(m@));
            assert(deviation_missing(p1, em) =~= mm + string_views(m@).map_values(|r: Seq<char>| (r, pack@)));
        }
        let w = split_emitted(&c.resources, emitted, true);
        extend_strings(&mut witnesses, &w);
        let d = duty_id_list(c);
        extend_strings(&mut duties, &d);
        let ghost rb = pair_views(reasons@);
        reasons.push((pack.clone(), c.reason.clone()));
        proof {
            assert(pair_views(reasons@) =~= rb.push((pack@, c.reason@)));
            assert(reasons_of(p1) =~= reasons_of(p0).push((pack@, c.reason@)));
        }
        i = i + 1;
    }
    proof {
        assert(devs@.take(devs.len() as int) =~= devs@);
    }
    if missing.len() > 0 {
        let pack = packs[0].clone();
        proof {
            let dm = deviation_missing(pick(cs@, devs@), em);
            assert(string_views(packs@)[0] == dm[0].1);
        }
        return Goal::ClaimBroken { missing, pack };
    }
    let witnesses = sorted_dedup(&witnesses);
    let open_duties = sorted_dedup(&duties);
    Goal::Deviation { reasons, witnesses, open_duties }
}

/// Goal view of a control with included claims and no deviation.
fn claims_goal(cs: &[(String, Claim)], inc: &Vec<usize>, emitted: &[String]) -> (g: Goal)
    requires
        in_bounds(inc@, cs@.len() as int),
    ensures
        ({
            let ic = pick(cs@, inc@);
            let em = string_views(emitted@);
            let good = holding(ic, em);
            let ws = resources_of(good);
            let duties = duties_of(good);
            if ws.len() == 0 {
                match last_broken(ic, em) {
                    Some((m0, p0)) => g matches Goal::ClaimBroken { missing, pack } && string_views(missing@) == m0 && pack@ == p0,
                    None => g matches Goal::Unmet { providers } && providers@.len() == 0,
                }
            } else if any_implements(good) && duties.len() == 0 {
                g matches Goal::Satisfied { witnesses } && sorted_set_of(string_views(witnesses@), ws)
            } else {
                g matches Goal::Partial { witnesses, open_duties, contributes_only }
                    && sorted_set_of(string_views(witnesses@), ws)
                    && sorted_set_of(string_views(open_duties@), duties)
                    && contributes_only == !any_implements(good)
            }
        }),
{
    let ghost em = string_views(emitted@);
    let mut witnesses: Vec<String> = Vec::new();
    let mut duties: Vec<String> = Vec::new();
    let mut has_implements = false;
    let mut broken: Option<(Vec<String>, String)> = None;
    let mut good_idx: Vec<usize> = Vec::new();
    let mut i: usize = 0;
    while i < inc.len()
        invariant
            i <= inc.len(),
            in_bounds(inc@, cs@.len() as int),
            in_bounds(good_idx@, cs@.len() as int),
            em == string_views(emitted@),
            pick(cs@, good_idx@) == holding(pick(cs@, inc@.take(i as int)), em),
            string_views(witnesses@) == resources_of(pick(cs@, good_idx@)),
            string_views(duties@) == duties_of(pick(cs@, good_idx@)),
            has_implements == any_implements(pick(cs@, good_idx@)),
            match broken {
                Some((m, p)) => last_broken(pick(cs@, inc@.take(i as int)), em) == Some((string_views(m@), p@)),
                None => last_broken(pick(cs@, inc@.take(i as int)), em) == None::<(Seq<Seq<char>>, Seq<char>)>,
            },
        decreases inc.len() - i,
    {
        let k = inc[i];
        let c = &cs[k].1;
        let ghost p0 = pick(cs@, inc@.take(i as int));
        let ghost p1 = pick(cs@, inc@.take(i + 1));
        proof {
            assert(p1.drop_last() =~= p0);
            assert(p1.last() == cs@[k as int]);
        }
        let missing = split_emitted(&c.resources, emitted, false);
        if missing.len() > 0 {
            broken = Some((missing, cs[k].0.clone()));
        } else {
            let ghost g0 = pick(cs@, good_idx@);
            good_idx.push(k);
            proof {
                assert(pick(cs@, good_idx@) =~= g0.push(cs@[k as int]));
            }
            let rs = &c.resources;
            extend_strings(&mut witnesses, rs);
            let d = duty_id_list(c);
            extend_strings(&mut duties, &d);
            let imp = str_eq(c.coverage.as_str(), "implements");
            proof {
                let g1 = pick(cs@, good_idx@);
                assert(g1.drop_last() =~= g0);
                if any_implements(g0) {
                    let q = choose|q: int| 0 <= q < g0.len() && (#[trigger] g0[q]).1.coverage@ == "implements"@;
                    assert(g1[q] == g0[q]);
                }
                if imp {
                    assert(g1[g0.len() as int].1.coverage@ == "implements"@);
                }
                if any_implements(g1) {
                    let q = choose|q: int| 0 <= q < g1.len() && (#[trigger] g1[q]).1.coverage@ == "implements"@;
                    if q < g0.len() {
                        assert(g0[q] == g1[q]);
                    }
                }
            }
            has_implements = has_implements || imp;
        }
        i = i + 1;
    }
    proof {
        assert(inc@.take(inc.len() as int) =~= inc@);
    }
    if witnesses.len() == 0 {
        return match broken {
            Some((missing, pack)) => Goal::ClaimBroken { missing, pack },
            None => Goal::Unmet { providers: Vec::new() },
        };
    }
    if has_implements && duties.len() == 0 {
        let witnesses = sorted_dedup(&witnesses);
        Goal::Satisfied { witnesses }
    } else {
        let w = sorted_dedup(&witnesses);
        let d = sorted_dedup(&duties);
        Goal::Partial { witnesses: w, open_duties: d, contributes_only: !has_implements }
    }
}

/// The goal view's verdict on one control.
pub fn goal_of(cat: &Catalog, library: &[(String, Claim)], included: &[(String, Claim)], emitted: &[String],
    id: &str, control: &Control) -> (g: Goal)
    ensures
        goal_for(g, cat, library@, included@, string_views(emitted@), id@, *control),
{
    if str_eq(control.automatability.as_str(), "organizational") {
        return Goal::Organizational;
    }
    let inc = select_claims(included, cat, id);
    if inc.len() == 0 {
        let rel = select_claims(library, cat, id);
        let mut packs: Vec<String> = Vec::new();
        let mut i: usize = 0;
        while i < rel.len()
            invariant
                i <= rel.len(),
                in_bounds(rel@, library@.len() as int),
                string_views(packs@) == packs_of(pick(library@, rel@)).take(i as int),
            decreases rel.len() - i,
        {
            let ghost before = string_views(packs@);
            packs.push(library[rel[i]].0.clone());
            assert(string_views(packs@) =~= before.push(library@[rel@[i as int] as int].0@));
            assert(packs_of(pick(library@, rel@)).take(i + 1) =~= packs_of(pick(library@, rel@)).take(i as int).push(library@[rel@[i as int] as int].0@));
            i = i + 1;
        }
        assert(packs_of(pick(library@, rel@)).take(rel.len() as int) =~= packs_of(pick(library@, rel@)));
        let providers = sorted_dedup(&packs);
        return Goal::Unmet { providers };
    }
    let devs = select_deviations(included, &inc);
    if devs.len() > 0 {
        return deviation_goal(included, &devs, emitted);
    }
    claims_goal(included, &inc, emitted)
}

/// Resolve every catalog control against the claims of the included packs
/// and the emitted resource addresses, in catalog order. `library` holds the
/// claims of every pack in the preset library (for remediation suggestions
/// only); `included`, the claims the estate actually pulled in, each with its
/// pack.
pub fn resolve_goals(catalog: &Catalog, library: &[(String, Claim)], included: &[(String, Claim)], emitted: &[String]) -> (r: Vec<(String, Goal)>)
    ensures
        r@.len() == catalog.controls@.len(),
        forall|i: int| 0 <= i < r@.len() ==> (#[trigger] r@[i]).0@ == catalog.controls@[i].0@
            && goal_for(r@[i].1, catalog, library@, included@, string_views(emitted@), catalog.controls@[i].0@, catalog.controls@[i].1),
{
    let mut r: Vec<(String, Goal)> = Vec::new();
    let mut i: usize = 0;
    while i < catalog.controls.len()
        invariant
            i <= catalog.controls@.len(),
            r@.len() == i,
            forall|j: int| 0 <= j < i ==> (#[trigger] r@[j]).0@ == catalog.controls@[j].0@
                && goal_for(r@[j].1, catalog, library@, included@, string_views(emitted@), catalog.controls@[j].0@, catalog.controls@[j].1),
        decreases catalog.controls.len() - i,
    {
        let id = &catalog.controls[i].0;
        let g = goal_of(catalog, library, included, emitted, id.as_str(), &catalog.controls[i].1);
        r.push((id.clone(), g));
        i = i + 1;
    }
    r
}

// ---------------------------------------------------------------------------
// Prowler corroboration
// ---------------------------------------------------------------------------

/// One Prowler finding that maps to a catalog control.
#[derive(Debug, Clone, PartialEq, Eq)]
pub struct ProwlerFinding {
    pub check: String,
    /// PASS / FAIL / MANUAL / …
    pub status: String,
    pub severity: String,
    /// the resource's uid as Prowler names it, empty when absent
    pub resource: String,
    pub project: String,
}

/// How many findings carry `status`.
pub open spec fn count_status(fs: Seq<ProwlerFinding>, status: Seq<char>) -> nat
    decreases fs.len(),
{
    if fs.len() == 0 {
        0
    } else {
        count_status(fs.drop_last(), status) + if fs.last().status@ == status { 1nat } else { 0nat }
    }
}

/// A finding and a witness name the same resource: one id ends with the
/// other, once their leading `//` is gone.
pub open spec fn same_resource(resource: Seq<char>, witness_ids: Seq<Seq<char>>) -> bool {
    resource.len() > 0 && exists|i: int| 0 <= i < witness_ids.len() && ({
        let a = strip_all_prefix(resource, "//"@);
        let b = strip_all_prefix(#[trigger] witness_ids[i], "//"@);
        has_suffix(a, b) || has_suffix(b, a)
    })
}

/// FAIL findings on a verified witness.
pub open spec fn count_contested(fs: Seq<ProwlerFinding>, witness_ids: Seq<Seq<char>>) -> nat
    decreases fs.len(),
{
    if fs.len() == 0 {
        0
    } else {
        count_contested(fs.drop_last(), witness_ids)
            + if fs.last().status@ == "FAIL"@ && same_resource(fs.last().resource@, witness_ids) { 1nat } else { 0nat }
    }
}

proof fn lemma_contested_le_fail(fs: Seq<ProwlerFinding>, w: Seq<Seq<char>>)
    ensures
        count_contested(fs, w) <= count_status(fs, "FAIL"@),
        count_status(fs, "FAIL"@) <= fs.len(),
        count_status(fs, "PASS"@) <= fs.len(),
        count_status(fs, "MANUAL"@) <= fs.len(),
    decreases fs.len(),
{
    if fs.len() > 0 {
        lemma_contested_le_fail(fs.drop_last(), w);
    }
}

/// The Prowler cell of a control's row: `<p> PASS / <f> FAIL`, ` / <m> MANUAL`
/// when there are manual findings, and — for a verified row — the FAILs on a
/// verified witness called CONTESTED, else the FAILs elsewhere called
/// unmanaged findings.
pub open spec fn prowler_cell(fs: Seq<ProwlerFinding>, witness_ids: Seq<Seq<char>>, verified: bool) -> Seq<char> {
    let pass = count_status(fs, "PASS"@);
    let fail = count_status(fs, "FAIL"@);
    let manual = count_status(fs, "MANUAL"@);
    let contested = count_contested(fs, witness_ids);
    let elsewhere = fail - contested;
    dec(pass) + " PASS / "@ + dec(fail) + " FAIL"@
        + (if manual > 0 { " / "@ + dec(manual) + " MANUAL"@ } else { seq![] })
        + (if verified && contested > 0 {
            " · **CONTESTED** ("@ + dec(contested) + " FAIL on a verified witness)"@
        } else if verified && elsewhere > 0 {
            " · "@ + dec(elsewhere as nat) + " unmanaged finding(s) outside the estate"@
        } else {
            seq![]
        })
}

fn same_resource_exec(resource: &str, witness_ids: &[String]) -> (b: bool)
    ensures
        b == same_resource(resource@, string_views(witness_ids@)),
{
    let rc = to_chars(resource);
    if rc.len() == 0 {
        return false;
    }
    let a = trim_start_matches(&rc, "//");
    let mut i: usize = 0;
    while i < witness_ids.len()
        invariant
            i <= witness_ids.len(),
            resource@.len() > 0,
            a@ == strip_all_prefix(resource@, "//"@),
            forall|j: int| 0 <= j < i ==> !({
                let b = strip_all_prefix(#[trigger] string_views(witness_ids@)[j], "//"@);
                has_suffix(a@, b) || has_suffix(b, a@)
            }),
        decreases witness_ids.len() - i,
    {
        let wc = to_chars(witness_ids[i].as_str());
        let b = trim_start_matches(&wc, "//");
        assert(string_views(witness_ids@)[i as int] == wc@);
        if crate::text::ends_with(&a, &b) || crate::text::ends_with(&b, &a) {
            proof {
                let bb = strip_all_prefix(string_views(witness_ids@)[i as int], "//"@);
                assert(bb == b@);
                assert(has_suffix(a@, bb) || has_suffix(bb, a@));
            }
            return true;
        }
        i = i + 1;
    }
    false
}

/// The combined verdict of a control's row and Prowler's findings on it.
pub fn prowler_verdict(findings: &[ProwlerFinding], witness_ids: &[String], status_verified: bool) -> (r: String)
    ensures
        r@ == prowler_cell(findings@, string_views(witness_ids@), status_verified),
{
    let ghost w = string_views(witness_ids@);
    let mut pass: u64 = 0;
    let mut fail: u64 = 0;
    let mut manual: u64 = 0;
    let mut contested: u64 = 0;
    let mut i: usize = 0;
    while i < findings.len()
        invariant
            i <= findings.len(),
            w == string_views(witness_ids@),
            pass == count_status(findings@.take(i as int), "PASS"@),
            fail == count_status(findings@.take(i as int), "FAIL"@),
            manual == count_status(findings@.take(i as int), "MANUAL"@),
            contested == count_contested(findings@.take(i as int), w),
        decreases findings.len() - i,
    {
        let f = &findings[i];
        proof {
            assert(findings@.take(i + 1).drop_last() =~= findings@.take(i as int));
            assert(findings@.take(i + 1).last() == findings@[i as int]);
            lemma_contested_le_fail(findings@.take(i as int), w);
        }
        if str_eq(f.status.as_str(), "PASS") {
            pass = pass + 1;
        }
        if str_eq(f.status.as_str(), "FAIL") {
            fail = fail + 1;
            if same_resource_exec(f.resource.as_str(), witness_ids) {
                contested = contested + 1;
            }
        }
        if str_eq(f.status.as_str(), "MANUAL") {
            manual = manual + 1;
        }
        i = i + 1;
    }
    proof {
        assert(findings@.take(findings.len() as int) =~= findings@);
        lemma_contested_le_fail(findings@, w);
    }
    let mut cell = dec_string(pass);
    cell.append(" PASS / ");
    let f = dec_string(fail);
    cell.append(f.as_str());
    cell.append(" FAIL");
    if manual > 0 {
        cell.append(" / ");
        let m = dec_string(manual);
        cell.append(m.as_str());
        cell.append(" MANUAL");
    }
    let elsewhere = fail - contested;
    if status_verified && contested > 0 {
        cell.append(" · **CONTESTED** (");
        let c = dec_string(contested);
        cell.append(c.as_str());
        cell.append(" FAIL on a verified witness)");
    } else if status_verified && elsewhere > 0 {
        cell.append(" · ");
        let e = dec_string(elsewhere);
        cell.append(e.as_str());
        cell.append(" unmanaged finding(s) outside the estate");
    }
    cell
}

// ---------------------------------------------------------------------------
// Triage
// ---------------------------------------------------------------------------

/// Who fixes a finding, and how.
#[derive(Debug, Clone, Copy, PartialEq, Eq, PartialOrd, Ord)]
pub enum Bucket {
    /// a pack in the library already covers the control
    A,
    /// Satz declares the resource — usually a CONTESTED case
    B,
    /// the estate declares a deviation: an accepted exception
    C,
    /// unmanaged, but expressible: bring under management
    D,
    /// not IaC: a manual duty
    E,
}

pub open spec fn bucket_title(b: Bucket) -> Seq<char> {
    match b {
        Bucket::A => "A · a pack already covers it — adopt it"@,
        Bucket::B => "B · Satz declares the resource — first-party proof contested"@,
        Bucket::C => "C · declared exception — nothing to fix, something to re-assess"@,
        Bucket::D => "D · unmanaged, expressible — bring under management"@,
        Bucket::E => "E · not IaC — a manual duty"@,
    }
}

/// The rank of a bucket: A first.
pub open spec fn bucket_rank(b: Bucket) -> int {
    match b {
        Bucket::A => 0,
        Bucket::B => 1,
        Bucket::C => 2,
        Bucket::D => 3,
        Bucket::E => 4,
    }
}

/// The bucket's letter, as `{:?}` prints it.
pub open spec fn bucket_letter(b: Bucket) -> Seq<char> {
    match b {
        Bucket::A => "A"@,
        Bucket::B => "B"@,
        Bucket::C => "C"@,
        Bucket::D => "D"@,
        Bucket::E => "E"@,
    }
}

impl Bucket {
    pub fn title(self) -> (r: &'static str)
        ensures
            r@ == bucket_title(self),
    {
        match self {
            Bucket::A => "A · a pack already covers it — adopt it",
            Bucket::B => "B · Satz declares the resource — first-party proof contested",
            Bucket::C => "C · declared exception — nothing to fix, something to re-assess",
            Bucket::D => "D · unmanaged, expressible — bring under management",
            Bucket::E => "E · not IaC — a manual duty",
        }
    }

    /// The bucket's letter, as `{:?}` prints it.
    pub fn letter(self) -> (r: &'static str)
        ensures
            r@ == bucket_letter(self),
    {
        match self {
            Bucket::A => "A",
            Bucket::B => "B",
            Bucket::C => "C",
            Bucket::D => "D",
            Bucket::E => "E",
        }
    }

    pub fn rank(self) -> (r: u8)
        ensures
            r as int == bucket_rank(self),
    {
        match self {
            Bucket::A => 0,
            Bucket::B => 1,
            Bucket::C => 2,
            Bucket::D => 3,
            Bucket::E => 4,
        }
    }
}

/// The bucket of one finding, from what the estate says about its control: a
/// MANUAL finding is a duty; a deviated control an accepted exception; a
/// claimed control (satisfied, partial or broken) the estate's own resource;
/// an unmet control some library pack covers is A; an organizational control
/// is E; anything else is D when the finding names a resource and E when not.
pub open spec fn bucket_of(goal: Option<Goal>, status: Seq<char>, has_resource: bool) -> Bucket {
    if status == "MANUAL"@ {
        Bucket::E
    } else {
        match goal {
            Some(Goal::Deviation { .. }) => Bucket::C,
            Some(Goal::Satisfied { .. }) => Bucket::B,
            Some(Goal::Partial { .. }) => Bucket::B,
            Some(Goal::ClaimBroken { .. }) => Bucket::B,
            Some(Goal::Unmet { providers }) => if providers@.len() > 0 {
                Bucket::A
            } else if has_resource {
                Bucket::D
            } else {
                Bucket::E
            },
            Some(Goal::Organizational) => Bucket::E,
            None => if has_resource {
                Bucket::D
            } else {
                Bucket::E
            },
        }
    }
}

/// The bucket of one finding, from what the estate says about its control.
pub fn bucket_for(goal: Option<&Goal>, status: &str, has_resource: bool) -> (b: Bucket)
    ensures
        b == bucket_of(goal_of_ref(goal), status@, has_resource),
{
    if str_eq(status, "MANUAL") {
        return Bucket::E;
    }
    let otherwise = if has_resource { Bucket::D } else { Bucket::E };
    match goal {
        Some(Goal::Deviation { .. }) => Bucket::C,
        Some(Goal::Satisfied { .. }) | Some(Goal::Partial { .. }) | Some(Goal::ClaimBroken { .. }) => Bucket::B,
        Some(Goal::Unmet { providers }) => if providers.len() > 0 {
            Bucket::A
        } else {
            otherwise
        },
        Some(Goal::Organizational) => Bucket::E,
        None => otherwise,
    }
}

/// The emitted address whose attributes name `resource`: one attribute value
/// is a suffix of the resource (less its `//`), or the resource a suffix of it.
pub open spec fn names_resource(attrs: Seq<(String, String)>, r: Seq<char>) -> bool {
    exists|i: int| 0 <= i < attrs.len() && ({
        let v = (#[trigger] attrs[i]).1@;
        v.len() > 0 && (has_suffix(r, strip_all_prefix(v, "//"@)) || has_suffix(v, r))
    })
}

/// The reverse index from a live id to the block that declares it: among the
/// addresses whose attributes name the resource, the least.
pub open spec fn declared_address_of(resource: Seq<char>, attrs: Seq<(String, Vec<(String, String)>)>, r: Option<Seq<char>>) -> bool {
    let rr = strip_all_prefix(resource, "//"@);
    if resource.len() == 0 {
        r is None
    } else {
        match r {
            None => forall|i: int| 0 <= i < attrs.len() ==> !names_resource((#[trigger] attrs[i]).1@, rr),
            Some(a) => (exists|i: int| 0 <= i < attrs.len() && (#[trigger] attrs[i]).0@ == a && names_resource(attrs[i].1@, rr))
                && forall|i: int| 0 <= i < attrs.len() && names_resource((#[trigger] attrs[i]).1@, rr) ==> !lex_lt(attrs[i].0@, a),
        }
    }
}

fn names_resource_exec(attrs: &Vec<(String, String)>, r: &[char]) -> (b: bool)
    ensures
        b == names_resource(attrs@, r@),
{
    let mut i: usize = 0;
    while i < attrs.len()
        invariant
            i <= attrs.len(),
            forall|j: int| 0 <= j < i ==> !({
                let v = (#[trigger] attrs@[j]).1@;
                v.len() > 0 && (has_suffix(r@, strip_all_prefix(v, "//"@)) || has_suffix(v, r@))
            }),
        decreases attrs.len() - i,
    {
        let v = to_chars(attrs[i].1.as_str());
        let tv = trim_start_matches(&v, "//");
        if v.len() > 0 && (crate::text::ends_with(r, &tv) || crate::text::ends_with(&v, r)) {
            return true;
        }
        i = i + 1;
    }
    false
}

/// The emitted address whose attributes name this resource, if any — the
/// reverse index from a live id to the block that declares it.
pub fn declared_address(resource: &str, attrs: &[(String, Vec<(String, String)>)]) -> (r: Option<String>)
    ensures
        declared_address_of(resource@, attrs@, match r { Some(a) => Some(a@), None => None }),
{
    let rc = to_chars(resource);
    if rc.len() == 0 {
        return None;
    }
    let rr = trim_start_matches(&rc, "//");
    let mut best: Option<usize> = None;
    let mut i: usize = 0;
    while i < attrs.len()
        invariant
            i <= attrs.len(),
            rr@ == strip_all_prefix(resource@, "//"@),
            match best {
                None => forall|j: int| 0 <= j < i ==> !names_resource((#[trigger] attrs@[j]).1@, rr@),
                Some(b) => b < i && names_resource(attrs@[b as int].1@, rr@)
                    && forall|j: int| 0 <= j < i && names_resource((#[trigger] attrs@[j]).1@, rr@) ==> !lex_lt(attrs@[j].0@, attrs@[b as int].0@),
            },
        decreases attrs.len() - i,
    {
        let hit = names_resource_exec(&attrs[i].1, &rr);
        proof {
            assert(hit == names_resource(attrs@[i as int].1@, rr@));
        }
        if hit {
            match best {
                None => {
                    proof {
                        crate::order::lemma_lex_irreflexive(attrs@[i as int].0@);
                    }
                    best = Some(i);
                },
                Some(b) => {
                    let c = crate::order::compare_str(attrs[i].0.as_str(), attrs[b].0.as_str());
                    if c == -1 {
                        proof {
                            assert forall|j: int| 0 <= j < i + 1 && names_resource((#[trigger] attrs@[j]).1@, rr@)
                                implies !lex_lt(attrs@[j].0@, attrs@[i as int].0@) by {
                                if j < i {
                                    assert(!lex_lt(attrs@[j].0@, attrs@[b as int].0@));
                                    lemma_lex_total(attrs@[j].0@, attrs@[b as int].0@);
                                    if lex_lt(attrs@[j].0@, attrs@[i as int].0@) {
                                        crate::order::lemma_lex_trans(attrs@[j].0@, attrs@[i as int].0@, attrs@[b as int].0@);
                                    }
                                } else {
                                    crate::order::lemma_lex_irreflexive(attrs@[j].0@);
                                }
                            }
                        }
                        best = Some(i);
                    } else {
                        proof {
                            if c == 1 {
                                lemma_lex_asym(attrs@[b as int].0@, attrs@[i as int].0@);
                            } else {
                                crate::order::lemma_lex_irreflexive(attrs@[i as int].0@);
                            }
                        }
                    }
                },
            }
        }
        i = i + 1;
    }
    match best {
        Some(b) => Some(attrs[b].0.clone()),
        None => None,
    }
}

} // verus!

verus! {

// ---------------------------------------------------------------------------
// Triage rows
// ---------------------------------------------------------------------------

/// Of two addresses that both are the declaring block, neither sorts first:
/// the reverse index names one address at most.
proof fn lemma_declared_unique(resource: Seq<char>, attrs: Seq<(String, Vec<(String, String)>)>, a: Option<Seq<char>>, b: Option<Seq<char>>)
    requires
        declared_address_of(resource, attrs, a),
        declared_address_of(resource, attrs, b),
    ensures
        a == b,
{
    let rr = strip_all_prefix(resource, "//"@);
    if resource.len() > 0 {
        match (a, b) {
            (Some(x), Some(y)) => {
                let i = choose|i: int| 0 <= i < attrs.len() && (#[trigger] attrs[i]).0@ == x && names_resource(attrs[i].1@, rr);
                let j = choose|j: int| 0 <= j < attrs.len() && (#[trigger] attrs[j]).0@ == y && names_resource(attrs[j].1@, rr);
                assert(!lex_lt(attrs[j].0@, x));
                assert(!lex_lt(attrs[i].0@, y));
                lemma_lex_total(x, y);
            },
            (Some(x), None) => {
                let i = choose|i: int| 0 <= i < attrs.len() && (#[trigger] attrs[i]).0@ == x && names_resource(attrs[i].1@, rr);
                assert(!names_resource(attrs[i].1@, rr));
            },
            (None, Some(y)) => {
                let j = choose|j: int| 0 <= j < attrs.len() && (#[trigger] attrs[j]).0@ == y && names_resource(attrs[j].1@, rr);
                assert(!names_resource(attrs[j].1@, rr));
            },
            (None, None) => {},
        }
    }
}

/// The emitted address that declares `resource`, if any.
pub open spec fn declared_of(resource: Seq<char>, attrs: Seq<(String, Vec<(String, String)>)>) -> Option<Seq<char>> {
    choose|a: Option<Seq<char>>| declared_address_of(resource, attrs, a)
}

fn declared_for(resource: &str, attrs: &[(String, Vec<(String, String)>)]) -> (r: Option<String>)
    ensures
        crate::adopt::opt_str(r) == declared_of(resource@, attrs@),
{
    let r = declared_address(resource, attrs);
    proof {
        let v = crate::adopt::opt_str(r);
        assert(declared_address_of(resource@, attrs@, v));
        let c = declared_of(resource@, attrs@);
        assert(declared_address_of(resource@, attrs@, c));
        lemma_declared_unique(resource@, attrs@, v, c);
    }
    r
}

/// The first goal under a control id, by position.
pub open spec fn goal_index(goals: Seq<(String, Goal)>, id: Seq<char>) -> Option<int>
    decreases goals.len(),
{
    if goals.len() == 0 {
        None
    } else {
        match goal_index(goals.drop_last(), id) {
            Some(i) => Some(i),
            None => if goals.last().0@ == id {
                Some(goals.len() - 1)
            } else {
                None
            },
        }
    }
}

pub open spec fn goal_at(goals: Seq<(String, Goal)>, id: Seq<char>) -> Option<Goal> {
    match goal_index(goals, id) {
        Some(i) => Some(goals[i].1),
        None => None,
    }
}

proof fn lemma_goal_index(goals: Seq<(String, Goal)>, id: Seq<char>)
    ensures
        match goal_index(goals, id) {
            Some(i) => 0 <= i < goals.len() && goals[i].0@ == id && forall|j: int| 0 <= j < i ==> (#[trigger] goals[j]).0@ != id,
            None => forall|j: int| 0 <= j < goals.len() ==> (#[trigger] goals[j]).0@ != id,
        },
    decreases goals.len(),
{
    if goals.len() > 0 {
        lemma_goal_index(goals.drop_last(), id);
        assert forall|j: int| 0 <= j < goals.len() - 1 implies #[trigger] goals[j] == goals.drop_last()[j] by {}
    }
}

/// The goal of a control, when the goal view has one.
pub fn goal_lookup<'a>(goals: &'a [(String, Goal)], id: &str) -> (r: Option<&'a Goal>)
    ensures
        match r {
            Some(g) => goal_at(goals@, id@) == Some(*g),
            None => goal_at(goals@, id@) is None,
        },
{
    proof {
        lemma_goal_index(goals@, id@);
    }
    let mut i: usize = 0;
    while i < goals.len()
        invariant
            i <= goals@.len(),
            forall|j: int| 0 <= j < i ==> (#[trigger] goals@[j]).0@ != id@,
            match goal_index(goals@, id@) {
                Some(k) => 0 <= k < goals@.len() && goals@[k].0@ == id@ && forall|j: int| 0 <= j < k ==> (#[trigger] goals@[j]).0@ != id@,
                None => forall|j: int| 0 <= j < goals@.len() ==> (#[trigger] goals@[j]).0@ != id@,
            },
        decreases goals.len() - i,
    {
        if str_eq(goals[i].0.as_str(), id) {
            proof {
                match goal_index(goals@, id@) {
                    Some(k) => {
                        if k < i {
                        } else if k > i {
                            assert(goals@[i as int].0@ != id@);
                        }
                    },
                    None => {
                        assert(goals@[i as int].0@ != id@);
                    },
                }
            }
            return Some(&goals[i].1);
        }
        i = i + 1;
    }
    proof {
        match goal_index(goals@, id@) {
            Some(k) => {
                assert(goals@[k].0@ == id@);
            },
            None => {},
        }
    }
    None
}

/// The title of a control in the catalog: the first control under the id, or
/// nothing.
pub open spec fn title_of(controls: Seq<(String, Control)>, id: Seq<char>) -> Seq<char>
    decreases controls.len(),
{
    if controls.len() == 0 {
        seq![]
    } else if controls[0].0@ == id {
        controls[0].1.title@
    } else {
        title_of(controls.drop_first(), id)
    }
}

fn title_lookup(controls: &[(String, Control)], id: &str) -> (r: String)
    ensures
        r@ == title_of(controls@, id@),
{
    let mut i: usize = 0;
    assert(controls@.skip(0) =~= controls@);
    while i < controls.len()
        invariant
            i <= controls@.len(),
            title_of(controls@, id@) == title_of(controls@.skip(i as int), id@),
        decreases controls.len() - i,
    {
        assert(controls@.skip(i as int)[0] == controls@[i as int]);
        if str_eq(controls[i].0.as_str(), id) {
            return controls[i].1.title.clone();
        }
        assert(controls@.skip(i as int).drop_first() =~= controls@.skip(i + 1));
        i = i + 1;
    }
    String::new()
}

/// One row of the triage: a Prowler FAIL or MANUAL with its bucket and the
/// plan sentence that says who fixes it and how.
#[derive(Debug, Clone)]
pub struct TriageRow {
    pub bucket: Bucket,
    pub control: String,
    pub title: String,
    pub check: String,
    pub status: String,
    pub severity: String,
    pub resource: String,
    pub project: String,
    /// the emitted address the resource matched, when any
    pub declared: Option<String>,
    pub plan: String,
}

pub type TriageV = (Bucket, Seq<char>, Seq<char>, Seq<char>, Seq<char>, Seq<char>, Seq<char>, Seq<char>, Option<Seq<char>>, Seq<char>);

pub open spec fn triage_view(r: TriageRow) -> TriageV {
    (r.bucket, r.control@, r.title@, r.check@, r.status@, r.severity@, r.resource@, r.project@, crate::adopt::opt_str(r.declared), r.plan@)
}

pub open spec fn triage_views(v: Seq<TriageRow>) -> Seq<TriageV> {
    v.map_values(|r: TriageRow| triage_view(r))
}

/// The texts, each in backticks, joined by ` or `.
pub open spec fn ticked(ps: Seq<Seq<char>>) -> Seq<Seq<char>> {
    ps.map_values(|p: Seq<char>| "`"@ + p + "`"@)
}

/// The plan sentence of a row.
pub open spec fn plan_of(bucket: Bucket, goal: Option<Goal>, declared: Option<Seq<char>>, m: crate::adopt::Manifest) -> Seq<char> {
    match bucket {
        Bucket::A => match goal {
            Some(Goal::Unmet { providers }) => "adopt "@ + crate::text::join(ticked(string_views(providers@)), " or "@),
            _ => seq![],
        },
        Bucket::B => {
            let origin = match declared {
                Some(a) => match crate::adopt::resource_at(m, a) {
                    Some(x) => x.origin,
                    None => None,
                },
                None => None,
            };
            match origin {
                Some((file, line)) => "the estate declares this at "@ + file@ + ":"@ + dec(line as nat)
                    + " — Satz and Prowler disagree on the same resource: check the live value"@,
                None => "the estate claims this control; Prowler's resource was not matched to a declared block — check which resource it is"@,
            }
        },
        Bucket::C => match goal {
            Some(Goal::Deviation { reasons, open_duties, .. }) => "accepted: "@
                + crate::text::join(pair_views(reasons@).map_values(|p: (Seq<char>, Seq<char>)| p.1), "; "@)
                + if open_duties@.len() == 0 {
                    seq![]
                } else {
                    "; open duties: "@ + crate::text::join(string_views(open_duties@), ", "@)
                },
            _ => seq![],
        },
        Bucket::D => "bring under management: declare it (or `satz import` it) in the estate, or generalise it into a pack"@,
        Bucket::E => "manual: follow the control's audit procedure; record an attestation when done"@,
    }
}

pub open spec fn goal_of_ref(g: Option<&Goal>) -> Option<Goal> {
    match g {
        Some(x) => Some(*x),
        None => None,
    }
}

/// The row of one finding under a control.
pub open spec fn triage_row_of(cat: &Catalog, goals: Seq<(String, Goal)>, attrs: Seq<(String, Vec<(String, String)>)>,
    m: crate::adopt::Manifest, control: Seq<char>, f: ProwlerFinding) -> TriageV {
    let goal = goal_at(goals, control);
    let bucket = bucket_of(goal, f.status@, f.resource@.len() > 0);
    let declared = declared_of(f.resource@, attrs);
    (bucket, control, title_of(cat.controls@, control), f.check@, f.status@, f.severity@, f.resource@, f.project@, declared,
        plan_of(bucket, goal, declared, m))
}

/// A finding the triage sorts: a FAIL or a MANUAL.
pub open spec fn triaged(f: ProwlerFinding) -> bool {
    f.status@ == "FAIL"@ || f.status@ == "MANUAL"@
}

pub open spec fn group_rows(cat: &Catalog, goals: Seq<(String, Goal)>, attrs: Seq<(String, Vec<(String, String)>)>,
    m: crate::adopt::Manifest, control: Seq<char>, fs: Seq<ProwlerFinding>) -> Seq<TriageV>
    decreases fs.len(),
{
    if fs.len() == 0 {
        seq![]
    } else {
        let prev = group_rows(cat, goals, attrs, m, control, fs.drop_last());
        if triaged(fs.last()) {
            prev.push(triage_row_of(cat, goals, attrs, m, control, fs.last()))
        } else {
            prev
        }
    }
}

/// The rows of every finding, control by control, before sorting.
pub open spec fn unsorted_rows(cat: &Catalog, goals: Seq<(String, Goal)>, findings: Seq<(String, Vec<ProwlerFinding>)>,
    attrs: Seq<(String, Vec<(String, String)>)>, m: crate::adopt::Manifest) -> Seq<TriageV>
    decreases findings.len(),
{
    if findings.len() == 0 {
        seq![]
    } else {
        unsorted_rows(cat, goals, findings.drop_last(), attrs, m)
            + group_rows(cat, goals, attrs, m, findings.last().0@, findings.last().1@)
    }
}

/// How a triage row sorts: bucket, control, resource.
pub open spec fn triage_key(r: TriageV) -> crate::order::KeyV {
    (bucket_rank(r.0) as u8, 0u8, r.1, r.6)
}

/// Rows put in the order given by positions.
pub open spec fn reordered<T>(rows: Seq<T>, order: Seq<int>) -> Seq<T> {
    order.map_values(|i: int| rows[i])
}

/// The triage: every FAIL and MANUAL finding, bucketed, with its plan, sorted
/// by bucket, control and resource, findings with the same three in the order
/// they came.
pub open spec fn triage_of(cat: &Catalog, goals: Seq<(String, Goal)>, findings: Seq<(String, Vec<ProwlerFinding>)>,
    attrs: Seq<(String, Vec<(String, String)>)>, m: crate::adopt::Manifest) -> Seq<TriageV> {
    let rows = unsorted_rows(cat, goals, findings, attrs, m);
    reordered(rows, crate::order::stable_order(rows.map_values(|r: TriageV| triage_key(r)), rows.len()))
}

fn plan_exec(bucket: Bucket, goal: Option<&Goal>, declared: &Option<String>, m: &crate::adopt::Manifest) -> (r: String)
    ensures
        r@ == plan_of(bucket, goal_of_ref(goal), crate::adopt::opt_str(*declared), *m),
{
    match bucket {
        Bucket::A => match goal {
            Some(Goal::Unmet { providers }) => {
                let mut parts: Vec<Vec<char>> = Vec::new();
                let mut i: usize = 0;
                while i < providers.len()
                    invariant
                        i <= providers.len(),
                        crate::text::views(parts@) == ticked(string_views(providers@)).take(i as int),
                    decreases providers.len() - i,
                {
                    let mut t: Vec<char> = Vec::new();
                    t.push('`');
                    crate::text::push_str_chars(&mut t, providers[i].as_str());
                    t.push('`');
                    proof {
                        reveal_strlit("`");
                    }
                    let ghost before = crate::text::views(parts@);
                    assert(t@ =~= "`"@ + providers@[i as int]@ + "`"@);
                    parts.push(t);
                    assert(crate::text::views(parts@) =~= before.push("`"@ + providers@[i as int]@ + "`"@));
                    assert(ticked(string_views(providers@)).take(i + 1) =~= ticked(string_views(providers@)).take(i as int).push("`"@ + providers@[i as int]@ + "`"@));
                    i = i + 1;
                }
                assert(ticked(string_views(providers@)).take(providers.len() as int) =~= ticked(string_views(providers@)));
                let listed = crate::text::join_chars(&parts, &to_chars(" or "));
                let mut out: Vec<char> = Vec::new();
                crate::text::push_str_chars(&mut out, "adopt ");
                crate::text::push_chars(&mut out, &listed);
                crate::text::from_chars(&out)
            },
            _ => String::new(),
        },
        Bucket::B => {
            let origin = match declared {
                Some(a) => match m.get(a.as_str()) {
                    Some(x) => match &x.origin {
                        Some(o) => Some(o),
                        None => None,
                    },
                    None => None,
                },
                None => None,
            };
            match origin {
                Some((file, line)) => {
                    let mut out: Vec<char> = Vec::new();
                    crate::text::push_str_chars(&mut out, "the estate declares this at ");
                    crate::text::push_str_chars(&mut out, file.as_str());
                    crate::text::push_str_chars(&mut out, ":");
                    let d = crate::text::dec_chars(*line as u64);
                    crate::text::push_chars(&mut out, &d);
                    crate::text::push_str_chars(&mut out, " — Satz and Prowler disagree on the same resource: check the live value");
                    crate::text::from_chars(&out)
                },
                None => String::from_str(
                    "the estate claims this control; Prowler's resource was not matched to a declared block — check which resource it is",
                ),
            }
        },
        Bucket::C => match goal {
            Some(Goal::Deviation { reasons, open_duties, .. }) => {
                let mut rs: Vec<String> = Vec::new();
                let mut i: usize = 0;
                while i < reasons.len()
                    invariant
                        i <= reasons.len(),
                        string_views(rs@) == pair_views(reasons@).map_values(|p: (Seq<char>, Seq<char>)| p.1).take(i as int),
                    decreases reasons.len() - i,
                {
                    let ghost before = string_views(rs@);
                    rs.push(reasons[i].1.clone());
                    assert(string_views(rs@) =~= before.push(reasons@[i as int].1@));
                    assert(pair_views(reasons@).map_values(|p: (Seq<char>, Seq<char>)| p.1).take(i + 1)
                        =~= pair_views(reasons@).map_values(|p: (Seq<char>, Seq<char>)| p.1).take(i as int).push(reasons@[i as int].1@));
                    i = i + 1;
                }
                assert(pair_views(reasons@).map_values(|p: (Seq<char>, Seq<char>)| p.1).take(reasons.len() as int)
                    =~= pair_views(reasons@).map_values(|p: (Seq<char>, Seq<char>)| p.1));
                let mut out: Vec<char> = Vec::new();
                crate::text::push_str_chars(&mut out, "accepted: ");
                let a = crate::text::join_strings(&rs, "; ");
                crate::text::push_chars(&mut out, &a);
                if open_duties.len() > 0 {
                    crate::text::push_str_chars(&mut out, "; open duties: ");
                    let d = crate::text::join_strings(open_duties, ", ");
                    crate::text::push_chars(&mut out, &d);
                }
                crate::text::from_chars(&out)
            },
            _ => String::new(),
        },
        Bucket::D => String::from_str(
            "bring under management: declare it (or `satz import` it) in the estate, or generalise it into a pack",
        ),
        Bucket::E => String::from_str("manual: follow the control's audit procedure; record an attestation when done"),
    }
}

fn clone_opt_string(o: &Option<String>) -> (r: Option<String>)
    ensures
        crate::adopt::opt_str(r) == crate::adopt::opt_str(*o),
{
    match o {
        Some(s) => Some(s.clone()),
        None => None,
    }
}

fn clone_triage_row(r: &TriageRow) -> (c: TriageRow)
    ensures
        triage_view(c) == triage_view(*r),
{
    TriageRow {
        bucket: r.bucket,
        control: r.control.clone(),
        title: r.title.clone(),
        check: r.check.clone(),
        status: r.status.clone(),
        severity: r.severity.clone(),
        resource: r.resource.clone(),
        project: r.project.clone(),
        declared: clone_opt_string(&r.declared),
        plan: r.plan.clone(),
    }
}

/// Every Prowler FAIL and MANUAL, control by control, sorted into the bucket
/// that says who fixes it and how.
pub fn triage(catalog: &Catalog, goals: &[(String, Goal)], findings: &[(String, Vec<ProwlerFinding>)],
    attrs: &[(String, Vec<(String, String)>)], manifest: &crate::adopt::Manifest) -> (r: Vec<TriageRow>)
    ensures
        triage_views(r@) == triage_of(catalog, goals@, findings@, attrs@, *manifest),
{
    let ghost gv = goals@;
    let mut rows: Vec<TriageRow> = Vec::new();
    let mut g: usize = 0;
    while g < findings.len()
        invariant
            g <= findings@.len(),
            gv == goals@,
            triage_views(rows@) == unsorted_rows(catalog, gv, findings@.take(g as int), attrs@, *manifest),
        decreases findings.len() - g,
    {
        proof {
            assert(findings@.take(g + 1).drop_last() =~= findings@.take(g as int));
            assert(findings@.take(g + 1).last() == findings@[g as int]);
        }
        let control = &findings[g].0;
        let fs = &findings[g].1;
        let goal = goal_lookup(goals, control.as_str());
        let title = title_lookup(&catalog.controls, control.as_str());
        let ghost base = triage_views(rows@);
        let mut k: usize = 0;
        while k < fs.len()
            invariant
                k <= fs@.len(),
                gv == goals@,
                base + group_rows(catalog, gv, attrs@, *manifest, control@, fs@.take(k as int)) == triage_views(rows@),
                title@ == title_of(catalog.controls@, control@),
                match goal {
                    Some(x) => goal_at(gv, control@) == Some(*x),
                    None => goal_at(gv, control@) is None,
                },
            decreases fs.len() - k,
        {
            proof {
                assert(fs@.take(k + 1).drop_last() =~= fs@.take(k as int));
                assert(fs@.take(k + 1).last() == fs@[k as int]);
            }
            let f = &fs[k];
            if str_eq(f.status.as_str(), "FAIL") || str_eq(f.status.as_str(), "MANUAL") {
                let bucket = bucket_for(goal, f.status.as_str(), f.resource.unicode_len() > 0);
                let declared = declared_for(f.resource.as_str(), attrs);
                let plan = plan_exec(bucket, goal, &declared, manifest);
                let row = TriageRow {
                    bucket,
                    control: control.clone(),
                    title: title.clone(),
                    check: f.check.clone(),
                    status: f.status.clone(),
                    severity: f.severity.clone(),
                    resource: f.resource.clone(),
                    project: f.project.clone(),
                    declared,
                    plan,
                };
                proof {
                    assert(goal_of_ref(goal) == goal_at(gv, control@));
                    assert(triage_view(row) == triage_row_of(catalog, gv, attrs@, *manifest, control@, *f));
                }
                let ghost before = triage_views(rows@);
                rows.push(row);
                assert(triage_views(rows@) =~= before.push(triage_view(row)));
            }
            k = k + 1;
        }
        assert(fs@.take(fs.len() as int) =~= fs@);
        g = g + 1;
    }
    assert(findings@.take(findings.len() as int) =~= findings@);
    let ghost rv = triage_views(rows@);
    let mut keys: Vec<crate::order::SortKey> = Vec::new();
    let mut i: usize = 0;
    while i < rows.len()
        invariant
            i <= rows@.len(),
            rv == triage_views(rows@),
            crate::order::key_views(keys@) == rv.map_values(|r: TriageV| triage_key(r)).take(i as int),
        decreases rows.len() - i,
    {
        let key = crate::order::SortKey {
            first: rows[i].bucket.rank(),
            second: 0,
            third: rows[i].control.clone(),
            fourth: rows[i].resource.clone(),
        };
        let ghost before = crate::order::key_views(keys@);
        keys.push(key);
        assert(crate::order::key_views(keys@) =~= before.push(triage_key(rv[i as int])));
        assert(rv.map_values(|r: TriageV| triage_key(r)).take(i + 1)
            =~= rv.map_values(|r: TriageV| triage_key(r)).take(i as int).push(triage_key(rv[i as int])));
        i = i + 1;
    }
    assert(rv.map_values(|r: TriageV| triage_key(r)).take(rows.len() as int) =~= rv.map_values(|r: TriageV| triage_key(r)));
    let order = crate::order::stable_sort_positions(&keys);
    let ghost ov = order@.map_values(|x: usize| x as int);
    proof {
        crate::order::lemma_stable_order(crate::order::key_views(keys@), keys@.len());
    }
    let mut out: Vec<TriageRow> = Vec::new();
    let mut j: usize = 0;
    while j < order.len()
        invariant
            j <= order@.len(),
            ov == order@.map_values(|x: usize| x as int),
            crate::order::permutation_of(ov, rows@.len()),
            rv == triage_views(rows@),
            triage_views(out@) == reordered(rv, ov.take(j as int)),
        decreases order.len() - j,
    {
        assert(0 <= ov[j as int] < rows@.len());
        let c = clone_triage_row(&rows[order[j]]);
        let ghost before = triage_views(out@);
        out.push(c);
        assert(triage_views(out@) =~= before.push(rv[ov[j as int]]));
        assert(reordered(rv, ov.take(j + 1)) =~= reordered(rv, ov.take(j as int)).push(rv[ov[j as int]]));
        j = j + 1;
    }
    assert(ov.take(order.len() as int) =~= ov);
    out
}

/// One row of a bucket's table.
pub open spec fn triage_line(r: TriageV) -> Seq<char> {
    "| "@ + r.1 + " "@ + r.2 + " | "@ + r.3 + " | "@ + r.5 + " | "@ + resource_cell(r) + " | "@ + r.9 + " |\n"@
}

/// The resource cell: the resource in backticks with its project, `–` for
/// none, and the address that declares it.
pub open spec fn resource_cell(r: TriageV) -> Seq<char> {
    let proj = if r.7.len() == 0 { seq![] } else { " ("@ + r.7 + ")"@ };
    let res = if r.6.len() == 0 { "–"@ } else { "`"@ + r.6 + "`"@ + proj };
    let declared = match r.8 {
        Some(d) => "<br>declared as `"@ + d + "`"@,
        None => seq![],
    };
    res + declared
}

/// The lines of the rows in bucket `b`, in order, and how many there are.
pub open spec fn bucket_lines(rows: Seq<TriageV>, b: Bucket) -> (Seq<char>, nat)
    decreases rows.len(),
{
    if rows.len() == 0 {
        (seq![], 0)
    } else {
        let prev = bucket_lines(rows.drop_last(), b);
        if rows.last().0 == b {
            (prev.0 + triage_line(rows.last()), prev.1 + 1)
        } else {
            prev
        }
    }
}

/// A bucket's section: its title and count, then its table or `_none_`.
pub open spec fn bucket_section(rows: Seq<TriageV>, b: Bucket) -> Seq<char> {
    let l = bucket_lines(rows, b);
    "\n## "@ + bucket_title(b) + " ("@ + dec(l.1) + ")\n\n"@ + if l.1 == 0 {
        "_none_\n"@
    } else {
        "| Control | Check | Severity | Resource | Plan |\n|---|---|---|---|---|\n"@ + l.0
    }
}

/// The triage as Markdown: a heading, what it is, and a section per bucket, A to E.
pub open spec fn triage_markdown(cat: &Catalog, rows: Seq<TriageV>) -> Seq<char> {
    "# Triage — "@ + cat.catalog@ + " "@ + cat.version@ + "\n\n"@
        + "Every Prowler FAIL (and MANUAL) sorted into the bucket that says who fixes it and how. This is the skeleton of the remediation plan; the concrete steps, ordering and side effects are yours.\n"@
        + bucket_section(rows, Bucket::A) + bucket_section(rows, Bucket::B) + bucket_section(rows, Bucket::C)
        + bucket_section(rows, Bucket::D) + bucket_section(rows, Bucket::E)
}

fn push_resource_cell(out: &mut Vec<char>, r: &TriageRow)
    ensures
        final(out)@ == old(out)@ + resource_cell(triage_view(*r)),
{
    let ghost o0 = out@;
    if r.resource.unicode_len() == 0 {
        crate::text::push_str_chars(out, "–");
    } else {
        crate::text::push_str_chars(out, "`");
        crate::text::push_str_chars(out, r.resource.as_str());
        crate::text::push_str_chars(out, "`");
        if r.project.unicode_len() > 0 {
            crate::text::push_str_chars(out, " (");
            crate::text::push_str_chars(out, r.project.as_str());
            crate::text::push_str_chars(out, ")");
        }
    }
    let ghost o1 = out@;
    match &r.declared {
        Some(d) => {
            crate::text::push_str_chars(out, "<br>declared as `");
            crate::text::push_str_chars(out, d.as_str());
            crate::text::push_str_chars(out, "`");
        },
        None => {},
    }
    assert(out@ =~= o0 + resource_cell(triage_view(*r)));
}

fn push_triage_line(out: &mut Vec<char>, r: &TriageRow)
    ensures
        final(out)@ == old(out)@ + triage_line(triage_view(*r)),
{
    let ghost o0 = out@;
    crate::text::push_str_chars(out, "| ");
    crate::text::push_str_chars(out, r.control.as_str());
    crate::text::push_str_chars(out, " ");
    crate::text::push_str_chars(out, r.title.as_str());
    crate::text::push_str_chars(out, " | ");
    crate::text::push_str_chars(out, r.check.as_str());
    crate::text::push_str_chars(out, " | ");
    crate::text::push_str_chars(out, r.severity.as_str());
    crate::text::push_str_chars(out, " | ");
    push_resource_cell(out, r);
    crate::text::push_str_chars(out, " | ");
    crate::text::push_str_chars(out, r.plan.as_str());
    crate::text::push_str_chars(out, " |\n");
    assert(out@ =~= o0 + triage_line(triage_view(*r)));
}

fn push_bucket_section(out: &mut Vec<char>, rows: &[TriageRow], b: Bucket)
    ensures
        final(out)@ == old(out)@ + bucket_section(triage_views(rows@), b),
{
    let ghost rv = triage_views(rows@);
    let mut lines: Vec<char> = Vec::new();
    let mut n: usize = 0;
    let mut i: usize = 0;
    while i < rows.len()
        invariant
            i <= rows@.len(),
            rv == triage_views(rows@),
            (lines@, n as nat) == bucket_lines(rv.take(i as int), b),
            n <= i,
        decreases rows.len() - i,
    {
        proof {
            assert(rv.take(i + 1).drop_last() =~= rv.take(i as int));
            assert(rv.take(i + 1).last() == triage_view(rows@[i as int]));
        }
        if rows[i].bucket.rank() == b.rank() {
            push_triage_line(&mut lines, &rows[i]);
            n = n + 1;
        }
        i = i + 1;
    }
    assert(rv.take(i as int) =~= rv);
    let ghost o0 = out@;
    crate::text::push_str_chars(out, "\n## ");
    crate::text::push_str_chars(out, b.title());
    crate::text::push_str_chars(out, " (");
    let d = crate::text::dec_chars(n as u64);
    crate::text::push_chars(out, &d);
    crate::text::push_str_chars(out, ")\n\n");
    if n == 0 {
        crate::text::push_str_chars(out, "_none_\n");
    } else {
        crate::text::push_str_chars(out, "| Control | Check | Severity | Resource | Plan |\n|---|---|---|---|---|\n");
        crate::text::push_chars(out, &lines);
    }
    assert(out@ =~= o0 + bucket_section(rv, b));
}

/// The triage as Markdown.
pub fn render_triage(catalog: &Catalog, rows: &[TriageRow]) -> (r: String)
    ensures
        r@ == triage_markdown(catalog, triage_views(rows@)),
{
    let mut out: Vec<char> = Vec::new();
    crate::text::push_str_chars(&mut out, "# Triage — ");
    crate::text::push_str_chars(&mut out, catalog.catalog.as_str());
    crate::text::push_str_chars(&mut out, " ");
    crate::text::push_str_chars(&mut out, catalog.version.as_str());
    crate::text::push_str_chars(&mut out, "\n\n");
    crate::text::push_str_chars(&mut out, "Every Prowler FAIL (and MANUAL) sorted into the bucket that says who fixes it and how. This is the skeleton of the remediation plan; the concrete steps, ordering and side effects are yours.\n");
    push_bucket_section(&mut out, rows, Bucket::A);
    push_bucket_section(&mut out, rows, Bucket::B);
    push_bucket_section(&mut out, rows, Bucket::C);
    push_bucket_section(&mut out, rows, Bucket::D);
    push_bucket_section(&mut out, rows, Bucket::E);
    crate::text::from_chars(&out)
}

// ---------------------------------------------------------------------------
// Finding a witness live
// ---------------------------------------------------------------------------

/// The Cloud Asset Inventory type to list for a witness of type `t`, and the
/// attribute that carries its matchable identifier (the display name where
/// the server assigns the name); `None` where no live check exists.
pub open spec fn live_matcher_of(t: Seq<char>) -> Option<(Seq<char>, Seq<char>)> {
    if t == "google_logging_organization_sink"@ {
        Some(("logging.googleapis.com/LogSink"@, "name"@))
    } else if t == "google_logging_metric"@ {
        Some(("logging.googleapis.com/LogMetric"@, "name"@))
    } else if t == "google_storage_bucket"@ {
        Some(("storage.googleapis.com/Bucket"@, "name"@))
    } else if t == "google_monitoring_alert_policy"@ {
        Some(("monitoring.googleapis.com/AlertPolicy"@, "display_name"@))
    } else if t == "google_monitoring_notification_channel"@ {
        Some(("monitoring.googleapis.com/NotificationChannel"@, "display_name"@))
    } else if t == "google_org_policy_policy"@ {
        Some(("orgpolicy.googleapis.com/Policy"@, "name"@))
    } else {
        None
    }
}

/// How a witness of type `tf_type` is identified in the live estate.
pub fn live_matcher(tf_type: &str) -> (r: Option<(&'static str, &'static str)>)
    ensures
        match r {
            Some(p) => live_matcher_of(tf_type@) == Some((p.0@, p.1@)),
            None => live_matcher_of(tf_type@) is None,
        },
{
    if str_eq(tf_type, "google_logging_organization_sink") {
        Some(("logging.googleapis.com/LogSink", "name"))
    } else if str_eq(tf_type, "google_logging_metric") {
        Some(("logging.googleapis.com/LogMetric", "name"))
    } else if str_eq(tf_type, "google_storage_bucket") {
        Some(("storage.googleapis.com/Bucket", "name"))
    } else if str_eq(tf_type, "google_monitoring_alert_policy") {
        Some(("monitoring.googleapis.com/AlertPolicy", "display_name"))
    } else if str_eq(tf_type, "google_monitoring_notification_channel") {
        Some(("monitoring.googleapis.com/NotificationChannel", "display_name"))
    } else if str_eq(tf_type, "google_org_policy_policy") {
        Some(("orgpolicy.googleapis.com/Policy", "name"))
    } else {
        None
    }
}

// ---------------------------------------------------------------------------
// Matching a finding to a witness
// ---------------------------------------------------------------------------

/// Matching a finding to a witness goes both ways: once a leading `//` is
/// dropped, a finding whose resource ends with a witness id, or a witness id
/// that ends with the finding's resource, names the same resource — and
/// swapping the two never changes the answer.
pub proof fn law_resource_matching_is_symmetric(a: Seq<char>, w: Seq<char>, ws: Seq<Seq<char>>, i: int)
    ensures
        a.len() > 0 && w.len() > 0 ==> same_resource(a, seq![w]) == same_resource(w, seq![a]),
        a.len() > 0 && 0 <= i < ws.len() && has_suffix(strip_all_prefix(ws[i], "//"@), strip_all_prefix(a, "//"@))
            ==> same_resource(a, ws),
        a.len() > 0 && 0 <= i < ws.len() && has_suffix(strip_all_prefix(a, "//"@), strip_all_prefix(ws[i], "//"@))
            ==> same_resource(a, ws),
{
    if a.len() > 0 && w.len() > 0 {
        let x = strip_all_prefix(a, "//"@);
        let y = strip_all_prefix(w, "//"@);
        assert(seq![w][0] == w);
        assert(seq![a][0] == a);
        if same_resource(a, seq![w]) {
            let j = choose|j: int| 0 <= j < 1 && ({
                let b = strip_all_prefix(#[trigger] seq![w][j], "//"@);
                has_suffix(x, b) || has_suffix(b, x)
            });
            assert(j == 0);
        }
        if same_resource(w, seq![a]) {
            let j = choose|j: int| 0 <= j < 1 && ({
                let b = strip_all_prefix(#[trigger] seq![a][j], "//"@);
                has_suffix(y, b) || has_suffix(b, y)
            });
            assert(j == 0);
        }
    }
}

// ---------------------------------------------------------------------------
// A claim without a version
// ---------------------------------------------------------------------------

/// Two claims that differ at most in their framework version.
pub open spec fn alike(a: Claim, b: Claim) -> bool {
    &&& a.framework == b.framework
    &&& a.control == b.control
    &&& a.coverage == b.coverage
    &&& a.resources == b.resources
    &&& a.reason == b.reason
    &&& a.manual_duties == b.manual_duties
    &&& a.interpretation == b.interpretation
}

pub open spec fn alike_seq(x: Seq<(String, Claim)>, y: Seq<(String, Claim)>) -> bool {
    &&& x.len() == y.len()
    &&& forall|i: int| 0 <= i < x.len() ==> (#[trigger] x[i]).0 == y[i].0 && alike(x[i].1, y[i].1)
}

proof fn lemma_alike_drop_last(x: Seq<(String, Claim)>, y: Seq<(String, Claim)>)
    requires
        alike_seq(x, y),
        x.len() > 0,
    ensures
        alike_seq(x.drop_last(), y.drop_last()),
        x.last().0 == y.last().0,
        alike(x.last().1, y.last().1),
{
    assert forall|i: int| 0 <= i < x.len() - 1 implies (#[trigger] x.drop_last()[i]).0 == y.drop_last()[i].0
        && alike(x.drop_last()[i].1, y.drop_last()[i].1) by {
        assert(x.drop_last()[i] == x[i]);
        assert(y.drop_last()[i] == y[i]);
    }
    assert(x.last() == x[x.len() - 1]);
}

proof fn lemma_alike_claims_for(x: Seq<(String, Claim)>, y: Seq<(String, Claim)>, cat: &Catalog, id: Seq<char>)
    requires
        alike_seq(x, y),
        forall|i: int| 0 <= i < x.len() ==> claims_control(cat, (#[trigger] x[i]).1, id) == claims_control(cat, y[i].1, id),
    ensures
        alike_seq(claims_for(x, cat, id), claims_for(y, cat, id)),
    decreases x.len(),
{
    if x.len() > 0 {
        lemma_alike_drop_last(x, y);
        assert forall|i: int| 0 <= i < x.len() - 1 implies claims_control(cat, (#[trigger] x.drop_last()[i]).1, id)
            == claims_control(cat, y.drop_last()[i].1, id) by {
            assert(x.drop_last()[i] == x[i]);
            assert(y.drop_last()[i] == y[i]);
        }
        lemma_alike_claims_for(x.drop_last(), y.drop_last(), cat, id);
        assert(claims_control(cat, x[x.len() - 1].1, id) == claims_control(cat, y[y.len() - 1].1, id));
        let a = claims_for(x.drop_last(), cat, id);
        let b = claims_for(y.drop_last(), cat, id);
        if claims_control(cat, x.last().1, id) {
            assert forall|i: int| 0 <= i < a.len() + 1 implies (#[trigger] a.push(x.last())[i]).0 == b.push(y.last())[i].0
                && alike(a.push(x.last())[i].1, b.push(y.last())[i].1) by {
                if i < a.len() {
                    assert(a.push(x.last())[i] == a[i]);
                    assert(b.push(y.last())[i] == b[i]);
                }
            }
        }
    }
}

proof fn lemma_alike_filters(x: Seq<(String, Claim)>, y: Seq<(String, Claim)>, emitted: Seq<Seq<char>>)
    requires
        alike_seq(x, y),
    ensures
        alike_seq(deviations(x), deviations(y)),
        alike_seq(holding(x, emitted), holding(y, emitted)),
    decreases x.len(),
{
    if x.len() > 0 {
        lemma_alike_drop_last(x, y);
        lemma_alike_filters(x.drop_last(), y.drop_last(), emitted);
        let a = deviations(x.drop_last());
        let b = deviations(y.drop_last());
        if x.last().1.coverage@ == "deviates"@ {
            assert forall|i: int| 0 <= i < a.len() + 1 implies (#[trigger] a.push(x.last())[i]).0 == b.push(y.last())[i].0
                && alike(a.push(x.last())[i].1, b.push(y.last())[i].1) by {
                if i < a.len() {
                    assert(a.push(x.last())[i] == a[i]);
                    assert(b.push(y.last())[i] == b[i]);
                }
            }
        }
        let c = holding(x.drop_last(), emitted);
        let e = holding(y.drop_last(), emitted);
        if missing_of(x.last().1, emitted).len() == 0 {
            assert forall|i: int| 0 <= i < c.len() + 1 implies (#[trigger] c.push(x.last())[i]).0 == e.push(y.last())[i].0
                && alike(c.push(x.last())[i].1, e.push(y.last())[i].1) by {
                if i < c.len() {
                    assert(c.push(x.last())[i] == c[i]);
                    assert(e.push(y.last())[i] == e[i]);
                }
            }
        }
    }
}

proof fn lemma_alike_sums(x: Seq<(String, Claim)>, y: Seq<(String, Claim)>, emitted: Seq<Seq<char>>)
    requires
        alike_seq(x, y),
    ensures
        resources_of(x) == resources_of(y),
        duties_of(x) == duties_of(y),
        present_of(x, emitted) == present_of(y, emitted),
        deviation_missing(x, emitted) == deviation_missing(y, emitted),
        last_broken(x, emitted) == last_broken(y, emitted),
        reasons_of(x) == reasons_of(y),
        packs_of(x) == packs_of(y),
        any_implements(x) == any_implements(y),
    decreases x.len(),
{
    assert(reasons_of(x) =~= reasons_of(y));
    assert(packs_of(x) =~= packs_of(y));
    if any_implements(x) {
        let i = choose|i: int| 0 <= i < x.len() && (#[trigger] x[i]).1.coverage@ == "implements"@;
        assert(y[i].1.coverage@ == "implements"@);
    }
    if any_implements(y) {
        let i = choose|i: int| 0 <= i < y.len() && (#[trigger] y[i]).1.coverage@ == "implements"@;
        assert(x[i].1.coverage@ == "implements"@);
    }
    if x.len() > 0 {
        lemma_alike_drop_last(x, y);
        lemma_alike_sums(x.drop_last(), y.drop_last(), emitted);
    }
}

/// A claim whose framework and control match and whose framework version is
/// empty counts for the control under every version of the catalog: giving it
/// the catalog's version never changes the control's goal.
pub proof fn law_a_claim_without_a_version_matches_every_version(g: Goal, cat: &Catalog, library: Seq<(String, Claim)>,
    included: Seq<(String, Claim)>, emitted: Seq<Seq<char>>, id: Seq<char>, control: Control, k: int)
    requires
        0 <= k < included.len(),
        included[k].1.framework_version@.len() == 0,
    ensures
        goal_for(g, cat, library, included, emitted, id, control) == goal_for(g, cat, library,
            included.update(k, (included[k].0, Claim { framework_version: cat.version, ..included[k].1 })), emitted, id, control),
{
    let c2 = Claim { framework_version: cat.version, ..included[k].1 };
    let inc2 = included.update(k, (included[k].0, c2));
    assert(alike_seq(included, inc2)) by {
        assert forall|i: int| 0 <= i < included.len() implies (#[trigger] included[i]).0 == inc2[i].0
            && alike(included[i].1, inc2[i].1) by {
            if i == k {
            } else {
                assert(inc2[i] == included[i]);
            }
        }
    }
    assert forall|i: int| 0 <= i < included.len() implies claims_control(cat, (#[trigger] included[i]).1, id)
        == claims_control(cat, inc2[i].1, id) by {
        if i != k {
            assert(inc2[i] == included[i]);
        }
    }
    lemma_alike_claims_for(included, inc2, cat, id);
    let x = claims_for(included, cat, id);
    let y = claims_for(inc2, cat, id);
    lemma_alike_filters(x, y, emitted);
    lemma_alike_sums(x, y, emitted);
    lemma_alike_sums(deviations(x), deviations(y), emitted);
    lemma_alike_sums(holding(x, emitted), holding(y, emitted), emitted);
}

} // verus!
