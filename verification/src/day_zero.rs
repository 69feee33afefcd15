//! The day-0 precondition every bootstrap meets before it touches an API: every day-0
//! parameter is checked for presence and shape, each failure names the
//! parameter and the flag that sets it, and nothing is called until it passes.

use vstd::prelude::*;
use vstd::string::*;
use crate::text::{
    debug_quote, debug_str, dec, dec_string, is_ascii_digit, is_ascii_lower, is_ascii_upper, to_chars, trim,
    trim_str,
};

verus! {

/// One thing wrong with the estate, as the operator has to fix it.
#[derive(Debug, PartialEq, Eq)]
pub struct Problem {
    pub param: String,
    pub flag: String,
    pub says: String,
}

impl View for Problem {
    type V = (Seq<char>, Seq<char>, Seq<char>);

    open spec fn view(&self) -> (Seq<char>, Seq<char>, Seq<char>) {
        (self.param@, self.flag@, self.says@)
    }
}

/// How a problem reads: `  <param> — <says>` and, under it, the flag that sets it.
pub open spec fn problem_text(p: (Seq<char>, Seq<char>, Seq<char>)) -> Seq<char> {
    "  "@ + p.0 + " — "@ + p.2 + "\n      set it with `satz init --"@ + p.1 + "`"@
}

impl Problem {
    /// The problem as the refusal prints it.
    pub fn render(&self) -> (r: String)
        ensures
            r@ == problem_text(self@),
    {
        let mut r = String::from_str("  ");
        r.append(self.param.as_str());
        r.append(" — ");
        r.append(self.says.as_str());
        r.append("\n      set it with `satz init --");
        r.append(self.flag.as_str());
        r.append("`");
        r
    }
}

pub fn problem(param: &str, flag: &str, says: String) -> (p: Problem)
    ensures
        p@ == (param@, flag@, says@),
{
    Problem { param: String::from_str(param), flag: String::from_str(flag), says }
}

// ---------------------------------------------------------------------------
// Shapes
// ---------------------------------------------------------------------------

/// What a failed shape check says after `is `: the value as Debug prints it
/// and what it should have been.
pub open spec fn malformed(value: Seq<char>, rule: Seq<char>) -> Seq<char> {
    "is "@ + debug_str(value) + rule
}

pub open spec fn org_rule() -> Seq<char> {
    ", which is not a number — an organisation id is all digits, and the DOMAIN is `customer_domain`"@
}

pub open spec fn billing_rule() -> Seq<char> {
    ", which is not a billing account id — the shape is XXXXXX-XXXXXX-XXXXXX"@
}

pub open spec fn project_rule() -> Seq<char> {
    ", which is not a project id — 6 to 30 characters, starting with a lower-case letter, then letters, digits and hyphens"@
}

pub open spec fn bucket_rule() -> Seq<char> {
    ", which is not a bucket name — 3 to 63 characters of lower-case letters, digits, `-`, `_` and `.`, starting and ending with a letter or digit"@
}

/// A Google organisation id: digits, nothing else (the length is not judged).
pub open spec fn org_id_shaped(v: Seq<char>) -> bool {
    forall|i: int| 0 <= i < v.len() ==> is_ascii_digit(#[trigger] v[i])
}

/// A billing account id: three groups of six upper-case letters or digits,
/// joined by hyphens.
pub open spec fn billing_shaped(v: Seq<char>) -> bool {
    &&& v.len() == 20
    &&& v[6] == '-'
    &&& v[13] == '-'
    &&& forall|i: int| 0 <= i < 20 && i != 6 && i != 13 ==> (is_ascii_upper(#[trigger] v[i]) || is_ascii_digit(v[i]))
}

/// A project id, by Google's rule: 6–30 characters, a lower-case letter first,
/// then lower-case letters, digits and hyphens, and no trailing hyphen.
pub open spec fn project_shaped(v: Seq<char>) -> bool {
    &&& 6 <= v.len() <= 30
    &&& is_ascii_lower(v[0])
    &&& v.last() != '-'
    &&& forall|i: int| 0 <= i < v.len() ==> (is_ascii_lower(#[trigger] v[i]) || is_ascii_digit(v[i]) || v[i] == '-')
}

pub open spec fn bucket_alnum(c: char) -> bool {
    is_ascii_lower(c) || is_ascii_digit(c)
}

/// A bucket name: 3–63 characters of lower-case letters, digits, `-`, `_` and
/// `.`, starting and ending with a letter or digit.
pub open spec fn bucket_shaped(v: Seq<char>) -> bool {
    &&& 3 <= v.len() <= 63
    &&& bucket_alnum(v[0])
    &&& bucket_alnum(v.last())
    &&& forall|i: int| 0 <= i < v.len() ==> (bucket_alnum(#[trigger] v[i]) || v[i] == '-' || v[i] == '_' || v[i] == '.')
}

/// The verdict of one shape check: `Ok` when the value is well-formed, else
/// what is wrong with it.
pub open spec fn shape_verdict(v: Seq<char>, shaped: bool, rule: Seq<char>) -> Result<(), Seq<char>> {
    if v.len() == 0 {
        Err("is empty"@)
    } else if !shaped {
        Err(malformed(v, rule))
    } else {
        Ok(())
    }
}

pub open spec fn result_view(r: Result<(), String>) -> Result<(), Seq<char>> {
    match r {
        Ok(()) => Ok(()),
        Err(e) => Err(e@),
    }
}

fn refusal(value: &str, rule: &str) -> (r: String)
    ensures
        r@ == "is "@ + debug_str(value@) + rule@,
{
    let mut r = String::from_str("is ");
    let q = debug_quote(value);
    r.append(q.as_str());
    r.append(rule);
    r
}

/// A Google organisation id: digits, nothing else.
pub fn organization_id(value: &str) -> (r: Result<(), String>)
    ensures
        result_view(r) == shape_verdict(value@, org_id_shaped(value@), org_rule()),
{
    let v = to_chars(value);
    if v.len() == 0 {
        return Err(String::from_str("is empty"));
    }
    let mut i: usize = 0;
    while i < v.len()
        invariant
            i <= v.len(),
            v@ == value@,
            forall|j: int| 0 <= j < i ==> is_ascii_digit(#[trigger] v@[j]),
        decreases v.len() - i,
    {
        if !('0' <= v[i] && v[i] <= '9') {
            return Err(refusal(value, ", which is not a number — an organisation id is all digits, and the DOMAIN is `customer_domain`"));
        }
        i = i + 1;
    }
    Ok(())
}

fn upper_or_digit(c: char) -> (b: bool)
    ensures
        b == (is_ascii_upper(c) || is_ascii_digit(c)),
{
    ('A' <= c && c <= 'Z') || ('0' <= c && c <= '9')
}

/// A billing account id: `XXXXXX-XXXXXX-XXXXXX`, upper-case letters and digits.
pub fn billing_account(value: &str) -> (r: Result<(), String>)
    ensures
        result_view(r) == shape_verdict(value@, billing_shaped(value@), billing_rule()),
{
    let v = to_chars(value);
    if v.len() == 0 {
        return Err(String::from_str("is empty"));
    }
    if !(v.len() == 20 && v[6] == '-' && v[13] == '-') {
        return Err(refusal(value, ", which is not a billing account id — the shape is XXXXXX-XXXXXX-XXXXXX"));
    }
    let mut i: usize = 0;
    while i < 20
        invariant
            i <= 20,
            v@ == value@,
            v@.len() == 20,
            forall|j: int| 0 <= j < i && j != 6 && j != 13 ==> (is_ascii_upper(#[trigger] v@[j]) || is_ascii_digit(v@[j])),
        decreases 20 - i,
    {
        if i != 6 && i != 13 && !upper_or_digit(v[i]) {
            return Err(refusal(value, ", which is not a billing account id — the shape is XXXXXX-XXXXXX-XXXXXX"));
        }
        i = i + 1;
    }
    Ok(())
}

fn project_char(c: char) -> (b: bool)
    ensures
        b == (is_ascii_lower(c) || is_ascii_digit(c) || c == '-'),
{
    ('a' <= c && c <= 'z') || ('0' <= c && c <= '9') || c == '-'
}

/// A project id: 6–30 characters, lower-case letter first, then letters,
/// digits and hyphens, and no trailing hyphen.
pub fn project_id(value: &str) -> (r: Result<(), String>)
    ensures
        result_view(r) == shape_verdict(value@, project_shaped(value@), project_rule()),
{
    let v = to_chars(value);
    if v.len() == 0 {
        return Err(String::from_str("is empty"));
    }
    if !(6 <= v.len() && v.len() <= 30 && 'a' <= v[0] && v[0] <= 'z' && v[v.len() - 1] != '-') {
        return Err(refusal(value, ", which is not a project id — 6 to 30 characters, starting with a lower-case letter, then letters, digits and hyphens"));
    }
    let mut i: usize = 0;
    while i < v.len()
        invariant
            i <= v.len(),
            v@ == value@,
            forall|j: int| 0 <= j < i ==> (is_ascii_lower(#[trigger] v@[j]) || is_ascii_digit(v@[j]) || v@[j] == '-'),
        decreases v.len() - i,
    {
        if !project_char(v[i]) {
            return Err(refusal(value, ", which is not a project id — 6 to 30 characters, starting with a lower-case letter, then letters, digits and hyphens"));
        }
        i = i + 1;
    }
    Ok(())
}

fn is_bucket_alnum(c: char) -> (b: bool)
    ensures
        b == bucket_alnum(c),
{
    ('a' <= c && c <= 'z') || ('0' <= c && c <= '9')
}

/// A bucket name: 3–63 characters of lower-case letters, digits, hyphens,
/// underscores and dots, starting and ending alphanumeric.
pub fn bucket_name(value: &str) -> (r: Result<(), String>)
    ensures
        result_view(r) == shape_verdict(value@, bucket_shaped(value@), bucket_rule()),
{
    let v = to_chars(value);
    if v.len() == 0 {
        return Err(String::from_str("is empty"));
    }
    if !(3 <= v.len() && v.len() <= 63 && is_bucket_alnum(v[0]) && is_bucket_alnum(v[v.len() - 1])) {
        return Err(refusal(value, ", which is not a bucket name — 3 to 63 characters of lower-case letters, digits, `-`, `_` and `.`, starting and ending with a letter or digit"));
    }
    let mut i: usize = 0;
    while i < v.len()
        invariant
            i <= v.len(),
            v@ == value@,
            forall|j: int| 0 <= j < i ==> (bucket_alnum(#[trigger] v@[j]) || v@[j] == '-' || v@[j] == '_' || v@[j] == '.'),
        decreases v.len() - i,
    {
        let c = v[i];
        if !(is_bucket_alnum(c) || c == '-' || c == '_' || c == '.') {
            return Err(refusal(value, ", which is not a bucket name — 3 to 63 characters of lower-case letters, digits, `-`, `_` and `.`, starting and ending with a letter or digit"));
        }
        i = i + 1;
    }
    Ok(())
}

// ---------------------------------------------------------------------------
// Refusing or letting through
// ---------------------------------------------------------------------------

/// What bootstrap is about to use.
pub struct DayZero<'a> {
    pub shortname: &'a str,
    /// Empty is legal only on the greenfield path, which has no organisation yet.
    pub organization_id: &'a str,
    pub greenfield: bool,
    pub billing_account: &'a str,
    /// `None` when the estate does not set it: there is no default to take.
    pub project_id: Option<&'a str>,
    /// `None` when the estate does not set it: there is no default to take.
    pub bucket_name: Option<&'a str>,
}

/// One check before bootstrap: its problem, when the verdict is a refusal.
pub open spec fn judged(param: Seq<char>, flag: Seq<char>, verdict: Result<(), Seq<char>>) -> Seq<(Seq<char>, Seq<char>, Seq<char>)> {
    match verdict {
        Ok(()) => seq![],
        Err(why) => seq![(param, flag, why)],
    }
}

pub open spec fn optional_verdict(v: Option<&str>, shaped: spec_fn(Seq<char>) -> bool, rule: Seq<char>) -> Result<(), Seq<char>> {
    match v {
        None => Err("is not set"@),
        Some(s) => shape_verdict(s@, shaped(s@), rule),
    }
}

/// Everything wrong with the day-0 parameters, in the order an operator would
/// fix them: shortname, organisation (not on greenfield), billing account,
/// project, bucket.
pub open spec fn day_zero_problems(d: DayZero) -> Seq<(Seq<char>, Seq<char>, Seq<char>)> {
    (if trim(d.shortname@).len() == 0 {
        seq![("customer_shortname"@, "customer-shortname"@, "is empty"@)]
    } else {
        seq![]
    })
    + (if d.greenfield {
        seq![]
    } else {
        judged("customer_organization_id"@, "customer-organization-id"@, shape_verdict(d.organization_id@, org_id_shaped(d.organization_id@), org_rule()))
    })
    + judged("billing_account_infra"@, "billing-account-infra"@, shape_verdict(d.billing_account@, billing_shaped(d.billing_account@), billing_rule()))
    + judged("infra_project_name"@, "infra-project-name"@, optional_verdict(d.project_id, |s: Seq<char>| project_shaped(s), project_rule()))
    + judged("infra_bucket_name"@, "infra-bucket-name"@, optional_verdict(d.bucket_name, |s: Seq<char>| bucket_shaped(s), bucket_rule()))
}

pub open spec fn problem_views(v: Seq<Problem>) -> Seq<(Seq<char>, Seq<char>, Seq<char>)> {
    v.map_values(|p: Problem| p@)
}

fn push_judged(out: &mut Vec<Problem>, param: &str, flag: &str, verdict: Result<(), String>)
    ensures
        problem_views(final(out)@) == problem_views(old(out)@) + judged(param@, flag@, result_view(verdict)),
{
    let ghost before = problem_views(out@);
    match verdict {
        Ok(()) => {
            assert(problem_views(out@) =~= before + seq![]);
        },
        Err(why) => {
            out.push(problem(param, flag, why));
            assert(problem_views(out@) =~= before + judged(param@, flag@, result_view(verdict)));
        },
    }
}

/// Everything wrong with `d`, in the order an operator would fix it.
pub fn check(d: &DayZero) -> (out: Vec<Problem>)
    ensures
        problem_views(out@) == day_zero_problems(*d),
{
    let mut out: Vec<Problem> = Vec::new();
    let name = trim_str(d.shortname);
    if name.len() == 0 {
        out.push(problem("customer_shortname", "customer-shortname", String::from_str("is empty")));
    }
    let ghost p1 = problem_views(out@);
    assert(p1 =~= (if trim(d.shortname@).len() == 0 {
        seq![("customer_shortname"@, "customer-shortname"@, "is empty"@)]
    } else {
        seq![]
    }));
    if !d.greenfield {
        push_judged(&mut out, "customer_organization_id", "customer-organization-id", organization_id(d.organization_id));
    } else {
        assert(problem_views(out@) =~= p1 + seq![]);
    }
    push_judged(&mut out, "billing_account_infra", "billing-account-infra", billing_account(d.billing_account));
    let pv = match d.project_id {
        None => Err(String::from_str("is not set")),
        Some(p) => project_id(p),
    };
    push_judged(&mut out, "infra_project_name", "infra-project-name", pv);
    let bv = match d.bucket_name {
        None => Err(String::from_str("is not set")),
        Some(b) => bucket_name(b),
    };
    push_judged(&mut out, "infra_bucket_name", "infra-bucket-name", bv);
    out
}

/// The problems joined, each followed by a newline.
pub open spec fn problems_text(ps: Seq<(Seq<char>, Seq<char>, Seq<char>)>) -> Seq<char>
    decreases ps.len(),
{
    if ps.len() == 0 {
        seq![]
    } else {
        problems_text(ps.drop_last()) + problem_text(ps.last()) + "\n"@
    }
}

/// The refusal for a non-empty list of problems.
pub open spec fn gate_refusal(ps: Seq<(Seq<char>, Seq<char>, Seq<char>)>) -> Seq<char> {
    "the estate is not ready to bootstrap — "@ + dec(ps.len()) + " param(s) are missing or malformed, and nothing was called:\n"@
        + problems_text(ps)
        + "  (`satz init` merges these into the estate you already have; nothing else is touched.)"@
}

/// All checks at once: the problems as one refusal, or `Ok` to go on.
pub fn gate(d: &DayZero) -> (r: Result<(), String>)
    ensures
        day_zero_problems(*d).len() == 0 ==> r is Ok,
        day_zero_problems(*d).len() > 0 ==> result_view(r) == Err::<(), Seq<char>>(gate_refusal(day_zero_problems(*d))),
{
    let problems = check(d);
    if problems.len() == 0 {
        return Ok(());
    }
    let mut msg = String::from_str("the estate is not ready to bootstrap — ");
    let n = dec_string(problems.len() as u64);
    msg.append(n.as_str());
    msg.append(" param(s) are missing or malformed, and nothing was called:\n");
    let ghost head = msg@;
    let mut i: usize = 0;
    while i < problems.len()
        invariant
            i <= problems.len(),
            msg@ == head + problems_text(problem_views(problems@).take(i as int)),
        decreases problems.len() - i,
    {
        let line = problems[i].render();
        msg.append(line.as_str());
        msg.append("\n");
        proof {
            let ps = problem_views(problems@).take(i + 1);
            assert(ps.drop_last() =~= problem_views(problems@).take(i as int));
            assert(ps.last() == problems@[i as int]@);
        }
        i = i + 1;
    }
    assert(problem_views(problems@).take(problems.len() as int) =~= problem_views(problems@));
    msg.append("  (`satz init` merges these into the estate you already have; nothing else is touched.)");
    Err(msg)
}

// ---------------------------------------------------------------------------
// What a project id may hold
// ---------------------------------------------------------------------------

/// A project id holding any character other than a lower-case ASCII letter,
/// an ASCII digit or `-` (an upper-case letter, say) is refused, and an
/// accepted one holds nothing else.
pub proof fn law_a_project_id_holds_only_lower_case_letters_digits_and_hyphens(v: Seq<char>, i: int)
    ensures
        0 <= i < v.len() && !(('a' <= v[i] && v[i] <= 'z') || ('0' <= v[i] && v[i] <= '9') || v[i] == '-')
            ==> shape_verdict(v, project_shaped(v), project_rule()) is Err,
        0 <= i < v.len() && 'A' <= v[i] && v[i] <= 'Z' ==> shape_verdict(v, project_shaped(v), project_rule()) is Err,
        shape_verdict(v, project_shaped(v), project_rule()) is Ok && 0 <= i < v.len()
            ==> (('a' <= v[i] && v[i] <= 'z') || ('0' <= v[i] && v[i] <= '9') || v[i] == '-'),
{
    if 0 <= i < v.len() {
        if project_shaped(v) {
            assert(is_ascii_lower(v[i]) || is_ascii_digit(v[i]) || v[i] == '-');
        }
    }
}

} // verus!
