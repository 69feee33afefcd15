//! The decisions of `satz bootstrap`: the plan it derives from the parameter
//! table, the identity check it makes before touching anything, how each step
//! is recorded, when the run must stop, and the summary it ends with. The
//! calls to the cloud APIs that the steps make are the caller's.

use vstd::prelude::*;
use vstd::string::*;
use crate::text::{
    ascii_lower, dec, occurs_at, find, find_char, find_chars, first_occurrence, is_ws, push_chars, push_str_chars, slice_chars,
    to_ascii_lower, to_chars, trim, trim_str, from_chars, contains_seq, contains_str,
};

verus! {

/// How an API failure is classified: a missing permission, a quota-project
/// 403 (about the billed project, not the caller), a conflict, or anything else.
#[derive(Debug, Clone, Copy, PartialEq, Eq)]
pub enum ErrorClass {
    PermissionDenied,
    QuotaProject,
    Conflict,
    Other,
}

/// What happened to one bootstrap step.
#[derive(Debug, Clone, PartialEq, Eq)]
pub enum StepStatus {
    Created,
    AlreadyExisted,
    Skipped(String),
    /// Carries the failure's classification and the API's own message, verbatim.
    Failed(ErrorClass, String),
}

#[derive(Debug, Clone, PartialEq, Eq)]
pub struct StepOutcome {
    pub label: String,
    pub status: StepStatus,
}

/// The hint a quota-class 403 carries: the failure names the billed project,
/// not the caller's permissions, and the fix is one gcloud command.
pub open spec fn quota_hint() -> Seq<char> {
    "this 403 is about the billed (quota) project, not a missing permission — run `gcloud auth application-default set-quota-project <project>`"@
}

pub fn quota_hint_text() -> (r: &'static str)
    ensures
        r@ == quota_hint(),
{
    "this 403 is about the billed (quota) project, not a missing permission — run `gcloud auth application-default set-quota-project <project>`"
}

// ---------------------------------------------------------------------------
// The run's record
// ---------------------------------------------------------------------------

/// How many steps failed.
pub open spec fn failed_count(steps: Seq<StepOutcome>) -> nat
    decreases steps.len(),
{
    if steps.len() == 0 {
        0
    } else {
        failed_count(steps.drop_last()) + if steps.last().status is Failed { 1nat } else { 0nat }
    }
}

/// A step failed for lack of permission.
pub open spec fn denied(s: StepStatus) -> bool {
    s matches StepStatus::Failed(c, _) && c == ErrorClass::PermissionDenied
}

pub open spec fn has_denial(steps: Seq<StepOutcome>) -> bool {
    exists|i: int| 0 <= i < steps.len() && denied(#[trigger] steps[i].status)
}

proof fn lemma_failed_count_bound(steps: Seq<StepOutcome>)
    ensures
        failed_count(steps) <= steps.len(),
    decreases steps.len(),
{
    if steps.len() > 0 {
        lemma_failed_count_bound(steps.drop_last());
    }
}

/// Every bootstrap action is idempotent and re-run on each invocation, so a
/// failure is recorded and the run continues rather than aborting — otherwise
/// fixing one cause only reveals the next. The exception is a permission
/// denial, which every later step would hit too.
#[derive(Debug)]
pub struct RunSummary {
    pub steps: Vec<StepOutcome>,
}

impl Default for RunSummary {
    fn default() -> (r: Self)
        ensures
            r.steps@.len() == 0,
    {
        RunSummary { steps: Vec::new() }
    }
}

impl RunSummary {
    /// Record a step: it goes to the end of the run's record.
    pub fn record(&mut self, label: &str, status: StepStatus)
        ensures
            final(self).steps@.len() == old(self).steps@.len() + 1,
            final(self).steps@.take(old(self).steps@.len() as int) == old(self).steps@,
            final(self).steps@.last().label@ == label@,
            final(self).steps@.last().status == status,
    {
        let outcome = StepOutcome { label: String::from_str(label), status };
        let ghost before = self.steps@;
        self.steps.push(outcome);
        assert(self.steps@.take(before.len() as int) =~= before);
    }

    /// How many steps failed: the run's exit code follows it.
    pub fn failed(&self) -> (n: usize)
        ensures
            n as nat == failed_count(self.steps@),
    {
        let mut n: usize = 0;
        let mut i: usize = 0;
        while i < self.steps.len()
            invariant
                i <= self.steps@.len(),
                n as nat == failed_count(self.steps@.take(i as int)),
                n <= i,
            decreases self.steps.len() - i,
        {
            proof {
                assert(self.steps@.take(i + 1).drop_last() =~= self.steps@.take(i as int));
            }
            match &self.steps[i].status {
                StepStatus::Failed(..) => {
                    n = n + 1;
                },
                _ => {},
            }
            i = i + 1;
        }
        assert(self.steps@.take(i as int) =~= self.steps@);
        n
    }

    /// True once a step has failed for lack of permission. Later steps need
    /// the same or broader access, so continuing would only repeat the denial.
    pub fn has_permission_failure(&self) -> (b: bool)
        ensures
            b == has_denial(self.steps@),
    {
        let mut i: usize = 0;
        while i < self.steps.len()
            invariant
                i <= self.steps@.len(),
                forall|j: int| 0 <= j < i ==> !denied(#[trigger] self.steps@[j].status),
            decreases self.steps.len() - i,
        {
            match &self.steps[i].status {
                StepStatus::Failed(ErrorClass::PermissionDenied, _) => {
                    return true;
                },
                _ => {},
            }
            i = i + 1;
        }
        false
    }
}

/// Recording a step adds one to the failed count exactly when that step
/// failed, and the run has a permission denial afterwards exactly when it had
/// one before or the new step is one: a denial, once recorded, stays.
pub proof fn law_record_keeps_the_count(before: Seq<StepOutcome>, after: Seq<StepOutcome>)
    requires
        after.len() == before.len() + 1,
        after.take(before.len() as int) == before,
    ensures
        failed_count(after) == failed_count(before) + if after.last().status is Failed { 1nat } else { 0nat },
        has_denial(after) == (has_denial(before) || denied(after.last().status)),
{
    assert(after.drop_last() =~= before);
    if has_denial(before) {
        let i = choose|i: int| 0 <= i < before.len() && denied(#[trigger] before[i].status);
        assert(after[i] == before[i]);
    }
    if has_denial(after) {
        let i = choose|i: int| 0 <= i < after.len() && denied(#[trigger] after[i].status);
        if i < before.len() {
            assert(after[i] == before[i]);
        }
    }
}

/// The line a step echoes as it is recorded; failures and skips go to the
/// error stream (`progress_to_stderr`).
pub open spec fn progress_text(o: StepOutcome) -> Seq<char> {
    match o.status {
        StepStatus::Created => "  created  "@ + o.label@,
        StepStatus::AlreadyExisted => "  exists   "@ + o.label@,
        StepStatus::Skipped(why) => "  skipped  "@ + o.label@ + ": "@ + why@,
        StepStatus::Failed(c, err) => "  FAILED   "@ + o.label@ + ": "@ + err@
            + if c == ErrorClass::QuotaProject { "\n           hint: "@ + quota_hint() } else { seq![] },
    }
}

impl StepOutcome {
    pub fn progress(&self) -> (r: String)
        ensures
            r@ == progress_text(*self),
    {
        let mut out: Vec<char> = Vec::new();
        match &self.status {
            StepStatus::Created => {
                push_str_chars(&mut out, "  created  ");
                push_str_chars(&mut out, self.label.as_str());
            },
            StepStatus::AlreadyExisted => {
                push_str_chars(&mut out, "  exists   ");
                push_str_chars(&mut out, self.label.as_str());
            },
            StepStatus::Skipped(why) => {
                push_str_chars(&mut out, "  skipped  ");
                push_str_chars(&mut out, self.label.as_str());
                push_str_chars(&mut out, ": ");
                push_str_chars(&mut out, why.as_str());
            },
            StepStatus::Failed(c, err) => {
                push_str_chars(&mut out, "  FAILED   ");
                push_str_chars(&mut out, self.label.as_str());
                push_str_chars(&mut out, ": ");
                push_str_chars(&mut out, err.as_str());
                match c {
                    ErrorClass::QuotaProject => {
                        push_str_chars(&mut out, "\n           hint: ");
                        push_str_chars(&mut out, quota_hint_text());
                    },
                    _ => {},
                }
            },
        }
        from_chars(&out)
    }

    /// Failures and skips are echoed on the error stream.
    pub fn progress_to_stderr(&self) -> (b: bool)
        ensures
            b == (self.status is Skipped || self.status is Failed),
    {
        match &self.status {
            StepStatus::Skipped(_) | StepStatus::Failed(..) => true,
            _ => false,
        }
    }
}

// ---------------------------------------------------------------------------
// The end-of-run report
// ---------------------------------------------------------------------------

pub open spec fn applied_line(o: StepOutcome) -> Seq<char> {
    match o.status {
        StepStatus::Created => "  created "@ + o.label@ + "\n"@,
        StepStatus::AlreadyExisted => "  exists  "@ + o.label@ + "\n"@,
        _ => seq![],
    }
}

pub open spec fn skipped_line(o: StepOutcome) -> Seq<char> {
    match o.status {
        StepStatus::Skipped(why) => "  "@ + o.label@ + ": "@ + why@ + "\n"@,
        _ => seq![],
    }
}

pub open spec fn error_line(o: StepOutcome) -> Seq<char> {
    match o.status {
        StepStatus::Failed(c, err) => "  "@ + o.label@ + ": "@ + err@ + "\n"@
            + if c == ErrorClass::QuotaProject { "    hint: "@ + quota_hint() + "\n"@ } else { seq![] },
        _ => seq![],
    }
}

/// The lines `line` gives for each step, in order.
pub open spec fn lines_for(steps: Seq<StepOutcome>, line: spec_fn(StepOutcome) -> Seq<char>) -> Seq<char>
    decreases steps.len(),
{
    if steps.len() == 0 {
        seq![]
    } else {
        lines_for(steps.drop_last(), line) + line(steps.last())
    }
}

pub open spec fn count_applied(steps: Seq<StepOutcome>) -> nat
    decreases steps.len(),
{
    if steps.len() == 0 {
        0
    } else {
        count_applied(steps.drop_last()) + if steps.last().status is Created || steps.last().status is AlreadyExisted { 1nat } else { 0nat }
    }
}

pub open spec fn count_skipped(steps: Seq<StepOutcome>) -> nat
    decreases steps.len(),
{
    if steps.len() == 0 {
        0
    } else {
        count_skipped(steps.drop_last()) + if steps.last().status is Skipped { 1nat } else { 0nat }
    }
}

/// The end-of-run report: the applied steps, the skipped ones with their
/// reasons, the errors with the API's own message (and the hint for a
/// quota-class failure) and how many failed — each section only when it has
/// a line — or that all steps completed.
pub open spec fn summary_text(steps: Seq<StepOutcome>) -> Seq<char> {
    "\n=== Bootstrap summary ===\n"@
        + (if count_applied(steps) > 0 { "Applied:\n"@ + lines_for(steps, |o: StepOutcome| applied_line(o)) } else { seq![] })
        + (if count_skipped(steps) > 0 { "Skipped:\n"@ + lines_for(steps, |o: StepOutcome| skipped_line(o)) } else { seq![] })
        + (if failed_count(steps) > 0 {
            "Errors:\n"@ + lines_for(steps, |o: StepOutcome| error_line(o)) + dec(failed_count(steps))
                + " step(s) failed. Bootstrap is idempotent — fix the causes and re-run.\n"@
        } else {
            "All steps completed.\n"@
        })
}

fn push_applied(out: &mut Vec<char>, o: &StepOutcome) -> (b: bool)
    ensures
        final(out)@ == old(out)@ + applied_line(*o),
        b == (o.status is Created || o.status is AlreadyExisted),
{
    match &o.status {
        StepStatus::Created => {
            push_str_chars(out, "  created ");
            push_str_chars(out, o.label.as_str());
            push_str_chars(out, "\n");
            true
        },
        StepStatus::AlreadyExisted => {
            push_str_chars(out, "  exists  ");
            push_str_chars(out, o.label.as_str());
            push_str_chars(out, "\n");
            true
        },
        _ => {
            assert(applied_line(*o) =~= seq![]);
            false
        },
    }
}

fn push_skipped(out: &mut Vec<char>, o: &StepOutcome) -> (b: bool)
    ensures
        final(out)@ == old(out)@ + skipped_line(*o),
        b == (o.status is Skipped),
{
    match &o.status {
        StepStatus::Skipped(why) => {
            push_str_chars(out, "  ");
            push_str_chars(out, o.label.as_str());
            push_str_chars(out, ": ");
            push_str_chars(out, why.as_str());
            push_str_chars(out, "\n");
            true
        },
        _ => {
            assert(skipped_line(*o) =~= seq![]);
            false
        },
    }
}

fn push_error(out: &mut Vec<char>, o: &StepOutcome) -> (b: bool)
    ensures
        final(out)@ == old(out)@ + error_line(*o),
        b == (o.status is Failed),
{
    match &o.status {
        StepStatus::Failed(c, err) => {
            let ghost o0 = out@;
            push_str_chars(out, "  ");
            push_str_chars(out, o.label.as_str());
            push_str_chars(out, ": ");
            push_str_chars(out, err.as_str());
            push_str_chars(out, "\n");
            match c {
                ErrorClass::QuotaProject => {
                    push_str_chars(out, "    hint: ");
                    push_str_chars(out, quota_hint_text());
                    push_str_chars(out, "\n");
                },
                _ => {},
            }
            assert(out@ =~= o0 + error_line(*o));
            true
        },
        _ => {
            assert(error_line(*o) =~= seq![]);
            false
        },
    }
}

/// Render the end-of-run report.
pub fn render_summary(steps: &[StepOutcome]) -> (r: String)
    ensures
        r@ == summary_text(steps@),
{
    let ghost s = steps@;
    let ghost fa = |o: StepOutcome| applied_line(o);
    let ghost fs = |o: StepOutcome| skipped_line(o);
    let ghost fe = |o: StepOutcome| error_line(o);
    let mut applied: Vec<char> = Vec::new();
    let mut skipped: Vec<char> = Vec::new();
    let mut errors: Vec<char> = Vec::new();
    let mut n_applied: usize = 0;
    let mut n_skipped: usize = 0;
    let mut n_failed: usize = 0;
    let mut i: usize = 0;
    while i < steps.len()
        invariant
            i <= s.len(),
            s == steps@,
            applied@ == lines_for(s.take(i as int), fa),
            skipped@ == lines_for(s.take(i as int), fs),
            errors@ == lines_for(s.take(i as int), fe),
            n_applied as nat == count_applied(s.take(i as int)),
            n_skipped as nat == count_skipped(s.take(i as int)),
            n_failed as nat == failed_count(s.take(i as int)),
            n_applied <= i,
            n_skipped <= i,
            n_failed <= i,
            fa == (|o: StepOutcome| applied_line(o)),
            fs == (|o: StepOutcome| skipped_line(o)),
            fe == (|o: StepOutcome| error_line(o)),
        decreases steps.len() - i,
    {
        proof {
            assert(s.take(i + 1).drop_last() =~= s.take(i as int));
            assert(s.take(i + 1).last() == s[i as int]);
        }
        if push_applied(&mut applied, &steps[i]) {
            n_applied = n_applied + 1;
        }
        if push_skipped(&mut skipped, &steps[i]) {
            n_skipped = n_skipped + 1;
        }
        if push_error(&mut errors, &steps[i]) {
            n_failed = n_failed + 1;
        }
        i = i + 1;
    }
    assert(s.take(i as int) =~= s);
    let mut out: Vec<char> = Vec::new();
    push_str_chars(&mut out, "\n=== Bootstrap summary ===\n");
    if n_applied > 0 {
        push_str_chars(&mut out, "Applied:\n");
        push_chars(&mut out, &applied);
    }
    if n_skipped > 0 {
        push_str_chars(&mut out, "Skipped:\n");
        push_chars(&mut out, &skipped);
    }
    if n_failed > 0 {
        push_str_chars(&mut out, "Errors:\n");
        push_chars(&mut out, &errors);
        let n = crate::text::dec_chars(n_failed as u64);
        push_chars(&mut out, &n);
        push_str_chars(&mut out, " step(s) failed. Bootstrap is idempotent — fix the causes and re-run.\n");
    } else {
        push_str_chars(&mut out, "All steps completed.\n");
    }
    assert(out@ =~= summary_text(s));
    from_chars(&out)
}

// ---------------------------------------------------------------------------
// Who is running it
// ---------------------------------------------------------------------------

/// `str::eq_ignore_ascii_case`.
pub open spec fn eq_ignore_ascii_case(a: Seq<char>, b: Seq<char>) -> bool {
    a.len() == b.len() && forall|i: int| 0 <= i < a.len() ==> ascii_lower(#[trigger] a[i]) == ascii_lower(b[i])
}

/// True when the credentials in use are the ones the config names. Addresses
/// are compared trimmed and without regard to ASCII case: no identity provider
/// in this path treats the local part's case as significant, and a spurious
/// mismatch would block a legitimate run.
pub fn identity_matches(expected: &str, actual: &str) -> (b: bool)
    ensures
        b == eq_ignore_ascii_case(trim(expected@), trim(actual@)),
{
    let a = trim_str(expected);
    let b = trim_str(actual);
    if a.len() != b.len() {
        return false;
    }
    let mut i: usize = 0;
    while i < a.len()
        invariant
            i <= a@.len() == b@.len(),
            a@ == trim(expected@),
            b@ == trim(actual@),
            forall|j: int| 0 <= j < i ==> ascii_lower(#[trigger] a@[j]) == ascii_lower(b@[j]),
        decreases a.len() - i,
    {
        if to_ascii_lower(a[i]) != to_ascii_lower(b[i]) {
            assert(ascii_lower(a@[i as int]) != ascii_lower(b@[i as int]));
            return false;
        }
        i = i + 1;
    }
    true
}

/// The admin a config expects to run as: `first-admin` at `customer-domain`,
/// or `first-admin` itself when it is already a full address; none unless
/// both are set and not empty.
pub open spec fn expected_admin_of(first_admin: Option<Seq<char>>, domain: Option<Seq<char>>) -> Option<Seq<char>> {
    match (first_admin, domain) {
        (Some(local), Some(d)) => if local.len() > 0 && d.len() > 0 {
            if local.contains('@') {
                Some(local)
            } else {
                Some(local + "@"@ + d)
            }
        } else {
            None
        },
        _ => None,
    }
}

pub open spec fn opt_view(o: Option<&str>) -> Option<Seq<char>> {
    match o {
        Some(s) => Some(s@),
        None => None,
    }
}

pub open spec fn opt_string_view(o: Option<String>) -> Option<Seq<char>> {
    match o {
        Some(s) => Some(s@),
        None => None,
    }
}

pub fn expected_admin(first_admin: Option<&str>, domain: Option<&str>) -> (r: Option<String>)
    ensures
        opt_string_view(r) == expected_admin_of(opt_view(first_admin), opt_view(domain)),
{
    match (first_admin, domain) {
        (Some(local), Some(d)) => {
            let lc = to_chars(local);
            let dc = to_chars(d);
            if lc.len() > 0 && dc.len() > 0 {
                proof {
                    crate::text::lemma_find(lc@, '@');
                }
                match find_char(&lc, '@') {
                    Some(_) => Some(String::from_str(local)),
                    None => {
                        proof {
                            assert(!lc@.contains('@'));
                        }
                        let mut out = lc;
                        out.push('@');
                        push_chars(&mut out, &dc);
                        proof {
                            reveal_strlit("@");
                        }
                        assert(out@ =~= local@ + "@"@ + d@);
                        Some(from_chars(&out))
                    },
                }
            } else {
                None
            }
        },
        _ => None,
    }
}

/// What the identity check concludes before anything is created.
#[derive(Debug, Clone, PartialEq, Eq)]
pub enum IdentityCheck {
    /// The config names no admin: the identity cannot be verified; the run goes on with a warning.
    NotConfigured,
    /// The config names an admin, and no mechanism could tell who the credentials are: stop.
    Unverifiable,
    /// The credentials are someone else's: stop.
    Mismatch,
    /// The credentials are the configured admin's.
    Matches,
}

pub open spec fn identity_check_of(expected: Option<Seq<char>>, actual: Option<Seq<char>>) -> IdentityCheck {
    match (expected, actual) {
        (None, _) => IdentityCheck::NotConfigured,
        (Some(_), None) => IdentityCheck::Unverifiable,
        (Some(e), Some(a)) => if eq_ignore_ascii_case(trim(e), trim(a)) {
            IdentityCheck::Matches
        } else {
            IdentityCheck::Mismatch
        },
    }
}

/// Compare the configured admin with the identity the credentials resolved to.
pub fn check_identity(expected: Option<&str>, actual: Option<&str>) -> (r: IdentityCheck)
    ensures
        r == identity_check_of(opt_view(expected), opt_view(actual)),
{
    match (expected, actual) {
        (None, _) => IdentityCheck::NotConfigured,
        (Some(_), None) => IdentityCheck::Unverifiable,
        (Some(e), Some(a)) => if identity_matches(e, a) {
            IdentityCheck::Matches
        } else {
            IdentityCheck::Mismatch
        },
    }
}

/// An `email` a tokeninfo or userinfo response carries, trimmed; none when
/// it is absent or blank.
pub open spec fn email_of(field: Option<Seq<char>>) -> Option<Seq<char>> {
    match field {
        Some(e) => if trim(e).len() > 0 {
            Some(trim(e))
        } else {
            None
        },
        None => None,
    }
}

/// Read the `email` of a tokeninfo or userinfo response body, given the
/// field as a string when the body has one.
pub fn email_from_identity(email: Option<&str>) -> (r: Option<String>)
    ensures
        opt_string_view(r) == email_of(opt_view(email)),
{
    match email {
        Some(e) => {
            let t = trim_str(e);
            if t.len() > 0 {
                Some(from_chars(&t))
            } else {
                None
            }
        },
        None => None,
    }
}

/// The impersonation target in `.../serviceAccounts/{email}:generateAccessToken`:
/// the text after the first `/serviceAccounts/` up to the next one, and of
/// that the part before any `:`; none when that is empty or the marker is absent.
pub open spec fn impersonated_of(url: Seq<char>) -> Option<Seq<char>> {
    let marker = "/serviceAccounts/"@;
    match first_occurrence(url, marker) {
        None => None,
        Some(i) => {
            let rest = url.skip(i + marker.len());
            let piece = match first_occurrence(rest, marker) {
                Some(j) => rest.take(j),
                None => rest,
            };
            let email = match find(piece, ':') {
                Some(k) => piece.take(k),
                None => piece,
            };
            if email.len() > 0 {
                Some(email)
            } else {
                None
            }
        },
    }
}

/// The service-account address of an ADC credentials file: a key file's
/// `client_email` when it is not blank, else the impersonation target.
pub open spec fn adc_email_of(client_email: Option<Seq<char>>, impersonation_url: Option<Seq<char>>) -> Option<Seq<char>> {
    match email_of(client_email) {
        Some(e) => Some(e),
        None => match impersonation_url {
            Some(u) => impersonated_of(u),
            None => None,
        },
    }
}

/// Read the service-account address out of an ADC credentials file, given its
/// `client_email` and `service_account_impersonation_url` fields where they are strings.
pub fn email_from_adc(client_email: Option<&str>, impersonation_url: Option<&str>) -> (r: Option<String>)
    ensures
        opt_string_view(r) == adc_email_of(opt_view(client_email), opt_view(impersonation_url)),
{
    match email_from_identity(client_email) {
        Some(e) => return Some(e),
        None => {},
    }
    let u = match impersonation_url {
        Some(u) => u,
        None => return None,
    };
    let uc = to_chars(u);
    let marker = to_chars("/serviceAccounts/");
    let found = find_chars(&uc, &marker);
    let i = match found {
        Some(i) => i,
        None => return None,
    };
    assert(first_occurrence(uc@, marker@) == Some(i as int));
    proof {
        crate::text::lemma_first_occurrence(uc@, marker@);
        assert(occurs_at(uc@, marker@, i as int));
    }
    let n: usize = uc.len();
    let start: usize = i + marker.len();
    let rest = slice_chars(&uc, start, n);
    assert(rest@ =~= uc@.skip(i + marker@.len()));
    let piece = match find_chars(&rest, &marker) {
        Some(j) => {
            proof {
                crate::text::lemma_first_occurrence(rest@, marker@);
            }
            let p = slice_chars(&rest, 0, j);
            assert(p@ =~= rest@.take(j as int));
            p
        },
        None => rest,
    };
    proof {
        crate::text::lemma_find(piece@, ':');
    }
    let email = match find_char(&piece, ':') {
        Some(k) => {
            let e = slice_chars(&piece, 0, k);
            assert(e@ =~= piece@.take(k as int));
            e
        },
        None => piece,
    };
    if email.len() > 0 {
        Some(from_chars(&email))
    } else {
        None
    }
}

/// How the identity of the credentials was established.
#[derive(Debug, Clone, Copy, PartialEq, Eq)]
pub enum PrincipalSource {
    TokenInfo,
    Signer,
    UserInfo,
    AdcFile,
}

impl PrincipalSource {
    pub fn label(self) -> (r: &'static str)
        ensures
            r@ == (match self {
                PrincipalSource::TokenInfo => "token introspection"@,
                PrincipalSource::Signer => "credential signer"@,
                PrincipalSource::UserInfo => "userinfo endpoint"@,
                PrincipalSource::AdcFile => "ADC credentials file"@,
            }),
    {
        match self {
            PrincipalSource::TokenInfo => "token introspection",
            PrincipalSource::Signer => "credential signer",
            PrincipalSource::UserInfo => "userinfo endpoint",
            PrincipalSource::AdcFile => "ADC credentials file",
        }
    }
}

// ---------------------------------------------------------------------------
// The plan and the steps
// ---------------------------------------------------------------------------

/// What bootstrap will create: the project and bucket default from the
/// shortname, the region from a fixed default.
#[derive(Debug, Clone, PartialEq, Eq)]
pub struct Plan {
    pub shortname: String,
    pub billing: String,
    pub region: String,
    pub org_id: String,
    pub project_id: String,
    pub bucket_name: String,
}

pub open spec fn project_id_of(shortname: Seq<char>, project: Option<Seq<char>>) -> Seq<char> {
    match project {
        Some(p) => p,
        None => shortname + "-iac-infra"@,
    }
}

/// The plan, or the parameter whose absence stops bootstrap before anything runs.
pub open spec fn plan_ok(config: Seq<char>, shortname: Option<Seq<char>>, billing: Option<Seq<char>>, org_id: Option<Seq<char>>,
    region: Option<Seq<char>>, project: Option<Seq<char>>, bucket: Option<Seq<char>>, r: Result<Plan, String>) -> bool {
    match (shortname, billing, org_id) {
        (None, _, _) => r matches Err(e) && e@ == "Missing 'customer-shortname' in "@ + config,
        (Some(_), None, _) => r matches Err(e) && e@ == "Missing 'billing-account-infra' in "@ + config,
        (Some(_), Some(_), None) => r matches Err(e) && e@ == "Missing org_id in configuration (required for bootstrap)"@,
        (Some(sn), Some(bid), Some(oid)) => r matches Ok(p) && {
            &&& p.shortname@ == sn
            &&& p.billing@ == bid
            &&& p.org_id@ == oid
            &&& p.region@ == (match region { Some(x) => x, None => "europe-west3"@ })
            &&& p.project_id@ == project_id_of(sn, project)
            &&& p.bucket_name@ == (match bucket { Some(b) => b, None => project_id_of(sn, project) })
        },
    }
}

fn opt_owned(o: Option<&str>) -> (r: Option<String>)
    ensures
        opt_string_view(r) == opt_view(o),
{
    match o {
        Some(s) => Some(String::from_str(s)),
        None => None,
    }
}

/// Derive the plan from the parameters the estate sets.
pub fn plan(config: &str, shortname: Option<&str>, billing: Option<&str>, org_id: Option<&str>, region: Option<&str>,
    project: Option<&str>, bucket: Option<&str>) -> (r: Result<Plan, String>)
    ensures
        plan_ok(config@, opt_view(shortname), opt_view(billing), opt_view(org_id), opt_view(region), opt_view(project),
            opt_view(bucket), r),
{
    let sn = match shortname {
        Some(s) => s,
        None => {
            let mut e = String::from_str("Missing 'customer-shortname' in ");
            e.append(config);
            return Err(e);
        },
    };
    let bid = match billing {
        Some(b) => b,
        None => {
            let mut e = String::from_str("Missing 'billing-account-infra' in ");
            e.append(config);
            return Err(e);
        },
    };
    let oid = match org_id {
        Some(o) => o,
        None => return Err(String::from_str("Missing org_id in configuration (required for bootstrap)")),
    };
    let region = match region {
        Some(r) => String::from_str(r),
        None => String::from_str("europe-west3"),
    };
    let project_id = match project {
        Some(p) => String::from_str(p),
        None => {
            let mut p = String::from_str(sn);
            p.append("-iac-infra");
            p
        },
    };
    let bucket_name = match bucket {
        Some(b) => String::from_str(b),
        None => project_id.clone(),
    };
    Ok(Plan {
        shortname: String::from_str(sn),
        billing: String::from_str(bid),
        region,
        org_id: String::from_str(oid),
        project_id,
        bucket_name,
    })
}

/// What the billing step does: skip when the project is unusable, nothing
/// when the project is already billed to the account, else link it.
#[derive(Debug, Clone, Copy, PartialEq, Eq)]
pub enum BillingStep {
    Skip,
    AlreadyLinked,
    Link,
}

pub fn billing_step(project_usable: bool, current: Option<&str>, billing: &str) -> (r: BillingStep)
    ensures
        r == (if !project_usable {
            BillingStep::Skip
        } else if opt_view(current) == Some(billing@) {
            BillingStep::AlreadyLinked
        } else {
            BillingStep::Link
        }),
{
    if !project_usable {
        return BillingStep::Skip;
    }
    match current {
        Some(c) => if crate::text::str_eq(c, billing) {
            BillingStep::AlreadyLinked
        } else {
            BillingStep::Link
        },
        None => BillingStep::Link,
    }
}

/// Whether an import `tofu import` refused still counts as done: the
/// resource is already managed.
pub fn import_accepted(succeeded: bool, stderr: &str) -> (b: bool)
    ensures
        b == (succeeded || contains_seq(stderr@, "Resource already managed by OpenTofu"@)),
{
    if succeeded {
        return true;
    }
    let s = to_chars(stderr);
    contains_str(&s, "Resource already managed by OpenTofu")
}

} // verus!
