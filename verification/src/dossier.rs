//! The remediation dossier: everything about a set of findings that a machine
//! can settle, settled — one item per (control, resource) from the triage and
//! from Checkov, a resource both scanners flag carrying both sources, in a
//! fixed order with stable ids, counted; rendered as CSV, and named by the
//! SHA-256 of its canonical JSON.

use vstd::prelude::*;
use vstd::string::*;
use crate::compliance::{bucket_title, Bucket, Catalog, Goal, TriageRow};
use crate::order::string_views;
use crate::text::{ascii_lower, dec, from_chars, join, push_chars, push_str_chars, str_eq, to_ascii_lower, to_chars};

verus! {

// ---------------------------------------------------------------------------
// Data model
// ---------------------------------------------------------------------------

/// Which scanner flagged an item.
#[derive(Debug, Clone, PartialEq, Eq)]
pub enum Source {
    Prowler { check: String, status: String },
    Checkov { check_id: String, check_name: String, guideline: Option<String> },
}

/// A Checkov finding, pointed at the Terraform address of the resource.
#[derive(Debug, Clone, PartialEq, Eq)]
pub struct CheckovFinding {
    pub check_id: String,
    pub check_name: String,
    pub resource: String,
    pub file: String,
    pub line: Option<u32>,
    pub guideline: Option<String>,
}

/// One finding as the dossier sees it.
#[derive(Debug, Clone, PartialEq, Eq)]
pub struct Item {
    /// Stable id `F-0001`, in dossier order.
    pub id: String,
    pub bucket: Bucket,
    pub bucket_title: String,
    /// Prowler severity normalized: Critical / High / Medium / Low / Informational / (empty)
    pub severity: String,
    pub control: String,
    pub control_title: String,
    /// The catalog's own reading of the control.
    pub paraphrase: String,
    pub resource: String,
    pub project: String,
    /// The emitted Satz address that declares this resource, when matched.
    pub declared_address: Option<String>,
    /// `file:line` of the declaring block, when known.
    pub declared_at: Option<String>,
    /// Which scanners flagged it.
    pub sources: Vec<Source>,
    pub scanner_title: String,
    pub scanner_remediation: String,
    pub scanner_risk: String,
    /// The triage plan sentence — the mechanical recommendation.
    pub plan: String,
    /// Packs in the library that would cover the control (bucket A).
    pub providers: Vec<String>,
    /// The estate's declared deviation reasons (bucket C).
    pub deviation_reasons: Vec<String>,
    /// Duties still open on the control.
    pub open_duties: Vec<String>,
    /// What the estate's goal view says about the control.
    pub goal: String,
}

/// Counts the plan's narrative starts from; each tally in key order.
#[derive(Debug, Clone, PartialEq, Eq)]
pub struct Summary {
    pub items: usize,
    pub by_bucket: Vec<(String, usize)>,
    pub by_severity: Vec<(String, usize)>,
    pub by_control: Vec<(String, usize)>,
    pub by_project: Vec<(String, usize)>,
    /// Items both scanners flagged.
    pub corroborated: usize,
    /// Bucket-B items the estate declares: `apply` fixes them, no edit needed.
    pub declared_apply_fixes: usize,
}

#[derive(Debug, Clone, PartialEq, Eq)]
pub struct Dossier {
    pub framework: String,
    pub framework_version: String,
    pub estate: String,
    pub summary: Summary,
    pub items: Vec<Item>,
}

// ---------------------------------------------------------------------------
// Severities
// ---------------------------------------------------------------------------

/// `str::to_ascii_lowercase`.
pub open spec fn lower(s: Seq<char>) -> Seq<char> {
    s.map_values(|c: char| ascii_lower(c))
}

fn lower_chars(s: &str) -> (r: Vec<char>)
    ensures
        r@ == lower(s@),
{
    let c = to_chars(s);
    let mut r: Vec<char> = Vec::new();
    let mut i: usize = 0;
    while i < c.len()
        invariant
            i <= c@.len(),
            c@ == s@,
            r@ == lower(c@.take(i as int)),
        decreases c.len() - i,
    {
        r.push(to_ascii_lower(c[i]));
        assert(lower(c@.take(i + 1)) =~= lower(c@.take(i as int)).push(ascii_lower(c@[i as int])));
        i = i + 1;
    }
    assert(c@.take(i as int) =~= c@);
    r
}

fn chars_are(a: &Vec<char>, b: &str) -> (r: bool)
    ensures
        r == (a@ == b@),
{
    crate::text::chars_eq(a, &to_chars(b))
}

/// Prowler's severities in rank order, worst first, then anything else.
pub open spec fn severity_rank_of(s: Seq<char>) -> u8 {
    let l = lower(s);
    if l == "critical"@ {
        0
    } else if l == "high"@ {
        1
    } else if l == "medium"@ {
        2
    } else if l == "low"@ {
        3
    } else if l == "informational"@ || l == "info"@ {
        4
    } else {
        5
    }
}

pub fn severity_rank(s: &str) -> (r: u8)
    ensures
        r == severity_rank_of(s@),
{
    let l = lower_chars(s);
    if chars_are(&l, "critical") {
        0
    } else if chars_are(&l, "high") {
        1
    } else if chars_are(&l, "medium") {
        2
    } else if chars_are(&l, "low") {
        3
    } else if chars_are(&l, "informational") || chars_are(&l, "info") {
        4
    } else {
        5
    }
}

/// A severity as the dossier writes it, whatever its case; an unknown one as it came.
pub open spec fn normalized_severity(s: Seq<char>) -> Seq<char> {
    let l = lower(s);
    if l == "critical"@ {
        "Critical"@
    } else if l == "high"@ {
        "High"@
    } else if l == "medium"@ {
        "Medium"@
    } else if l == "low"@ {
        "Low"@
    } else if l == "informational"@ || l == "info"@ {
        "Informational"@
    } else if l.len() == 0 {
        seq![]
    } else {
        s
    }
}

pub fn normalize_severity(s: &str) -> (r: String)
    ensures
        r@ == normalized_severity(s@),
{
    let l = lower_chars(s);
    if chars_are(&l, "critical") {
        String::from_str("Critical")
    } else if chars_are(&l, "high") {
        String::from_str("High")
    } else if chars_are(&l, "medium") {
        String::from_str("Medium")
    } else if chars_are(&l, "low") {
        String::from_str("Low")
    } else if chars_are(&l, "informational") || chars_are(&l, "info") {
        String::from_str("Informational")
    } else if l.len() == 0 {
        String::new()
    } else {
        String::from_str(s)
    }
}

// ---------------------------------------------------------------------------
// What the goal view says about a control
// ---------------------------------------------------------------------------

/// The goal's sentence, its providers, its deviation reasons and its open duties.
pub open spec fn goal_description(goal: Option<Goal>) -> (Seq<char>, Seq<Seq<char>>, Seq<Seq<char>>, Seq<Seq<char>>) {
    match goal {
        Some(Goal::Satisfied { witnesses }) => ("satisfied by "@ + join(string_views(witnesses@), ", "@), seq![], seq![], seq![]),
        Some(Goal::Partial { witnesses, open_duties, contributes_only }) => (
            "partial"@ + (if contributes_only { " (contributes only)"@ } else { seq![] }) + " — witnesses "@
                + join(string_views(witnesses@), ", "@),
            seq![],
            seq![],
            string_views(open_duties@),
        ),
        Some(Goal::ClaimBroken { missing, pack }) => (
            "CLAIM BROKEN: "@ + pack@ + " declares witnesses not emitted: "@ + join(string_views(missing@), ", "@),
            seq![],
            seq![],
            seq![],
        ),
        Some(Goal::Deviation { reasons, open_duties, .. }) => (
            "declared deviation"@,
            seq![],
            crate::compliance::pair_views(reasons@).map_values(|p: (Seq<char>, Seq<char>)| p.1),
            string_views(open_duties@),
        ),
        Some(Goal::Unmet { providers }) => ("unmet"@, string_views(providers@), seq![], seq![]),
        Some(Goal::Organizational) => ("organizational — no IaC witness"@, seq![], seq![], seq![]),
        None => ("not in the goal view"@, seq![], seq![], seq![]),
    }
}

fn copy_strings(v: &Vec<String>) -> (r: Vec<String>)
    ensures
        string_views(r@) == string_views(v@),
{
    let mut r: Vec<String> = Vec::new();
    let mut i: usize = 0;
    while i < v.len()
        invariant
            i <= v.len(),
            string_views(r@) == string_views(v@).take(i as int),
        decreases v.len() - i,
    {
        let ghost before = string_views(r@);
        r.push(v[i].clone());
        assert(string_views(r@) =~= before.push(v@[i as int]@));
        assert(string_views(v@).take(i + 1) =~= string_views(v@).take(i as int).push(v@[i as int]@));
        i = i + 1;
    }
    assert(string_views(v@).take(v.len() as int) =~= string_views(v@));
    r
}

/// What the goal view says about a control, for an item.
pub fn describe_goal(goal: Option<&Goal>) -> (r: (String, Vec<String>, Vec<String>, Vec<String>))
    ensures
        (r.0@, string_views(r.1@), string_views(r.2@), string_views(r.3@)) == goal_description(
            crate::compliance::goal_of_ref(goal),
        ),
{
    let empty = || -> (v: Vec<String>)
        ensures
            v@.len() == 0,
        { Vec::new() };
    match goal {
        Some(Goal::Satisfied { witnesses }) => {
            let mut t = to_chars("satisfied by ");
            push_chars(&mut t, &crate::text::join_strings(witnesses, ", "));
            (from_chars(&t), empty(), empty(), empty())
        },
        Some(Goal::Partial { witnesses, open_duties, contributes_only }) => {
            let mut t = to_chars("partial");
            if *contributes_only {
                push_str_chars(&mut t, " (contributes only)");
            }
            push_str_chars(&mut t, " — witnesses ");
            push_chars(&mut t, &crate::text::join_strings(witnesses, ", "));
            (from_chars(&t), empty(), empty(), copy_strings(open_duties))
        },
        Some(Goal::ClaimBroken { missing, pack }) => {
            let mut t = to_chars("CLAIM BROKEN: ");
            push_str_chars(&mut t, pack.as_str());
            push_str_chars(&mut t, " declares witnesses not emitted: ");
            push_chars(&mut t, &crate::text::join_strings(missing, ", "));
            (from_chars(&t), empty(), empty(), empty())
        },
        Some(Goal::Deviation { reasons, open_duties, .. }) => {
            let mut rs: Vec<String> = Vec::new();
            let mut i: usize = 0;
            while i < reasons.len()
                invariant
                    i <= reasons.len(),
                    string_views(rs@) == crate::compliance::pair_views(reasons@).map_values(|p: (Seq<char>, Seq<char>)| p.1).take(i as int),
                decreases reasons.len() - i,
            {
                let ghost before = string_views(rs@);
                rs.push(reasons[i].1.clone());
                assert(string_views(rs@) =~= before.push(reasons@[i as int].1@));
                assert(crate::compliance::pair_views(reasons@).map_values(|p: (Seq<char>, Seq<char>)| p.1).take(i + 1)
                    =~= crate::compliance::pair_views(reasons@).map_values(|p: (Seq<char>, Seq<char>)| p.1).take(i as int).push(reasons@[i as int].1@));
                i = i + 1;
            }
            assert(crate::compliance::pair_views(reasons@).map_values(|p: (Seq<char>, Seq<char>)| p.1).take(reasons.len() as int)
                =~= crate::compliance::pair_views(reasons@).map_values(|p: (Seq<char>, Seq<char>)| p.1));
            (String::from_str("declared deviation"), empty(), rs, copy_strings(open_duties))
        },
        Some(Goal::Unmet { providers }) => (String::from_str("unmet"), copy_strings(providers), empty(), empty()),
        Some(Goal::Organizational) => (String::from_str("organizational — no IaC witness"), empty(), empty(), empty()),
        None => (String::from_str("not in the goal view"), empty(), empty(), empty()),
    }
}

// ---------------------------------------------------------------------------
// CSV
// ---------------------------------------------------------------------------

/// The columns, shared by the CSV and the workbook: the mechanical ones, the
/// `[AI]` ones (authored, empty here), and the sign-off ones.
pub open spec fn columns() -> Seq<Seq<char>> {
    seq![
        "Id"@, "Severity"@, "Bucket"@, "Control"@, "Control title"@, "Paraphrase"@, "Resource"@, "Project"@,
        "Declared address"@, "Declared at"@, "Sources"@, "Scanner title"@, "Scanner remediation"@, "Scanner risk"@,
        "Plan (mechanical)"@, "Providers"@, "Deviation reasons"@, "Open duties"@, "Goal"@, "[AI] What / why"@,
        "[AI] Recommended fix"@, "[AI] Owner"@, "[AI] Effort"@, "[AI] Phase"@, "[AI] Quick win"@,
        "[AI] Risk-acceptance candidate"@, "Sign-off"@, "Signed off by"@, "Signed off on"@, "Note"@
    ]
}

pub fn column_names() -> (r: Vec<&'static str>)
    ensures
        r@.map_values(|s: &str| s@) == columns(),
{
    let r = vec![
        "Id", "Severity", "Bucket", "Control", "Control title", "Paraphrase", "Resource", "Project",
        "Declared address", "Declared at", "Sources", "Scanner title", "Scanner remediation", "Scanner risk",
        "Plan (mechanical)", "Providers", "Deviation reasons", "Open duties", "Goal", "[AI] What / why",
        "[AI] Recommended fix", "[AI] Owner", "[AI] Effort", "[AI] Phase", "[AI] Quick win",
        "[AI] Risk-acceptance candidate", "Sign-off", "Signed off by", "Signed off on", "Note",
    ];
    assert(r@.map_values(|s: &str| s@) =~= columns());
    r
}

/// A source as the Sources column lists it.
pub open spec fn source_text(s: Source) -> Seq<char> {
    match s {
        Source::Prowler { check, status } => "prowler:"@ + check@ + " ("@ + status@ + ")"@,
        Source::Checkov { check_id, .. } => "checkov:"@ + check_id@,
    }
}

pub open spec fn opt_text(o: Option<String>) -> Seq<char> {
    match o {
        Some(s) => s@,
        None => seq![],
    }
}

/// The cells of an item, column by column, the authored ones empty.
pub open spec fn row_cells(it: Item) -> Seq<Seq<char>> {
    seq![
        it.id@, it.severity@, crate::compliance::bucket_letter(it.bucket), it.control@, it.control_title@, it.paraphrase@,
        it.resource@, it.project@, opt_text(it.declared_address), opt_text(it.declared_at),
        join(it.sources@.map_values(|s: Source| source_text(s)), "; "@), it.scanner_title@, it.scanner_remediation@,
        it.scanner_risk@, it.plan@, join(string_views(it.providers@), "; "@), join(string_views(it.deviation_reasons@), "; "@),
        join(string_views(it.open_duties@), "; "@), it.goal@
    ] + Seq::new(11, |i: int| Seq::<char>::empty())
}

fn opt_owned(o: &Option<String>) -> (r: String)
    ensures
        r@ == opt_text(*o),
{
    match o {
        Some(s) => s.clone(),
        None => String::new(),
    }
}

/// The cells of one item.
pub fn row_of(it: &Item) -> (r: Vec<String>)
    ensures
        string_views(r@) == row_cells(*it),
{
    let mut sources: Vec<Vec<char>> = Vec::new();
    let mut i: usize = 0;
    while i < it.sources.len()
        invariant
            i <= it.sources@.len(),
            crate::text::views(sources@) == it.sources@.map_values(|s: Source| source_text(s)).take(i as int),
        decreases it.sources.len() - i,
    {
        let mut t: Vec<char> = Vec::new();
        match &it.sources[i] {
            Source::Prowler { check, status } => {
                push_str_chars(&mut t, "prowler:");
                push_str_chars(&mut t, check.as_str());
                push_str_chars(&mut t, " (");
                push_str_chars(&mut t, status.as_str());
                push_str_chars(&mut t, ")");
            },
            Source::Checkov { check_id, .. } => {
                push_str_chars(&mut t, "checkov:");
                push_str_chars(&mut t, check_id.as_str());
            },
        }
        let ghost before = crate::text::views(sources@);
        sources.push(t);
        assert(crate::text::views(sources@) =~= before.push(source_text(it.sources@[i as int])));
        assert(it.sources@.map_values(|s: Source| source_text(s)).take(i + 1)
            =~= it.sources@.map_values(|s: Source| source_text(s)).take(i as int).push(source_text(it.sources@[i as int])));
        i = i + 1;
    }
    assert(it.sources@.map_values(|s: Source| source_text(s)).take(it.sources.len() as int)
        =~= it.sources@.map_values(|s: Source| source_text(s)));
    let src = crate::text::join_chars(&sources, &to_chars("; "));
    let mut row: Vec<String> = Vec::new();
    row.push(it.id.clone());
    row.push(it.severity.clone());
    row.push(String::from_str(it.bucket.letter()));
    row.push(it.control.clone());
    row.push(it.control_title.clone());
    row.push(it.paraphrase.clone());
    row.push(it.resource.clone());
    row.push(it.project.clone());
    row.push(opt_owned(&it.declared_address));
    row.push(opt_owned(&it.declared_at));
    row.push(from_chars(&src));
    row.push(it.scanner_title.clone());
    row.push(it.scanner_remediation.clone());
    row.push(it.scanner_risk.clone());
    row.push(it.plan.clone());
    row.push(from_chars(&crate::text::join_strings(&it.providers, "; ")));
    row.push(from_chars(&crate::text::join_strings(&it.deviation_reasons, "; ")));
    row.push(from_chars(&crate::text::join_strings(&it.open_duties, "; ")));
    row.push(it.goal.clone());
    let mut k: usize = 0;
    while k < 11
        invariant
            k <= 11,
            row@.len() == 19 + k,
            forall|j: int| 19 <= j < 19 + k ==> (#[trigger] row@[j])@ == Seq::<char>::empty(),
            string_views(row@).take(19) == row_cells(*it).take(19),
        decreases 11 - k,
    {
        let ghost before = row@;
        row.push(String::new());
        assert(string_views(row@).take(19) =~= string_views(before).take(19));
        k = k + 1;
    }
    assert forall|j: int| 0 <= j < 30 implies #[trigger] string_views(row@)[j] == row_cells(*it)[j] by {
        if j < 19 {
            assert(string_views(row@).take(19)[j] == row_cells(*it).take(19)[j]);
        } else {
            assert(row@[j]@ == Seq::<char>::empty());
        }
    }
    assert(string_views(row@) =~= row_cells(*it));
    row
}

/// A CSV cell: quoted, with each `"` doubled, when it holds a `,`, a `"` or a
/// line break; else as it is.
pub open spec fn csv_cell(s: Seq<char>) -> Seq<char> {
    if s.contains(',') || s.contains('"') || s.contains('\n') {
        "\""@ + crate::text::replace_char(s, '"', "\"\""@) + "\""@
    } else {
        s
    }
}

pub fn csv_escape(s: &str) -> (r: String)
    ensures
        r@ == csv_cell(s@),
{
    let c = to_chars(s);
    let special = crate::text::find_char(&c, ',').is_some() || crate::text::find_char(&c, '"').is_some()
        || crate::text::find_char(&c, '\n').is_some();
    proof {
        crate::text::lemma_find(c@, ',');
        crate::text::lemma_find(c@, '"');
        crate::text::lemma_find(c@, '\n');
    }
    if special {
        let mut out: Vec<char> = Vec::new();
        out.push('"');
        let r = crate::text::replace_char_exec(&c, '"', &to_chars("\"\""));
        push_chars(&mut out, &r);
        out.push('"');
        proof {
            reveal_strlit("\"");
        }
        assert(out@ =~= "\""@ + crate::text::replace_char(s@, '"', "\"\""@) + "\""@);
        from_chars(&out)
    } else {
        String::from_str(s)
    }
}

/// The CSV of a dossier: the header, then a line per item, cells escaped.
pub open spec fn csv_text(items: Seq<Item>) -> Seq<char>
    decreases items.len(),
{
    if items.len() == 0 {
        join(columns(), ","@) + "\n"@
    } else {
        csv_text(items.drop_last()) + join(row_cells(items.last()).map_values(|c: Seq<char>| csv_cell(c)), ","@) + "\n"@
    }
}

pub fn csv(d: &Dossier) -> (r: String)
    ensures
        r@ == csv_text(d.items@),
{
    let names = column_names();
    let mut header: Vec<Vec<char>> = Vec::new();
    let mut h: usize = 0;
    while h < names.len()
        invariant
            h <= names@.len(),
            names@.map_values(|s: &str| s@) == columns(),
            crate::text::views(header@) == columns().take(h as int),
        decreases names.len() - h,
    {
        let ghost before = crate::text::views(header@);
        header.push(to_chars(names[h]));
        assert(crate::text::views(header@) =~= before.push(columns()[h as int]));
        assert(columns().take(h + 1) =~= columns().take(h as int).push(columns()[h as int]));
        h = h + 1;
    }
    assert(columns().take(names.len() as int) =~= columns());
    let mut out = crate::text::join_chars(&header, &to_chars(","));
    out.push('\n');
    proof {
        reveal_strlit("\n");
    }
    assert(out@ =~= csv_text(d.items@.take(0)));
    let mut i: usize = 0;
    while i < d.items.len()
        invariant
            i <= d.items@.len(),
            out@ == csv_text(d.items@.take(i as int)),
        decreases d.items.len() - i,
    {
        proof {
            assert(d.items@.take(i + 1).drop_last() =~= d.items@.take(i as int));
            assert(d.items@.take(i + 1).last() == d.items@[i as int]);
            reveal_strlit("\n");
        }
        let cells = row_of(&d.items[i]);
        let mut esc: Vec<Vec<char>> = Vec::new();
        let mut k: usize = 0;
        while k < cells.len()
            invariant
                k <= cells@.len(),
                crate::text::views(esc@) == string_views(cells@).map_values(|c: Seq<char>| csv_cell(c)).take(k as int),
            decreases cells.len() - k,
        {
            let e = csv_escape(cells[k].as_str());
            let ghost before = crate::text::views(esc@);
            esc.push(to_chars(e.as_str()));
            assert(crate::text::views(esc@) =~= before.push(csv_cell(cells@[k as int]@)));
            assert(string_views(cells@).map_values(|c: Seq<char>| csv_cell(c)).take(k + 1)
                =~= string_views(cells@).map_values(|c: Seq<char>| csv_cell(c)).take(k as int).push(csv_cell(cells@[k as int]@)));
            k = k + 1;
        }
        assert(string_views(cells@).map_values(|c: Seq<char>| csv_cell(c)).take(cells.len() as int)
            =~= string_views(cells@).map_values(|c: Seq<char>| csv_cell(c)));
        let line = crate::text::join_chars(&esc, &to_chars(","));
        push_chars(&mut out, &line);
        out.push('\n');
        i = i + 1;
    }
    assert(d.items@.take(i as int) =~= d.items@);
    from_chars(&out)
}

// ---------------------------------------------------------------------------
// The dossier as values
// ---------------------------------------------------------------------------

/// A source as the contracts see it.
pub enum SourceV {
    Prowler { check: Seq<char>, status: Seq<char> },
    Checkov { check_id: Seq<char>, check_name: Seq<char>, guideline: Option<Seq<char>> },
}

pub open spec fn source_view(s: Source) -> SourceV {
    match s {
        Source::Prowler { check, status } => SourceV::Prowler { check: check@, status: status@ },
        Source::Checkov { check_id, check_name, guideline } => SourceV::Checkov {
            check_id: check_id@,
            check_name: check_name@,
            guideline: crate::adopt::opt_str(guideline),
        },
    }
}

pub open spec fn source_views(v: Seq<Source>) -> Seq<SourceV> {
    v.map_values(|s: Source| source_view(s))
}

/// An item as the contracts see it.
pub struct ItemV {
    pub id: Seq<char>,
    pub bucket: Bucket,
    pub bucket_title: Seq<char>,
    pub severity: Seq<char>,
    pub control: Seq<char>,
    pub control_title: Seq<char>,
    pub paraphrase: Seq<char>,
    pub resource: Seq<char>,
    pub project: Seq<char>,
    pub declared_address: Option<Seq<char>>,
    pub declared_at: Option<Seq<char>>,
    pub sources: Seq<SourceV>,
    pub scanner_title: Seq<char>,
    pub scanner_remediation: Seq<char>,
    pub scanner_risk: Seq<char>,
    pub plan: Seq<char>,
    pub providers: Seq<Seq<char>>,
    pub deviation_reasons: Seq<Seq<char>>,
    pub open_duties: Seq<Seq<char>>,
    pub goal: Seq<char>,
}

pub open spec fn item_view(it: Item) -> ItemV {
    ItemV {
        id: it.id@,
        bucket: it.bucket,
        bucket_title: it.bucket_title@,
        severity: it.severity@,
        control: it.control@,
        control_title: it.control_title@,
        paraphrase: it.paraphrase@,
        resource: it.resource@,
        project: it.project@,
        declared_address: crate::adopt::opt_str(it.declared_address),
        declared_at: crate::adopt::opt_str(it.declared_at),
        sources: source_views(it.sources@),
        scanner_title: it.scanner_title@,
        scanner_remediation: it.scanner_remediation@,
        scanner_risk: it.scanner_risk@,
        plan: it.plan@,
        providers: string_views(it.providers@),
        deviation_reasons: string_views(it.deviation_reasons@),
        open_duties: string_views(it.open_duties@),
        goal: it.goal@,
    }
}

pub open spec fn item_views(v: Seq<Item>) -> Seq<ItemV> {
    v.map_values(|it: Item| item_view(it))
}

/// The catalog's paraphrase of control `id`; empty when it has none.
pub open spec fn paraphrase_of(controls: Seq<(String, crate::compliance::Control)>, id: Seq<char>) -> Seq<char>
    decreases controls.len(),
{
    if controls.len() == 0 {
        seq![]
    } else if controls[0].0@ == id {
        controls[0].1.paraphrase@
    } else {
        paraphrase_of(controls.drop_first(), id)
    }
}

/// Prowler's title, remediation and risk for a check; empty when it has none.
pub open spec fn scanner_text(texts: Seq<(String, (String, String, String))>, check: Seq<char>) -> (Seq<char>, Seq<char>, Seq<char>)
    decreases texts.len(),
{
    if texts.len() == 0 {
        (seq![], seq![], seq![])
    } else if texts[0].0@ == check {
        let t = texts[0].1;
        (t.0@, t.1@, t.2@)
    } else {
        scanner_text(texts.drop_first(), check)
    }
}

/// The Checkov findings on an address, in the order they came.
pub open spec fn checkov_at(cs: Seq<CheckovFinding>, addr: Seq<char>) -> Seq<CheckovFinding>
    decreases cs.len(),
{
    if cs.len() == 0 {
        seq![]
    } else if cs.last().resource@ == addr {
        checkov_at(cs.drop_last(), addr).push(cs.last())
    } else {
        checkov_at(cs.drop_last(), addr)
    }
}

pub open spec fn checkov_source(c: CheckovFinding) -> SourceV {
    SourceV::Checkov { check_id: c.check_id@, check_name: c.check_name@, guideline: crate::adopt::opt_str(c.guideline) }
}

pub open spec fn checkov_sources(cs: Seq<CheckovFinding>) -> Seq<SourceV> {
    cs.map_values(|c: CheckovFinding| checkov_source(c))
}

/// The item of a triage row: the row, the goal view's word on its control,
/// Prowler's text for its check, and the Checkov findings on its declared
/// address as further sources.
pub open spec fn prowler_item(cat: &Catalog, goals: Seq<(String, Goal)>, texts: Seq<(String, (String, String, String))>,
    checkov: Seq<CheckovFinding>, declared_at: Seq<(String, String)>, r: crate::compliance::TriageV) -> ItemV {
    let d = goal_description(crate::compliance::goal_at(goals, r.1));
    let t = scanner_text(texts, r.3);
    ItemV {
        id: seq![],
        bucket: r.0,
        bucket_title: bucket_title(r.0),
        severity: normalized_severity(r.5),
        control: r.1,
        control_title: r.2,
        paraphrase: paraphrase_of(cat.controls@, r.1),
        resource: r.6,
        project: r.7,
        declared_address: r.8,
        declared_at: match r.8 {
            Some(a) => crate::adopt::kv_get(declared_at, a),
            None => None,
        },
        sources: seq![SourceV::Prowler { check: r.3, status: r.4 }] + match r.8 {
            Some(a) => checkov_sources(checkov_at(checkov, a)),
            None => seq![],
        },
        scanner_title: t.0,
        scanner_remediation: t.1,
        scanner_risk: t.2,
        plan: r.9,
        providers: d.1,
        deviation_reasons: d.2,
        open_duties: d.3,
        goal: d.0,
    }
}

/// Some triage row declares the address.
pub open spec fn is_matched(rows: Seq<crate::compliance::TriageV>, addr: Seq<char>) -> bool {
    exists|i: int| 0 <= i < rows.len() && (#[trigger] rows[i]).8 == Some(addr)
}

/// The addresses of the Checkov findings that no triage row declares.
pub open spec fn unmatched(rows: Seq<crate::compliance::TriageV>, cs: Seq<CheckovFinding>) -> Seq<Seq<char>>
    decreases cs.len(),
{
    if cs.len() == 0 {
        seq![]
    } else if is_matched(rows, cs.last().resource@) {
        unmatched(rows, cs.drop_last())
    } else {
        unmatched(rows, cs.drop_last()).push(cs.last().resource@)
    }
}

/// The texts of `items`, each once, in `String` order.
pub open spec fn sorted_set(items: Seq<Seq<char>>) -> Seq<Seq<char>> {
    choose|r: Seq<Seq<char>>| crate::order::sorted_set_of(r, items)
}

pub open spec fn checkov_plan() -> Seq<char> {
    "the estate declares this resource with a setting Checkov flags: change the declaration, then apply"@
}

pub open spec fn checkov_goal() -> Seq<char> {
    "declared by the estate (Checkov, plan-time)"@
}

/// The item of an address only Checkov flags: bucket B, the declaration is
/// what needs the fix.
pub open spec fn checkov_item(declared_at: Seq<(String, String)>, cs: Seq<CheckovFinding>, addr: Seq<char>) -> ItemV {
    let at = checkov_at(cs, addr);
    ItemV {
        id: seq![],
        bucket: Bucket::B,
        bucket_title: bucket_title(Bucket::B),
        severity: seq![],
        control: seq![],
        control_title: seq![],
        paraphrase: seq![],
        resource: addr,
        project: seq![],
        declared_address: Some(addr),
        declared_at: crate::adopt::kv_get(declared_at, addr),
        sources: checkov_sources(at),
        scanner_title: if at.len() > 0 { at[0].check_name@ } else { seq![] },
        scanner_remediation: seq![],
        scanner_risk: seq![],
        plan: checkov_plan(),
        providers: seq![],
        deviation_reasons: seq![],
        open_duties: seq![],
        goal: checkov_goal(),
    }
}

/// The items before sorting: one per triage row, then one per address only
/// Checkov flags, in address order.
pub open spec fn unsorted_items(cat: &Catalog, goals: Seq<(String, Goal)>, texts: Seq<(String, (String, String, String))>,
    checkov: Seq<CheckovFinding>, declared_at: Seq<(String, String)>, rows: Seq<crate::compliance::TriageV>) -> Seq<ItemV> {
    rows.map_values(|r: crate::compliance::TriageV| prowler_item(cat, goals, texts, checkov, declared_at, r))
        + sorted_set(unmatched(rows, checkov)).map_values(|a: Seq<char>| checkov_item(declared_at, checkov, a))
}

/// How items sort: bucket, severity rank, control, resource.
pub open spec fn item_key(it: ItemV) -> crate::order::KeyV {
    (crate::compliance::bucket_rank(it.bucket) as u8, severity_rank_of(it.severity), it.control, it.resource)
}

/// `F-` and the number, at least four digits.
pub open spec fn item_id(n: nat) -> Seq<char> {
    let d = dec(n);
    "F-"@ + Seq::new(if d.len() < 4 { (4 - d.len()) as nat } else { 0 }, |_i: int| '0') + d
}

pub open spec fn with_id(it: ItemV, id: Seq<char>) -> ItemV {
    ItemV { id: id, ..it }
}

/// Items numbered from `F-0001` in their order.
pub open spec fn numbered(s: Seq<ItemV>) -> Seq<ItemV> {
    Seq::new(s.len(), |i: int| with_id(s[i], item_id((i + 1) as nat)))
}

/// The dossier's items: sorted stably by their key, then numbered.
pub open spec fn dossier_items(cat: &Catalog, goals: Seq<(String, Goal)>, texts: Seq<(String, (String, String, String))>,
    checkov: Seq<CheckovFinding>, declared_at: Seq<(String, String)>, rows: Seq<crate::compliance::TriageV>) -> Seq<ItemV> {
    let u = unsorted_items(cat, goals, texts, checkov, declared_at, rows);
    numbered(crate::compliance::reordered(u, crate::order::stable_order(u.map_values(|it: ItemV| item_key(it)), u.len())))
}

// ---------------------------------------------------------------------------
// Building the items
// ---------------------------------------------------------------------------

fn paraphrase_lookup(controls: &[(String, crate::compliance::Control)], id: &str) -> (r: String)
    ensures
        r@ == paraphrase_of(controls@, id@),
{
    let mut i: usize = 0;
    assert(controls@.skip(0) =~= controls@);
    while i < controls.len()
        invariant
            i <= controls@.len(),
            paraphrase_of(controls@, id@) == paraphrase_of(controls@.skip(i as int), id@),
        decreases controls.len() - i,
    {
        assert(controls@.skip(i as int)[0] == controls@[i as int]);
        if str_eq(controls[i].0.as_str(), id) {
            return controls[i].1.paraphrase.clone();
        }
        assert(controls@.skip(i as int).drop_first() =~= controls@.skip(i + 1));
        i = i + 1;
    }
    String::new()
}

fn scanner_text_lookup(texts: &[(String, (String, String, String))], check: &str) -> (r: (String, String, String))
    ensures
        (r.0@, r.1@, r.2@) == scanner_text(texts@, check@),
{
    let mut i: usize = 0;
    assert(texts@.skip(0) =~= texts@);
    while i < texts.len()
        invariant
            i <= texts@.len(),
            scanner_text(texts@, check@) == scanner_text(texts@.skip(i as int), check@),
        decreases texts.len() - i,
    {
        assert(texts@.skip(i as int)[0] == texts@[i as int]);
        if str_eq(texts[i].0.as_str(), check) {
            let t = &texts[i].1;
            return (t.0.clone(), t.1.clone(), t.2.clone());
        }
        assert(texts@.skip(i as int).drop_first() =~= texts@.skip(i + 1));
        i = i + 1;
    }
    (String::new(), String::new(), String::new())
}

fn clone_opt(o: &Option<String>) -> (r: Option<String>)
    ensures
        crate::adopt::opt_str(r) == crate::adopt::opt_str(*o),
{
    match o {
        Some(s) => Some(s.clone()),
        None => None,
    }
}

fn checkov_source_of(c: &CheckovFinding) -> (s: Source)
    ensures
        source_view(s) == checkov_source(*c),
{
    Source::Checkov { check_id: c.check_id.clone(), check_name: c.check_name.clone(), guideline: clone_opt(&c.guideline) }
}

/// Append, as sources, the Checkov findings on `addr`.
fn push_checkov_sources(out: &mut Vec<Source>, cs: &[CheckovFinding], addr: &str)
    ensures
        source_views(final(out)@) == source_views(old(out)@) + checkov_sources(checkov_at(cs@, addr@)),
{
    let ghost base = source_views(out@);
    let mut i: usize = 0;
    while i < cs.len()
        invariant
            i <= cs@.len(),
            source_views(out@) == base + checkov_sources(checkov_at(cs@.take(i as int), addr@)),
        decreases cs.len() - i,
    {
        proof {
            assert(cs@.take(i + 1).drop_last() =~= cs@.take(i as int));
            assert(cs@.take(i + 1).last() == cs@[i as int]);
        }
        if str_eq(cs[i].resource.as_str(), addr) {
            let ghost before = source_views(out@);
            out.push(checkov_source_of(&cs[i]));
            assert(source_views(out@) =~= before.push(checkov_source(cs@[i as int])));
            assert(checkov_sources(checkov_at(cs@.take(i as int), addr@).push(cs@[i as int]))
                =~= checkov_sources(checkov_at(cs@.take(i as int), addr@)).push(checkov_source(cs@[i as int])));
        }
        i = i + 1;
    }
    assert(cs@.take(cs.len() as int) =~= cs@);
}

fn declared_at_of(declared_at: &Vec<(String, String)>, addr: &str) -> (r: Option<String>)
    ensures
        crate::adopt::opt_str(r) == crate::adopt::kv_get(declared_at@, addr@),
{
    match crate::adopt::get_value(declared_at, addr) {
        Some(v) => Some(v.clone()),
        None => None,
    }
}

fn prowler_item_exec(cat: &Catalog, goals: &[(String, Goal)], texts: &[(String, (String, String, String))],
    checkov: &[CheckovFinding], declared_at: &Vec<(String, String)>, r: &TriageRow) -> (it: Item)
    ensures
        item_view(it) == prowler_item(cat, goals@, texts@, checkov@, declared_at@, crate::compliance::triage_view(*r)),
{
    let goal = crate::compliance::goal_lookup(goals, r.control.as_str());
    assert(crate::compliance::goal_of_ref(goal) == crate::compliance::goal_at(goals@, r.control@));
    let (goal_text, providers, deviation_reasons, open_duties) = describe_goal(goal);
    let (title, remediation, risk) = scanner_text_lookup(texts, r.check.as_str());
    let mut sources: Vec<Source> = Vec::new();
    sources.push(Source::Prowler { check: r.check.clone(), status: r.status.clone() });
    let declared_at_v = match &r.declared {
        Some(a) => {
            push_checkov_sources(&mut sources, checkov, a.as_str());
            declared_at_of(declared_at, a.as_str())
        },
        None => None,
    };
    let it = Item {
        id: String::new(),
        bucket: r.bucket,
        bucket_title: String::from_str(r.bucket.title()),
        severity: normalize_severity(r.severity.as_str()),
        control: r.control.clone(),
        control_title: r.title.clone(),
        paraphrase: paraphrase_lookup(&cat.controls, r.control.as_str()),
        resource: r.resource.clone(),
        project: r.project.clone(),
        declared_address: clone_opt(&r.declared),
        declared_at: declared_at_v,
        sources,
        scanner_title: title,
        scanner_remediation: remediation,
        scanner_risk: risk,
        plan: r.plan.clone(),
        providers,
        deviation_reasons,
        open_duties,
        goal: goal_text,
    };
    let ghost want = prowler_item(cat, goals@, texts@, checkov@, declared_at@, crate::compliance::triage_view(*r));
    assert(item_view(it).bucket_title == want.bucket_title);
    assert(item_view(it).severity == want.severity);
    assert(item_view(it).paraphrase == want.paraphrase);
    assert(item_view(it).declared_address == want.declared_address);
    assert(item_view(it).declared_at == want.declared_at);
    assert(item_view(it).sources == want.sources);
    assert(item_view(it).scanner_title == want.scanner_title);
    assert(item_view(it).providers == want.providers);
    assert(item_view(it).goal == want.goal);
    assert(item_view(it) =~= prowler_item(cat, goals@, texts@, checkov@, declared_at@, crate::compliance::triage_view(*r)));
    it
}

fn is_matched_exec(rows: &[TriageRow], addr: &str) -> (b: bool)
    ensures
        b == is_matched(crate::compliance::triage_views(rows@), addr@),
{
    let ghost rv = crate::compliance::triage_views(rows@);
    let mut i: usize = 0;
    while i < rows.len()
        invariant
            i <= rows@.len(),
            rv == crate::compliance::triage_views(rows@),
            forall|j: int| 0 <= j < i ==> (#[trigger] rv[j]).8 != Some(addr@),
        decreases rows.len() - i,
    {
        match &rows[i].declared {
            Some(d) => {
                if str_eq(d.as_str(), addr) {
                    assert(rv[i as int].8 == Some(addr@));
                    return true;
                }
            },
            None => {},
        }
        i = i + 1;
    }
    false
}

fn unmatched_exec(rows: &[TriageRow], cs: &[CheckovFinding]) -> (r: Vec<String>)
    ensures
        string_views(r@) == unmatched(crate::compliance::triage_views(rows@), cs@),
{
    let ghost rv = crate::compliance::triage_views(rows@);
    let mut r: Vec<String> = Vec::new();
    let mut i: usize = 0;
    while i < cs.len()
        invariant
            i <= cs@.len(),
            rv == crate::compliance::triage_views(rows@),
            string_views(r@) == unmatched(rv, cs@.take(i as int)),
        decreases cs.len() - i,
    {
        proof {
            assert(cs@.take(i + 1).drop_last() =~= cs@.take(i as int));
            assert(cs@.take(i + 1).last() == cs@[i as int]);
        }
        if !is_matched_exec(rows, cs[i].resource.as_str()) {
            let ghost before = string_views(r@);
            r.push(cs[i].resource.clone());
            assert(string_views(r@) =~= before.push(cs@[i as int].resource@));
        }
        i = i + 1;
    }
    assert(cs@.take(cs.len() as int) =~= cs@);
    r
}

fn checkov_item_exec(declared_at: &Vec<(String, String)>, cs: &[CheckovFinding], addr: &String) -> (it: Item)
    ensures
        item_view(it) == checkov_item(declared_at@, cs@, addr@),
{
    let mut sources: Vec<Source> = Vec::new();
    push_checkov_sources(&mut sources, cs, addr.as_str());
    assert(source_views(sources@) =~= checkov_sources(checkov_at(cs@, addr@)));
    proof {
        if sources.len() > 0 {
            assert(source_views(sources@)[0] == checkov_sources(checkov_at(cs@, addr@))[0]);
        }
    }
    let scanner_title = if sources.len() > 0 {
        match &sources[0] {
            Source::Checkov { check_name, .. } => check_name.clone(),
            Source::Prowler { .. } => String::new(),
        }
    } else {
        String::new()
    };
    proof {
        if sources.len() > 0 {
            assert(source_views(sources@)[0] == checkov_sources(checkov_at(cs@, addr@))[0]);
            assert(source_view(sources@[0]) == checkov_source(checkov_at(cs@, addr@)[0]));
        }
    }
    let it = Item {
        id: String::new(),
        bucket: Bucket::B,
        bucket_title: String::from_str(Bucket::B.title()),
        severity: String::new(),
        control: String::new(),
        control_title: String::new(),
        paraphrase: String::new(),
        resource: addr.clone(),
        project: String::new(),
        declared_address: Some(addr.clone()),
        declared_at: declared_at_of(declared_at, addr.as_str()),
        sources,
        scanner_title,
        scanner_remediation: String::new(),
        scanner_risk: String::new(),
        plan: String::from_str(
            "the estate declares this resource with a setting Checkov flags: change the declaration, then apply",
        ),
        providers: Vec::new(),
        deviation_reasons: Vec::new(),
        open_duties: Vec::new(),
        goal: String::from_str("declared by the estate (Checkov, plan-time)"),
    };
    let ghost want = checkov_item(declared_at@, cs@, addr@);
    assert(item_view(it).bucket_title == want.bucket_title);
    assert(item_view(it).sources == want.sources);
    assert(item_view(it).scanner_title == want.scanner_title);
    assert(item_view(it).plan == want.plan);
    assert(item_view(it).goal == want.goal);
    assert(item_view(it).providers =~= want.providers);
    assert(item_view(it).deviation_reasons =~= want.deviation_reasons);
    assert(item_view(it).open_duties =~= want.open_duties);
    assert(item_view(it) =~= checkov_item(declared_at@, cs@, addr@));
    it
}

fn clone_source(s: &Source) -> (c: Source)
    ensures
        source_view(c) == source_view(*s),
{
    match s {
        Source::Prowler { check, status } => Source::Prowler { check: check.clone(), status: status.clone() },
        Source::Checkov { check_id, check_name, guideline } => Source::Checkov {
            check_id: check_id.clone(),
            check_name: check_name.clone(),
            guideline: clone_opt(guideline),
        },
    }
}

fn clone_sources(v: &Vec<Source>) -> (r: Vec<Source>)
    ensures
        source_views(r@) == source_views(v@),
{
    let mut r: Vec<Source> = Vec::new();
    let mut i: usize = 0;
    while i < v.len()
        invariant
            i <= v@.len(),
            source_views(r@) == source_views(v@).take(i as int),
        decreases v.len() - i,
    {
        let ghost before = source_views(r@);
        r.push(clone_source(&v[i]));
        assert(source_views(r@) =~= before.push(source_view(v@[i as int])));
        assert(source_views(v@).take(i + 1) =~= source_views(v@).take(i as int).push(source_view(v@[i as int])));
        i = i + 1;
    }
    assert(source_views(v@).take(v.len() as int) =~= source_views(v@));
    r
}

fn clone_item(it: &Item) -> (c: Item)
    ensures
        item_view(c) == item_view(*it),
{
    Item {
        id: it.id.clone(),
        bucket: it.bucket,
        bucket_title: it.bucket_title.clone(),
        severity: it.severity.clone(),
        control: it.control.clone(),
        control_title: it.control_title.clone(),
        paraphrase: it.paraphrase.clone(),
        resource: it.resource.clone(),
        project: it.project.clone(),
        declared_address: clone_opt(&it.declared_address),
        declared_at: clone_opt(&it.declared_at),
        sources: clone_sources(&it.sources),
        scanner_title: it.scanner_title.clone(),
        scanner_remediation: it.scanner_remediation.clone(),
        scanner_risk: it.scanner_risk.clone(),
        plan: it.plan.clone(),
        providers: copy_strings(&it.providers),
        deviation_reasons: copy_strings(&it.deviation_reasons),
        open_duties: copy_strings(&it.open_duties),
        goal: it.goal.clone(),
    }
}

fn item_key_exec(it: &Item) -> (k: crate::order::SortKey)
    ensures
        crate::order::key_view(k) == item_key(item_view(*it)),
{
    crate::order::SortKey {
        first: it.bucket.rank(),
        second: severity_rank(it.severity.as_str()),
        third: it.control.clone(),
        fourth: it.resource.clone(),
    }
}

/// The id of the `n`th item.
pub fn item_id_string(n: u64) -> (r: String)
    ensures
        r@ == item_id(n as nat),
{
    let d = crate::text::dec_chars(n);
    let mut out = to_chars("F-");
    let pad: usize = if d.len() < 4 { 4 - d.len() } else { 0 };
    let mut k: usize = 0;
    while k < pad
        invariant
            k <= pad,
            out@ == "F-"@ + Seq::new(k as nat, |_i: int| '0'),
        decreases pad - k,
    {
        out.push('0');
        assert(out@ =~= "F-"@ + Seq::new((k + 1) as nat, |_i: int| '0'));
        k = k + 1;
    }
    push_chars(&mut out, &d);
    from_chars(&out)
}

// ---------------------------------------------------------------------------
// Tallies
// ---------------------------------------------------------------------------

/// How often `k` occurs in `keys`.
pub open spec fn count_of(keys: Seq<Seq<char>>, k: Seq<char>) -> nat
    decreases keys.len(),
{
    if keys.len() == 0 {
        0
    } else {
        count_of(keys.drop_last(), k) + if keys.last() == k { 1nat } else { 0nat }
    }
}

/// `t` counts `keys`: each distinct key once, in key order, with how often it occurs.
pub open spec fn tally_of(t: Seq<(Seq<char>, usize)>, keys: Seq<Seq<char>>) -> bool {
    &&& crate::order::sorted_set_of(t.map_values(|p: (Seq<char>, usize)| p.0), keys)
    &&& forall|i: int| 0 <= i < t.len() ==> (#[trigger] t[i]).1 == count_of(keys, t[i].0)
}

pub open spec fn tally_views(v: Seq<(String, usize)>) -> Seq<(Seq<char>, usize)> {
    v.map_values(|p: (String, usize)| (p.0@, p.1))
}

pub open spec fn bucket_keys(items: Seq<ItemV>) -> Seq<Seq<char>> {
    items.map_values(|it: ItemV| crate::compliance::bucket_letter(it.bucket))
}

pub open spec fn severity_key(s: Seq<char>) -> Seq<char> {
    if s.len() == 0 { "(none)"@ } else { s }
}

pub open spec fn severity_keys(items: Seq<ItemV>) -> Seq<Seq<char>> {
    items.map_values(|it: ItemV| severity_key(it.severity))
}

/// The controls of the items that name one.
pub open spec fn control_keys(items: Seq<ItemV>) -> Seq<Seq<char>>
    decreases items.len(),
{
    if items.len() == 0 {
        seq![]
    } else if items.last().control.len() > 0 {
        control_keys(items.drop_last()).push(items.last().control)
    } else {
        control_keys(items.drop_last())
    }
}

/// The projects of the items that name one.
pub open spec fn project_keys(items: Seq<ItemV>) -> Seq<Seq<char>>
    decreases items.len(),
{
    if items.len() == 0 {
        seq![]
    } else if items.last().project.len() > 0 {
        project_keys(items.drop_last()).push(items.last().project)
    } else {
        project_keys(items.drop_last())
    }
}

/// Items both scanners flagged.
pub open spec fn corroborated_count(items: Seq<ItemV>) -> nat
    decreases items.len(),
{
    if items.len() == 0 {
        0
    } else {
        corroborated_count(items.drop_last()) + if items.last().sources.len() > 1 { 1nat } else { 0nat }
    }
}

/// A bucket-B item the estate declares and Prowler flagged: `apply` fixes it.
pub open spec fn applies_fix(it: ItemV) -> bool {
    &&& it.bucket == Bucket::B
    &&& it.declared_address is Some
    &&& it.sources.len() > 0
    &&& it.sources[0] is Prowler
}

pub open spec fn apply_fix_count(items: Seq<ItemV>) -> nat
    decreases items.len(),
{
    if items.len() == 0 {
        0
    } else {
        apply_fix_count(items.drop_last()) + if applies_fix(items.last()) { 1nat } else { 0nat }
    }
}

/// `s` is the summary of `items`.
pub open spec fn summary_of(s: Summary, items: Seq<ItemV>) -> bool {
    &&& s.items == items.len()
    &&& tally_of(tally_views(s.by_bucket@), bucket_keys(items))
    &&& tally_of(tally_views(s.by_severity@), severity_keys(items))
    &&& tally_of(tally_views(s.by_control@), control_keys(items))
    &&& tally_of(tally_views(s.by_project@), project_keys(items))
    &&& s.corroborated == corroborated_count(items)
    &&& s.declared_apply_fixes == apply_fix_count(items)
}

fn count_in(keys: &Vec<String>, k: &str) -> (n: usize)
    ensures
        n == count_of(string_views(keys@), k@),
{
    let ghost kv = string_views(keys@);
    let mut n: usize = 0;
    let mut i: usize = 0;
    while i < keys.len()
        invariant
            i <= keys@.len(),
            kv == string_views(keys@),
            n <= i,
            n == count_of(kv.take(i as int), k@),
        decreases keys.len() - i,
    {
        proof {
            assert(kv.take(i + 1).drop_last() =~= kv.take(i as int));
            assert(kv.take(i + 1).last() == keys@[i as int]@);
        }
        if str_eq(keys[i].as_str(), k) {
            n = n + 1;
        }
        i = i + 1;
    }
    assert(kv.take(keys.len() as int) =~= kv);
    n
}

/// Count `keys`: each distinct key once, in key order, with how often it occurs.
pub fn tally(keys: &Vec<String>) -> (t: Vec<(String, usize)>)
    ensures
        tally_of(tally_views(t@), string_views(keys@)),
{
    let d = crate::order::sorted_dedup(keys);
    let mut t: Vec<(String, usize)> = Vec::new();
    let mut j: usize = 0;
    while j < d.len()
        invariant
            j <= d@.len(),
            tally_views(t@).map_values(|p: (Seq<char>, usize)| p.0) == string_views(d@).take(j as int),
            forall|i: int| 0 <= i < t@.len() ==> (#[trigger] tally_views(t@)[i]).1 == count_of(string_views(keys@), tally_views(t@)[i].0),
        decreases d.len() - j,
    {
        let c = count_in(keys, d[j].as_str());
        let ghost before = tally_views(t@);
        t.push((d[j].clone(), c));
        assert(tally_views(t@) =~= before.push((d@[j as int]@, c)));
        assert(tally_views(t@).map_values(|p: (Seq<char>, usize)| p.0)
            =~= before.map_values(|p: (Seq<char>, usize)| p.0).push(d@[j as int]@));
        assert(string_views(d@).take(j + 1) =~= string_views(d@).take(j as int).push(d@[j as int]@));
        j = j + 1;
    }
    assert(string_views(d@).take(d.len() as int) =~= string_views(d@));
    t
}

fn applies_fix_exec(it: &Item) -> (b: bool)
    ensures
        b == applies_fix(item_view(*it)),
{
    let first_is_prowler = if it.sources.len() > 0 {
        match &it.sources[0] {
            Source::Prowler { .. } => true,
            Source::Checkov { .. } => false,
        }
    } else {
        false
    };
    proof {
        if it.sources.len() > 0 {
            assert(source_views(it.sources@)[0] == source_view(it.sources@[0]));
        }
    }
    matches!(it.bucket, Bucket::B) && it.declared_address.is_some() && first_is_prowler
}

/// The counts a dossier's narrative starts from.
pub fn summarize(items: &Vec<Item>) -> (s: Summary)
    ensures
        summary_of(s, item_views(items@)),
{
    let ghost iv = item_views(items@);
    let mut buckets: Vec<String> = Vec::new();
    let mut severities: Vec<String> = Vec::new();
    let mut controls: Vec<String> = Vec::new();
    let mut projects: Vec<String> = Vec::new();
    let mut corroborated: usize = 0;
    let mut fixes: usize = 0;
    let mut i: usize = 0;
    while i < items.len()
        invariant
            i <= items@.len(),
            iv == item_views(items@),
            string_views(buckets@) == bucket_keys(iv.take(i as int)),
            string_views(severities@) == severity_keys(iv.take(i as int)),
            string_views(controls@) == control_keys(iv.take(i as int)),
            string_views(projects@) == project_keys(iv.take(i as int)),
            corroborated <= i,
            corroborated == corroborated_count(iv.take(i as int)),
            fixes <= i,
            fixes == apply_fix_count(iv.take(i as int)),
        decreases items.len() - i,
    {
        let it = &items[i];
        let ghost t1 = iv.take(i + 1);
        proof {
            assert(t1.drop_last() =~= iv.take(i as int));
            assert(t1.last() == item_view(*it));
        }
        let ghost b0 = string_views(buckets@);
        buckets.push(String::from_str(it.bucket.letter()));
        assert(string_views(buckets@) =~= b0.push(crate::compliance::bucket_letter(it.bucket)));
        assert(bucket_keys(t1) =~= bucket_keys(iv.take(i as int)).push(crate::compliance::bucket_letter(it.bucket)));
        let ghost s0 = string_views(severities@);
        if it.severity.unicode_len() == 0 {
            severities.push(String::from_str("(none)"));
        } else {
            severities.push(it.severity.clone());
        }
        assert(string_views(severities@) =~= s0.push(severity_key(it.severity@)));
        assert(severity_keys(t1) =~= severity_keys(iv.take(i as int)).push(severity_key(it.severity@)));
        if it.control.unicode_len() > 0 {
            let ghost c0 = string_views(controls@);
            controls.push(it.control.clone());
            assert(string_views(controls@) =~= c0.push(it.control@));
        }
        if it.project.unicode_len() > 0 {
            let ghost p0 = string_views(projects@);
            projects.push(it.project.clone());
            assert(string_views(projects@) =~= p0.push(it.project@));
        }
        if it.sources.len() > 1 {
            corroborated = corroborated + 1;
        }
        if applies_fix_exec(it) {
            fixes = fixes + 1;
        }
        proof {
            assert(item_view(*it).sources.len() == it.sources@.len());
        }
        i = i + 1;
    }
    assert(iv.take(items.len() as int) =~= iv);
    Summary {
        items: items.len(),
        by_bucket: tally(&buckets),
        by_severity: tally(&severities),
        by_control: tally(&controls),
        by_project: tally(&projects),
        corroborated,
        declared_apply_fixes: fixes,
    }
}

// ---------------------------------------------------------------------------
// The dossier
// ---------------------------------------------------------------------------

/// What the dossier is built from.
pub struct Inputs<'a> {
    /// The catalog id as the command names it (`cis-gcp-4.0`).
    pub framework: &'a str,
    pub catalog: &'a Catalog,
    pub goals: &'a [(String, Goal)],
    pub estate: &'a str,
    pub triage_rows: &'a [TriageRow],
    /// Prowler's title, remediation and risk per check id.
    pub prowler_text: &'a [(String, (String, String, String))],
    /// Checkov findings with their Terraform address; they join Prowler rows
    /// on the declared address, the only identity both sides share.
    pub checkov: &'a [CheckovFinding],
    /// `file:line` per emitted address.
    pub declared_at: &'a Vec<(String, String)>,
}

/// The items of the dossier built from `inp`.
pub open spec fn items_of(inp: Inputs) -> Seq<ItemV> {
    dossier_items(inp.catalog, inp.goals@, inp.prowler_text@, inp.checkov@, inp.declared_at@,
        crate::compliance::triage_views(inp.triage_rows@))
}

/// The framework a dossier names: the id the command used, or else the catalog's own.
pub open spec fn framework_name(id: Seq<char>, catalog: Seq<char>) -> Seq<char> {
    if id.len() > 0 { id } else { catalog }
}

impl Dossier {
    /// Name the framework by the id the command used, when it used one.
    pub fn with_framework_id(self, id: &str) -> (d: Dossier)
        ensures
            d.framework@ == framework_name(id@, self.framework@),
            d.framework_version == self.framework_version,
            d.estate == self.estate,
            d.summary == self.summary,
            d.items == self.items,
    {
        let mut d = self;
        if id.unicode_len() > 0 {
            d.framework = String::from_str(id);
        }
        d
    }
}

/// Build the dossier: an item per triage row, joined on its declared address
/// with the Checkov findings there, and an item per address only Checkov
/// flags; sorted by bucket, severity, control and resource, ties in the order
/// they came; numbered; counted.
pub fn build(inp: &Inputs) -> (d: Dossier)
    ensures
        item_views(d.items@) == items_of(*inp),
        summary_of(d.summary, item_views(d.items@)),
        d.framework@ == framework_name(inp.framework@, inp.catalog.catalog@),
        d.framework_version@ == inp.catalog.version@,
        d.estate@ == inp.estate@,
{
    let rows = inp.triage_rows;
    let checkov = inp.checkov;
    let ghost rv = crate::compliance::triage_views(rows@);
    let ghost head = rv.map_values(|r: crate::compliance::TriageV|
        prowler_item(inp.catalog, inp.goals@, inp.prowler_text@, checkov@, inp.declared_at@, r));
    let mut items: Vec<Item> = Vec::new();
    let mut i: usize = 0;
    while i < rows.len()
        invariant
            i <= rows@.len(),
            rv == crate::compliance::triage_views(rows@),
            head == rv.map_values(|r: crate::compliance::TriageV|
                prowler_item(inp.catalog, inp.goals@, inp.prowler_text@, checkov@, inp.declared_at@, r)),
            item_views(items@) == head.take(i as int),
        decreases rows.len() - i,
    {
        let it = prowler_item_exec(inp.catalog, inp.goals, inp.prowler_text, checkov, inp.declared_at, &rows[i]);
        let ghost before = item_views(items@);
        items.push(it);
        assert(item_views(items@) =~= before.push(head[i as int]));
        assert(head.take(i + 1) =~= head.take(i as int).push(head[i as int]));
        i = i + 1;
    }
    assert(head.take(rows.len() as int) =~= head);
    let un = unmatched_exec(rows, checkov);
    let addrs = crate::order::sorted_dedup(&un);
    proof {
        let items_un = string_views(un@);
        assert(crate::order::sorted_set_of(string_views(addrs@), items_un));
        let c = sorted_set(items_un);
        assert(crate::order::sorted_set_of(c, items_un));
        crate::order::lemma_sorted_set_unique(string_views(addrs@), c);
    }
    let ghost tail = sorted_set(unmatched(rv, checkov@)).map_values(|a: Seq<char>| checkov_item(inp.declared_at@, checkov@, a));
    let mut j: usize = 0;
    while j < addrs.len()
        invariant
            j <= addrs@.len(),
            string_views(addrs@) == sorted_set(unmatched(rv, checkov@)),
            tail == sorted_set(unmatched(rv, checkov@)).map_values(|a: Seq<char>| checkov_item(inp.declared_at@, checkov@, a)),
            item_views(items@) == head + tail.take(j as int),
        decreases addrs.len() - j,
    {
        let it = checkov_item_exec(inp.declared_at, checkov, &addrs[j]);
        let ghost before = item_views(items@);
        items.push(it);
        assert(string_views(addrs@)[j as int] == addrs@[j as int]@);
        assert(item_views(items@) =~= before.push(tail[j as int]));
        assert(tail.take(j + 1) =~= tail.take(j as int).push(tail[j as int]));
        j = j + 1;
    }
    assert(tail.take(addrs.len() as int) =~= tail);
    let ghost u = item_views(items@);
    assert(u == unsorted_items(inp.catalog, inp.goals@, inp.prowler_text@, checkov@, inp.declared_at@, rv));
    let mut keys: Vec<crate::order::SortKey> = Vec::new();
    let mut k: usize = 0;
    while k < items.len()
        invariant
            k <= items@.len(),
            u == item_views(items@),
            crate::order::key_views(keys@) == u.map_values(|it: ItemV| item_key(it)).take(k as int),
        decreases items.len() - k,
    {
        let key = item_key_exec(&items[k]);
        let ghost before = crate::order::key_views(keys@);
        keys.push(key);
        assert(crate::order::key_views(keys@) =~= before.push(item_key(u[k as int])));
        assert(u.map_values(|it: ItemV| item_key(it)).take(k + 1)
            =~= u.map_values(|it: ItemV| item_key(it)).take(k as int).push(item_key(u[k as int])));
        k = k + 1;
    }
    assert(u.map_values(|it: ItemV| item_key(it)).take(items.len() as int) =~= u.map_values(|it: ItemV| item_key(it)));
    let order = crate::order::stable_sort_positions(&keys);
    let ghost ov = order@.map_values(|x: usize| x as int);
    let ghost sorted = crate::compliance::reordered(u, ov);
    proof {
        crate::order::lemma_stable_order(crate::order::key_views(keys@), keys@.len());
    }
    let mut out: Vec<Item> = Vec::new();
    let mut m: usize = 0;
    while m < order.len()
        invariant
            m <= order@.len(),
            ov == order@.map_values(|x: usize| x as int),
            crate::order::permutation_of(ov, items@.len()),
            u == item_views(items@),
            sorted == crate::compliance::reordered(u, ov),
            item_views(out@) == numbered(sorted).take(m as int),
        decreases order.len() - m,
    {
        assert(0 <= ov[m as int] < items@.len());
        let mut c = clone_item(&items[order[m]]);
        c.id = item_id_string((m + 1) as u64);
        let ghost before = item_views(out@);
        out.push(c);
        assert(numbered(sorted)[m as int] == with_id(u[ov[m as int]], item_id((m + 1) as nat)));
        assert(item_views(out@) =~= before.push(numbered(sorted)[m as int]));
        assert(numbered(sorted).take(m + 1) =~= numbered(sorted).take(m as int).push(numbered(sorted)[m as int]));
        m = m + 1;
    }
    assert(numbered(sorted).take(order.len() as int) =~= numbered(sorted));
    let summary = summarize(&out);
    let d = Dossier {
        framework: inp.catalog.catalog.clone(),
        framework_version: inp.catalog.version.clone(),
        estate: String::from_str(inp.estate),
        summary,
        items: out,
    };
    d.with_framework_id(inp.framework)
}

// ---------------------------------------------------------------------------
// The name of a run
// ---------------------------------------------------------------------------

/// The SHA-256 digest of a byte sequence.
pub uninterp spec fn sha256_of(bytes: Seq<u8>) -> Seq<u8>;

/// `sha2::Sha256::digest`: the SHA-256 digest of the bytes. Claimed of it: it
/// is a function of the bytes alone, 32 bytes long; which 32 bytes is left
/// unsaid.
#[verifier::external_body]
fn sha256(bytes: &[u8]) -> (r: Vec<u8>)
    ensures
        r@ == sha256_of(bytes@),
        r@.len() == 32,
{
    <sha2::Sha256 as sha2::Digest>::digest(bytes).to_vec()
}

pub open spec fn hex_char(d: u8) -> char {
    if d < 10 {
        (d + 48) as char
    } else {
        (d + 87) as char
    }
}

/// Lower-case hexadecimal, two digits per byte, high nibble first.
pub open spec fn hex_of(bytes: Seq<u8>) -> Seq<char>
    decreases bytes.len(),
{
    if bytes.len() == 0 {
        seq![]
    } else {
        hex_of(bytes.drop_last()) + seq![hex_char(bytes.last() / 16), hex_char(bytes.last() % 16)]
    }
}

/// `hex::encode`: each byte as two lower-case hexadecimal digits, the high
/// nibble first, as the crate's `HEX_CHARS_LOWER` table spells them.
#[verifier::external_body]
fn hex_encode(bytes: &[u8]) -> (s: String)
    ensures
        s@ == hex_of(bytes@),
{
    hex::encode(bytes)
}

/// What names a run: the SHA-256 of the dossier's canonical JSON, in hexadecimal.
pub fn hash_of_json(json: &str) -> (r: String)
    ensures
        r@ == hex_of(sha256_of(vstd::utf8::encode_utf8(json@))),
        r@.len() == 64,
{
    let d = sha256(json.as_bytes());
    let r = hex_encode(&d);
    proof {
        lemma_hex_len(d@);
    }
    r
}

proof fn lemma_hex_len(b: Seq<u8>)
    ensures
        hex_of(b).len() == 2 * b.len(),
    decreases b.len(),
{
    if b.len() > 0 {
        lemma_hex_len(b.drop_last());
    }
}

} // verus!
