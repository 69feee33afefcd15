//! What an import says about the resources it found: why something was left
//! out, the import id of a grant, the organisation an ancestor chain names, and
//! the readable labels colliding grants are written under.

use vstd::prelude::*;
use vstd::string::*;
use crate::config::{config_view, Config, ConfigV, folder_view, folders_view, lemma_folders_view, project_view, projects_view, typed_view, Folder, FolderV, Project, ProjectV};
use crate::text::{
    dec, chars_eq, find, find_char, from_chars, has_prefix, is_ascii_alnum, push_chars, push_str_chars, slice_chars,
    starts_with_str, str_eq, to_chars,
};

pub use crate::grants::{grant_entry, push_grant, push_pinned_grant, resolve_grant_collisions};
pub use crate::report::report_skipped;

verus! {

/// What `satz import` does with a grant edge that two folders, or two
/// projects, both hold: refuse, or keep the first in the map form and write
/// each further one as a labelled resource with a running number.
#[derive(Debug, Clone, Copy, PartialEq, Eq)]
pub enum OnCollision {
    Error,
    Counter,
}

impl Default for OnCollision {
    fn default() -> (r: Self)
        ensures
            r == OnCollision::Error,
    {
        OnCollision::Error
    }
}

/// Why a resource the source had is not in the written estate. An import is
/// allowed to be partial; it is not allowed to be silent about it.
#[derive(Debug, Clone, PartialEq, Eq)]
pub enum SkipReason {
    /// `import: false` in the import config.
    TypeOff,
    /// Switched off by `--only` / `--exclude` for this run.
    Filtered,
    /// No import-config row maps it (the text says what was missing).
    Unmapped(String),
    /// Its project/folder is not in the imported tree.
    ParentNotFound(String),
    /// The platform's, not the estate's: matched a `skip:` pattern.
    PlatformOwned(String),
    /// A project Cloud Asset still lists but that is no longer ACTIVE.
    NotActive(String),
}

/// How a skip reason reads in the report.
pub open spec fn skip_reason_text(r: SkipReason) -> Seq<char> {
    match r {
        SkipReason::TypeOff => "type off (import: false)"@,
        SkipReason::Filtered => "filtered by --only/--exclude"@,
        SkipReason::Unmapped(d) => "unmapped: "@ + d@,
        SkipReason::ParentNotFound(p) => "parent not imported: "@ + p@,
        SkipReason::PlatformOwned(p) => "platform-owned: matches skip pattern `"@ + p@ + "` on its import-config row"@,
        SkipReason::NotActive(s) => "project is "@ + s@ + ", not ACTIVE (Cloud Asset lists a deleted project for 30 days)"@,
    }
}

impl SkipReason {
    /// The reason as the report prints it.
    pub fn describe(&self) -> (r: String)
        ensures
            r@ == skip_reason_text(*self),
    {
        match self {
            SkipReason::TypeOff => String::from_str("type off (import: false)"),
            SkipReason::Filtered => String::from_str("filtered by --only/--exclude"),
            SkipReason::Unmapped(d) => {
                let mut r = String::from_str("unmapped: ");
                r.append(d.as_str());
                r
            },
            SkipReason::ParentNotFound(p) => {
                let mut r = String::from_str("parent not imported: ");
                r.append(p.as_str());
                r
            },
            SkipReason::PlatformOwned(p) => {
                let mut r = String::from_str("platform-owned: matches skip pattern `");
                r.append(p.as_str());
                r.append("` on its import-config row");
                r
            },
            SkipReason::NotActive(s) => {
                let mut r = String::from_str("project is ");
                r.append(s.as_str());
                r.append(", not ACTIVE (Cloud Asset lists a deleted project for 30 days)");
                r
            },
        }
    }

    pub fn is_filtered(&self) -> (b: bool)
        ensures
            b == (*self is Filtered),
    {
        match self {
            SkipReason::Filtered => true,
            _ => false,
        }
    }
}

/// One resource the source had and the estate does not.
#[derive(Debug, Clone, PartialEq, Eq)]
pub struct Skipped {
    /// The Terraform type where a row gave the asset one, else the Cloud Asset type.
    pub tf_type: String,
    /// The resource by the name the source gives it.
    pub what: String,
    pub reason: SkipReason,
}

/// Why a value the source carried is not in the imported estate.
#[derive(Debug, Clone, PartialEq, Eq, PartialOrd, Ord)]
pub enum DropReason {
    /// API vocabulary with no Terraform counterpart: written into HCL it
    /// would not plan.
    Vocabulary,
    /// The provider schema names the attribute and the asset data carried a
    /// value, and satz did not place it (the text says what stopped it).
    NotCarried(String),
}

/// One attribute of one resource that the source had and the estate does not.
#[derive(Debug, Clone, PartialEq, Eq, PartialOrd, Ord)]
pub struct DroppedAttr {
    pub tf_type: String,
    pub what: String,
    /// Where it sat, dotted.
    pub path: String,
    pub why: DropReason,
}

/// What an import found: the estate, and everything it says about what it
/// left out or rewrote.
pub struct Discovered {
    pub config: Config,
    pub skipped: Vec<Skipped>,
    /// Attributes the source carried and the estate does not, one row each.
    pub dropped_attrs: Vec<DroppedAttr>,
    /// The organization the assets' ancestors name.
    pub organization: Option<String>,
    /// What the import rewrote on the way and says so: one line each.
    pub notes: Vec<String>,
}

// ---------------------------------------------------------------------------
// Names and ids
// ---------------------------------------------------------------------------

/// `//logging.googleapis.com/projects/p/sinks/x` → `projects/p/sinks/x`: the
/// full resource name minus `//` and its service segment, when what is left
/// is not empty.
pub open spec fn resource_name_of(full: Seq<char>) -> Option<Seq<char>> {
    if !has_prefix(full, "//"@) {
        None
    } else {
        let path = full.skip(2);
        match find(path, '/') {
            Some(i) => {
                if i + 1 < path.len() {
                    Some(path.skip(i + 1))
                } else {
                    None
                }
            },
            None => None,
        }
    }
}

/// A Cloud Asset full resource name minus its service: the resource name the
/// provider imports by. `None` for anything that is not one.
pub fn asset_resource_name(full_name: &str) -> (r: Option<&str>)
    ensures
        match r {
            Some(p) => resource_name_of(full_name@) == Some(p@),
            None => resource_name_of(full_name@) == None::<Seq<char>>,
        },
{
    proof {
        reveal_strlit("//");
    }
    let f = to_chars(full_name);
    if !starts_with_str(&f, "//") {
        return None;
    }
    let path = slice_chars(&f, 2, f.len());
    assert(path@ =~= full_name@.skip(2));
    proof {
        crate::text::lemma_find(path@, '/');
    }
    match find_char(&path, '/') {
        Some(i) => {
            if i + 1 < path.len() {
                let n = full_name.unicode_len();
                let p = full_name.substring_char(2 + i + 1, n);
                assert(p@ =~= path@.skip(i + 1));
                Some(p)
            } else {
                None
            }
        },
        None => None,
    }
}

/// `str::trim_start_matches` with a text pattern: every leading repetition of
/// `p` removed.
pub open spec fn strip_all_prefix(s: Seq<char>, p: Seq<char>) -> Seq<char>
    decreases s.len(),
{
    if p.len() > 0 && has_prefix(s, p) {
        strip_all_prefix(s.skip(p.len() as int), p)
    } else {
        s
    }
}

pub fn trim_start_matches(s: &[char], p: &str) -> (r: Vec<char>)
    ensures
        r@ == strip_all_prefix(s@, p@),
{
    let pc = to_chars(p);
    let mut i: usize = 0;
    if pc.len() == 0 {
        let r = slice_chars(s, 0, s.len());
        assert(r@ =~= s@);
        return r;
    }
    assert(s@.skip(0) =~= s@);
    while pc.len() <= s.len() - i && crate::text::matches_at(s, &pc, i)
        invariant
            i <= s.len(),
            pc@ == p@,
            pc@.len() > 0,
            strip_all_prefix(s@, p@) == strip_all_prefix(s@.skip(i as int), p@),
        decreases s.len() - i,
    {
        proof {
            let t = s@.skip(i as int);
            assert(t.take(pc@.len() as int) =~= s@.subrange(i as int, i + pc@.len()));
            assert(t.skip(pc@.len() as int) =~= s@.skip(i + pc@.len()));
        }
        i = i + pc.len();
    }
    proof {
        let t = s@.skip(i as int);
        if has_prefix(t, p@) {
            assert(t.take(pc@.len() as int) =~= s@.subrange(i as int, i + pc@.len()));
        }
    }
    let r = slice_chars(s, i, s.len());
    assert(r@ =~= s@.skip(i as int));
    r
}

/// The import id of a grant: `<parent> <role> <member>`, with `b/<bucket>`
/// for a bucket grant and the bare number for the organisation.
pub open spec fn grant_import_id_of(tf_type: Seq<char>, parent: Seq<char>, role: Seq<char>, member: Seq<char>) -> Seq<char> {
    let p = if tf_type == "google_storage_bucket_iam_member"@ {
        "b/"@ + strip_all_prefix(parent, "b/"@)
    } else if tf_type == "google_organization_iam_member"@ {
        strip_all_prefix(parent, "organizations/"@)
    } else {
        parent
    };
    p + " "@ + role + " "@ + member
}

/// The import id of a grant, from its parent's identity — the same
/// derivation as the `import_id` templates adopt renders.
pub fn grant_import_id(tf_type: &str, parent: &str, role: &str, member: &str) -> (r: String)
    ensures
        r@ == grant_import_id_of(tf_type@, parent@, role@, member@),
{
    let t = to_chars(tf_type);
    let pc = to_chars(parent);
    let bucket = to_chars("google_storage_bucket_iam_member");
    let org = to_chars("google_organization_iam_member");
    let mut out: Vec<char> = Vec::new();
    if chars_eq(&t, &bucket) {
        push_str_chars(&mut out, "b/");
        let rest = trim_start_matches(&pc, "b/");
        push_chars(&mut out, &rest);
    } else if chars_eq(&t, &org) {
        let rest = trim_start_matches(&pc, "organizations/");
        push_chars(&mut out, &rest);
    } else {
        push_chars(&mut out, &pc);
    }
    push_str_chars(&mut out, " ");
    push_str_chars(&mut out, role);
    push_str_chars(&mut out, " ");
    push_str_chars(&mut out, member);
    from_chars(&out)
}

/// The organisation the first `organizations/<n>` ancestor names.
pub open spec fn organization_of(ancestors: Seq<Seq<char>>) -> Option<Seq<char>>
    decreases ancestors.len(),
{
    if ancestors.len() == 0 {
        None
    } else if has_prefix(ancestors[0], "organizations/"@) {
        Some(ancestors[0].skip(14))
    } else {
        organization_of(ancestors.drop_first())
    }
}

pub open spec fn string_views(v: Seq<String>) -> Seq<Seq<char>> {
    v.map_values(|s: String| s@)
}

proof fn lemma_organization_of_skip(a: Seq<Seq<char>>, i: int)
    requires
        0 <= i <= a.len(),
        forall|j: int| 0 <= j < i ==> !has_prefix(#[trigger] a[j], "organizations/"@),
    ensures
        organization_of(a) == organization_of(a.skip(i)),
    decreases i,
{
    if i > 0 {
        assert(a.drop_first().skip(i - 1) =~= a.skip(i));
        assert forall|j: int| 0 <= j < i - 1 implies !has_prefix(#[trigger] a.drop_first()[j], "organizations/"@) by {
            assert(a.drop_first()[j] == a[j + 1]);
        }
        lemma_organization_of_skip(a.drop_first(), i - 1);
    } else {
        assert(a.skip(0) =~= a);
    }
}

/// The organization an asset's ancestor chain ends in.
pub fn organization_from_ancestors(ancestors: &[String]) -> (r: Option<String>)
    ensures
        match r {
            Some(o) => organization_of(string_views(ancestors@)) == Some(o@),
            None => organization_of(string_views(ancestors@)) == None::<Seq<char>>,
        },
{
    proof {
        reveal_strlit("organizations/");
    }
    let ghost a = string_views(ancestors@);
    let mut i: usize = 0;
    while i < ancestors.len()
        invariant
            i <= ancestors.len(),
            a == string_views(ancestors@),
            forall|j: int| 0 <= j < i ==> !has_prefix(#[trigger] a[j], "organizations/"@),
        decreases ancestors.len() - i,
    {
        proof {
            reveal_strlit("organizations/");
        }
        let c = to_chars(ancestors[i].as_str());
        assert(c@ == a[i as int]);
        if starts_with_str(&c, "organizations/") {
            let rest = slice_chars(&c, 14, c.len());
            proof {
                lemma_organization_of_skip(a, i as int);
                assert(a.skip(i as int)[0] == a[i as int]);
                assert(rest@ =~= a[i as int].skip(14));
            }
            return Some(from_chars(&rest));
        }
        i = i + 1;
    }
    proof {
        lemma_organization_of_skip(a, i as int);
        assert(a.skip(i as int).len() == 0);
    }
    None
}

// ---------------------------------------------------------------------------
// Labels of counted grants
// ---------------------------------------------------------------------------

/// Every character that is not an ASCII letter, digit or `_` becomes `_`.
pub open spec fn identifier_of(s: Seq<char>) -> Seq<char> {
    Seq::new(s.len(), |i: int| if is_ascii_alnum(s[i]) || s[i] == '_' { s[i] } else { '_' })
}

pub fn identifier_from(s: &[char]) -> (r: Vec<char>)
    ensures
        r@ == identifier_of(s@),
{
    let mut r: Vec<char> = Vec::new();
    let mut i: usize = 0;
    while i < s.len()
        invariant
            i <= s.len(),
            r@ == identifier_of(s@.take(i as int)),
        decreases s.len() - i,
    {
        let c = s[i];
        let keep = ('0' <= c && c <= '9') || ('a' <= c && c <= 'z') || ('A' <= c && c <= 'Z') || c == '_';
        r.push(if keep { c } else { '_' });
        assert(identifier_of(s@.take(i + 1)) =~= identifier_of(s@.take(i as int)).push(if keep { c } else { '_' }));
        i = i + 1;
    }
    assert(s@.take(s.len() as int) =~= s@);
    r
}

/// A separator of the segments of a role name.
pub open spec fn role_sep(c: char) -> bool {
    c == '/' || c == '.'
}

/// The last position of a role separator.
pub open spec fn rfind_sep(s: Seq<char>) -> Option<int>
    decreases s.len(),
{
    if s.len() == 0 {
        None
    } else if role_sep(s.last()) {
        Some(s.len() - 1)
    } else {
        rfind_sep(s.drop_last())
    }
}

/// What follows the last `/` or `.` of a role (`rsplit(['/', '.']).next()`).
pub open spec fn role_tail(role: Seq<char>) -> Seq<char> {
    match rfind_sep(role) {
        Some(i) => role.skip(i + 1),
        None => role,
    }
}

/// The local part of a member: after its `kind:` prefix, before its `@`.
pub open spec fn member_local(member: Seq<char>) -> Seq<char> {
    let after = match find(member, ':') {
        Some(i) => member.skip(i + 1),
        None => member,
    };
    match find(after, '@') {
        Some(j) => after.take(j),
        None => after,
    }
}

/// The readable label a counted grant is written under, before its number.
pub open spec fn grant_label_of(role: Seq<char>, member: Seq<char>) -> Seq<char> {
    identifier_of(role_tail(role)) + "_"@ + identifier_of(member_local(member))
}

fn role_tail_exec(role: &[char]) -> (r: Vec<char>)
    ensures
        r@ == role_tail(role@),
{
    let mut k: usize = role.len();
    assert(role@.take(role.len() as int) =~= role@);
    while k > 0 && !(role[k - 1] == '/' || role[k - 1] == '.')
        invariant
            k <= role.len(),
            rfind_sep(role@) == rfind_sep(role@.take(k as int)),
        decreases k,
    {
        proof {
            let t = role@.take(k as int);
            assert(t.drop_last() =~= role@.take(k - 1));
        }
        k = k - 1;
    }
    if k == 0 {
        proof {
            assert(role@.take(0).len() == 0);
        }
        let r = slice_chars(role, 0, role.len());
        assert(r@ =~= role@);
        r
    } else {
        proof {
            let t = role@.take(k as int);
            assert(t.last() == role@[k - 1]);
        }
        let r = slice_chars(role, k, role.len());
        assert(r@ =~= role@.skip(k as int));
        r
    }
}

fn member_local_exec(member: &[char]) -> (r: Vec<char>)
    ensures
        r@ == member_local(member@),
{
    proof {
        crate::text::lemma_find(member@, ':');
    }
    let after = match find_char(member, ':') {
        Some(i) => {
            assert(find(member@, ':') == Some(i as int));
            assert(i < member.len());
            slice_chars(member, i + 1, member.len())
        },
        None => slice_chars(member, 0, member.len()),
    };
    proof {
        crate::text::lemma_find(member@, ':');
        assert(member@.subrange(0, member@.len() as int) =~= member@);
        match find(member@, ':') {
            Some(i) => {
                assert(member@.subrange(i + 1, member@.len() as int) =~= member@.skip(i + 1));
            },
            None => {},
        }
    }
    proof {
        crate::text::lemma_find(after@, '@');
    }
    match find_char(&after, '@') {
        Some(j) => {
            let r = slice_chars(&after, 0, j);
            assert(r@ =~= after@.take(j as int));
            r
        },
        None => after,
    }
}

/// The readable label a counted grant is written under, before its number:
/// the role's last segment and the member's local part
/// (`folderAdmin_alice` for `roles/resourcemanager.folderAdmin` and
/// `user:alice@example.com`).
pub fn grant_label_base(role: &str, member: &str) -> (r: String)
    ensures
        r@ == grant_label_of(role@, member@),
{
    let rc = to_chars(role);
    let mc = to_chars(member);
    let tail = role_tail_exec(&rc);
    let local = member_local_exec(&mc);
    let a = identifier_from(&tail);
    let b = identifier_from(&local);
    let mut out = a;
    out.push('_');
    push_chars(&mut out, &b);
    proof {
        reveal_strlit("_");
    }
    assert(out@ =~= grant_label_of(role@, member@));
    from_chars(&out)
}

// ---------------------------------------------------------------------------
// Parents a filter left out
// ---------------------------------------------------------------------------

/// The Terraform type of a parent a skipped resource names: `project <id>` and
/// `projects/<id>` are projects, `folders/<n>` a folder; an organisation has none.
pub open spec fn parent_type(parent: Seq<char>) -> Option<Seq<char>> {
    if has_prefix(parent, "project "@) || has_prefix(parent, "projects/"@) {
        Some("google_project"@)
    } else if has_prefix(parent, "folders/"@) {
        Some("google_folder"@)
    } else {
        None
    }
}

pub fn parent_type_of(parent: &str) -> (r: Option<String>)
    ensures
        match r {
            Some(t) => parent_type(parent@) == Some(t@),
            None => parent_type(parent@) == None::<Seq<char>>,
        },
{
    let p = to_chars(parent);
    if starts_with_str(&p, "project ") || starts_with_str(&p, "projects/") {
        Some(String::from_str("google_project"))
    } else if starts_with_str(&p, "folders/") {
        Some(String::from_str("google_folder"))
    } else {
        None
    }
}

pub open spec fn skipped_views(v: Seq<Skipped>) -> Seq<(Seq<char>, SkipReason)> {
    v.map_values(|s: Skipped| (s.tf_type@, s.reason))
}

/// A type the run filtered out: named by `--only`/`--exclude`, or the type of
/// some resource skipped as filtered.
pub open spec fn type_filtered(skipped: Seq<Skipped>, filtered_off: Seq<Seq<char>>, t: Seq<char>) -> bool {
    filtered_off.contains(t) || exists|i: int| 0 <= i < skipped.len() && (#[trigger] skipped[i]).reason is Filtered && skipped[i].tf_type@ == t
}

/// The parent type a skipped resource is missing, when that type was filtered out.
pub open spec fn left_out_parent(skipped: Seq<Skipped>, filtered_off: Seq<Seq<char>>, s: Skipped) -> Option<Seq<char>> {
    match s.reason {
        SkipReason::ParentNotFound(p) => match parent_type(p@) {
            Some(t) => if type_filtered(skipped, filtered_off, t) {
                Some(t)
            } else {
                None
            },
            None => None,
        },
        _ => None,
    }
}

/// How many of `upto` are children of type `child` dropped for a filtered
/// parent of type `parent`.
pub open spec fn left_out_count(skipped: Seq<Skipped>, filtered_off: Seq<Seq<char>>, upto: Seq<Skipped>, child: Seq<char>, parent: Seq<char>) -> nat
    decreases upto.len(),
{
    if upto.len() == 0 {
        0
    } else {
        let s = upto.last();
        let here: nat = if s.tf_type@ == child && left_out_parent(skipped, filtered_off, s) == Some(parent) {
            1
        } else {
            0
        };
        left_out_count(skipped, filtered_off, upto.drop_last(), child, parent) + here
    }
}

/// `(child type, parent type, count)` rows: resources dropped because their
/// parent is not in the estate and the parent's type was filtered out.
pub struct LeftOut {
    pub rows: Vec<(String, String, usize)>,
}

pub open spec fn row_key(r: (String, String, usize)) -> (Seq<char>, Seq<char>) {
    (r.0@, r.1@)
}

impl LeftOut {
    /// Each pair of types once, and each count the spec's.
    pub open spec fn counts(&self, skipped: Seq<Skipped>, filtered_off: Seq<Seq<char>>, upto: Seq<Skipped>) -> bool {
        &&& forall|i: int, j: int| 0 <= i < j < self.rows@.len() ==> row_key(self.rows@[i]) != row_key(self.rows@[j])
        &&& forall|i: int| 0 <= i < self.rows@.len() ==> (#[trigger] self.rows@[i]).2 as nat == left_out_count(skipped, filtered_off, upto, self.rows@[i].0@, self.rows@[i].1@)
            && self.rows@[i].2 > 0
        &&& forall|c: Seq<char>, p: Seq<char>| #[trigger] left_out_count(skipped, filtered_off, upto, c, p) > 0
            ==> exists|i: int| 0 <= i < self.rows@.len() && row_key(self.rows@[i]) == (c, p)
    }

    /// The count for a pair of types, when it has one.
    pub fn get(&self, child: &str, parent: &str) -> (r: Option<usize>)
        ensures
            match r {
                Some(n) => exists|i: int| 0 <= i < self.rows@.len() && row_key(self.rows@[i]) == (child@, parent@) && self.rows@[i].2 == n,
                None => forall|i: int| 0 <= i < self.rows@.len() ==> row_key(#[trigger] self.rows@[i]) != (child@, parent@),
            },
    {
        let mut i: usize = 0;
        while i < self.rows.len()
            invariant
                i <= self.rows@.len(),
                forall|j: int| 0 <= j < i ==> row_key(#[trigger] self.rows@[j]) != (child@, parent@),
            decreases self.rows.len() - i,
        {
            let (a, b, n) = (&self.rows[i].0, &self.rows[i].1, self.rows[i].2);
            if crate::text::str_eq(a.as_str(), child) && crate::text::str_eq(b.as_str(), parent) {
                return Some(n);
            }
            i = i + 1;
        }
        None
    }
}

fn find_row(rows: &Vec<(String, String, usize)>, a: &str, b: &str) -> (r: Option<usize>)
    ensures
        match r {
            Some(k) => k < rows@.len() && row_key(rows@[k as int]) == (a@, b@),
            None => forall|j: int| 0 <= j < rows@.len() ==> row_key(#[trigger] rows@[j]) != (a@, b@),
        },
{
    let mut k: usize = 0;
    while k < rows.len()
        invariant
            k <= rows@.len(),
            forall|j: int| 0 <= j < k ==> row_key(#[trigger] rows@[j]) != (a@, b@),
        decreases rows.len() - k,
    {
        if crate::text::str_eq(rows[k].0.as_str(), a) && crate::text::str_eq(rows[k].1.as_str(), b) {
            return Some(k);
        }
        k = k + 1;
    }
    None
}

fn type_is_filtered(skipped: &[Skipped], filtered_off: &[String], t: &str) -> (b: bool)
    ensures
        b == type_filtered(skipped@, string_views(filtered_off@), t@),
{
    let mut i: usize = 0;
    while i < filtered_off.len()
        invariant
            i <= filtered_off.len(),
            forall|j: int| 0 <= j < i ==> string_views(filtered_off@)[j] != t@,
        decreases filtered_off.len() - i,
    {
        if crate::text::str_eq(filtered_off[i].as_str(), t) {
            assert(string_views(filtered_off@)[i as int] == t@);
            return true;
        }
        i = i + 1;
    }
    assert(!string_views(filtered_off@).contains(t@));
    let mut k: usize = 0;
    while k < skipped.len()
        invariant
            k <= skipped.len(),
            !string_views(filtered_off@).contains(t@),
            forall|j: int| 0 <= j < k ==> !((#[trigger] skipped@[j]).reason is Filtered && skipped@[j].tf_type@ == t@),
        decreases skipped.len() - k,
    {
        if skipped[k].reason.is_filtered() && crate::text::str_eq(skipped[k].tf_type.as_str(), t) {
            return true;
        }
        k = k + 1;
    }
    false
}

/// Resources dropped because their parent is not in the estate, where the
/// parent's type is one `--only`/`--exclude` filtered out: `(child type,
/// parent type) → count`.
pub fn parents_left_out(skipped: &[Skipped], filtered_off: &[String]) -> (out: LeftOut)
    ensures
        out.counts(skipped@, string_views(filtered_off@), skipped@),
{
    let ghost sk = skipped@;
    let ghost fo = string_views(filtered_off@);
    let mut out = LeftOut { rows: Vec::new() };
    let mut i: usize = 0;
    while i < skipped.len()
        invariant
            i <= skipped.len(),
            sk == skipped@,
            fo == string_views(filtered_off@),
            out.counts(sk, fo, sk.take(i as int)),
        decreases skipped.len() - i,
    {
        let s = &skipped[i];
        let ghost prev = sk.take(i as int);
        proof {
            assert(sk.take(i + 1).drop_last() =~= prev);
            assert(sk.take(i + 1).last() == s);
        }
        let parent = match &s.reason {
            SkipReason::ParentNotFound(p) => {
                match parent_type_of(p.as_str()) {
                    Some(t) => {
                        if type_is_filtered(skipped, filtered_off, t.as_str()) {
                            Some(t)
                        } else {
                            None
                        }
                    },
                    None => None,
                }
            },
            _ => None,
        };
        match parent {
            None => {
                proof {
                    assert(left_out_parent(sk, fo, *s) == None::<Seq<char>>);
                    assert forall|c: Seq<char>, p: Seq<char>|
                        left_out_count(sk, fo, sk.take(i + 1), c, p) == left_out_count(sk, fo, prev, c, p) by {}
                    lemma_counts_same(&out, sk, fo, prev, sk.take(i + 1));
                }
            },
            Some(t) => {
                let ghost key = (s.tf_type@, t@);
                assert(left_out_parent(sk, fo, *s) == Some(t@));
                let found = find_row(&out.rows, s.tf_type.as_str(), t.as_str());
                let ghost rows0 = out.rows@;
                match found {
                    Some(k) => {
                        assert(row_key(rows0[k as int]) == key);
                        let n = out.rows[k].2;
                        proof {
                            assert(n as nat == left_out_count(sk, fo, prev, key.0, key.1));
                            assert(left_out_count(sk, fo, sk.take(i + 1), key.0, key.1) == n + 1);
                            lemma_left_out_count_bound(sk, fo, prev, key.0, key.1);
                        }
                        let entry = (out.rows[k].0.clone(), out.rows[k].1.clone(), n + 1);
                        out.rows.set(k, entry);
                        proof {
                            assert forall|c: Seq<char>, p: Seq<char>|
                                (c, p) != key implies left_out_count(sk, fo, sk.take(i + 1), c, p) == left_out_count(sk, fo, prev, c, p) by {}
                            assert forall|j: int| 0 <= j < out.rows@.len() implies
                                (#[trigger] out.rows@[j]).2 as nat == left_out_count(sk, fo, sk.take(i + 1), out.rows@[j].0@, out.rows@[j].1@)
                                && out.rows@[j].2 > 0 by {
                                if j != k {
                                    assert(out.rows@[j] == rows0[j]);
                                    assert(row_key(rows0[j]) != key);
                                }
                            }
                            assert forall|c: Seq<char>, p: Seq<char>| #[trigger] left_out_count(sk, fo, sk.take(i + 1), c, p) > 0
                                implies exists|j: int| 0 <= j < out.rows@.len() && row_key(out.rows@[j]) == (c, p) by {
                                if (c, p) == key {
                                    assert(row_key(out.rows@[k as int]) == (c, p));
                                } else {
                                    assert(left_out_count(sk, fo, prev, c, p) > 0);
                                    let j = choose|j: int| 0 <= j < rows0.len() && row_key(rows0[j]) == (c, p);
                                    assert(row_key(out.rows@[j]) == (c, p));
                                }
                            }
                        }
                    },
                    None => {
                        proof {
                            if left_out_count(sk, fo, prev, key.0, key.1) > 0 {
                                let j = choose|j: int| 0 <= j < rows0.len() && row_key(rows0[j]) == key;
                                assert(row_key(rows0[j]) != key);
                            }
                        }
                        out.rows.push((s.tf_type.clone(), t, 1));
                        proof {
                            assert forall|c: Seq<char>, p: Seq<char>|
                                (c, p) != key implies left_out_count(sk, fo, sk.take(i + 1), c, p) == left_out_count(sk, fo, prev, c, p) by {}
                            assert forall|j: int| 0 <= j < out.rows@.len() implies
                                (#[trigger] out.rows@[j]).2 as nat == left_out_count(sk, fo, sk.take(i + 1), out.rows@[j].0@, out.rows@[j].1@)
                                && out.rows@[j].2 > 0 by {
                                if j < rows0.len() {
                                    assert(out.rows@[j] == rows0[j]);
                                }
                            }
                            assert forall|c: Seq<char>, p: Seq<char>| #[trigger] left_out_count(sk, fo, sk.take(i + 1), c, p) > 0
                                implies exists|j: int| 0 <= j < out.rows@.len() && row_key(out.rows@[j]) == (c, p) by {
                                if (c, p) == key {
                                    assert(row_key(out.rows@[rows0.len() as int]) == (c, p));
                                } else {
                                    assert(left_out_count(sk, fo, prev, c, p) > 0);
                                    let j = choose|j: int| 0 <= j < rows0.len() && row_key(rows0[j]) == (c, p);
                                    assert(row_key(out.rows@[j]) == (c, p));
                                }
                            }
                        }
                    },
                }
            },
        }
        i = i + 1;
    }
    assert(sk.take(skipped.len() as int) =~= sk);
    out
}

proof fn lemma_counts_same(out: &LeftOut, sk: Seq<Skipped>, fo: Seq<Seq<char>>, a: Seq<Skipped>, b: Seq<Skipped>)
    requires
        out.counts(sk, fo, a),
        forall|c: Seq<char>, p: Seq<char>| left_out_count(sk, fo, b, c, p) == left_out_count(sk, fo, a, c, p),
    ensures
        out.counts(sk, fo, b),
{
    assert forall|i: int| 0 <= i < out.rows@.len() implies (#[trigger] out.rows@[i]).2 as nat == left_out_count(sk, fo, b, out.rows@[i].0@, out.rows@[i].1@)
        && out.rows@[i].2 > 0 by {
        assert(left_out_count(sk, fo, b, out.rows@[i].0@, out.rows@[i].1@) == left_out_count(sk, fo, a, out.rows@[i].0@, out.rows@[i].1@));
    }
    assert forall|c: Seq<char>, p: Seq<char>| #[trigger] left_out_count(sk, fo, b, c, p) > 0
        implies exists|i: int| 0 <= i < out.rows@.len() && row_key(out.rows@[i]) == (c, p) by {
        assert(left_out_count(sk, fo, a, c, p) > 0);
    }
}

proof fn lemma_left_out_count_bound(skipped: Seq<Skipped>, fo: Seq<Seq<char>>, upto: Seq<Skipped>, c: Seq<char>, p: Seq<char>)
    ensures
        left_out_count(skipped, fo, upto, c, p) <= upto.len(),
    decreases upto.len(),
{
    if upto.len() > 0 {
        lemma_left_out_count_bound(skipped, fo, upto.drop_last(), c, p);
    }
}

// ---------------------------------------------------------------------------
// Maps by key
// ---------------------------------------------------------------------------

/// The position of key `k`: its first entry.
pub open spec fn key_at<K, V>(m: Seq<(K, V)>, k: K) -> Option<int>
    decreases m.len(),
{
    if m.len() == 0 {
        None
    } else {
        match key_at(m.drop_last(), k) {
            Some(i) => Some(i),
            None => if m.last().0 == k { Some(m.len() - 1) } else { None },
        }
    }
}

pub proof fn lemma_key_at<K, V>(m: Seq<(K, V)>, k: K)
    ensures
        match key_at(m, k) {
            Some(i) => 0 <= i < m.len() && m[i].0 == k && forall|j: int| 0 <= j < i ==> (#[trigger] m[j]).0 != k,
            None => forall|j: int| 0 <= j < m.len() ==> (#[trigger] m[j]).0 != k,
        },
    decreases m.len(),
{
    if m.len() > 0 {
        lemma_key_at(m.drop_last(), k);
        assert forall|j: int| 0 <= j < m.len() - 1 implies #[trigger] m[j] == m.drop_last()[j] by {}
    }
}

pub proof fn lemma_key_at_is<K, V>(m: Seq<(K, V)>, k: K, i: int)
    requires
        0 <= i < m.len(),
        m[i].0 == k,
        forall|j: int| 0 <= j < i ==> (#[trigger] m[j]).0 != k,
    ensures
        key_at(m, k) == Some(i),
{
    lemma_key_at(m, k);
    match key_at(m, k) {
        Some(x) => {
            if x < i {
            } else if x > i {
                assert(m[i].0 != k);
            }
        },
        None => {
            assert(m[i].0 != k);
        },
    }
}

pub proof fn lemma_key_at_none<K, V>(m: Seq<(K, V)>, k: K)
    requires
        forall|j: int| 0 <= j < m.len() ==> (#[trigger] m[j]).0 != k,
    ensures
        key_at(m, k) is None,
{
    lemma_key_at(m, k);
}

/// Replacing a value keeps every key where it was.
pub proof fn lemma_key_at_update<K, V>(m: Seq<(K, V)>, i: int, v: V, k: K)
    requires
        0 <= i < m.len(),
    ensures
        key_at(m.update(i, (m[i].0, v)), k) == key_at(m, k),
{
    let m2 = m.update(i, (m[i].0, v));
    lemma_key_at(m, k);
    match key_at(m, k) {
        Some(x) => {
            assert forall|j: int| 0 <= j < x implies (#[trigger] m2[j]).0 != k by {
                assert(m2[j].0 == m[j].0);
            }
            lemma_key_at_is(m2, k, x);
        },
        None => {
            assert forall|j: int| 0 <= j < m2.len() implies (#[trigger] m2[j]).0 != k by {
                assert(m2[j].0 == m[j].0);
            }
            lemma_key_at_none(m2, k);
        },
    }
}

/// A key pushed last is found there unless it was already present.
pub proof fn lemma_key_at_push<K, V>(m: Seq<(K, V)>, e: (K, V), k: K)
    ensures
        key_at(m.push(e), k) == match key_at(m, k) {
            Some(x) => Some(x),
            None => if e.0 == k { Some(m.len() as int) } else { None },
        },
{
    assert(m.push(e).drop_last() =~= m);
}

/// Insertion into a map: a present key takes the new value, a new one goes last.
pub open spec fn key_insert<K, V>(m: Seq<(K, V)>, k: K, v: V) -> Seq<(K, V)> {
    match key_at(m, k) {
        Some(i) => m.update(i, (k, v)),
        None => m.push((k, v)),
    }
}

/// The entry under `k` removed.
pub open spec fn key_remove<K, V>(m: Seq<(K, V)>, k: K) -> Seq<(K, V)> {
    match key_at(m, k) {
        Some(i) => m.remove(i),
        None => m,
    }
}

/// The position of key `k` in a map held by string keys.
pub fn position_of<V>(m: &Vec<(String, V)>, k: &str) -> (r: Option<usize>)
    ensures
        match r {
            Some(i) => i < m@.len() && m@[i as int].0@ == k@ && forall|j: int| 0 <= j < i ==> (#[trigger] m@[j]).0@ != k@,
            None => forall|j: int| 0 <= j < m@.len() ==> (#[trigger] m@[j]).0@ != k@,
        },
{
    let mut i: usize = 0;
    while i < m.len()
        invariant
            i <= m@.len(),
            forall|j: int| 0 <= j < i ==> (#[trigger] m@[j]).0@ != k@,
        decreases m.len() - i,
    {
        if str_eq(m[i].0.as_str(), k) {
            return Some(i);
        }
        i = i + 1;
    }
    None
}

/// Put a folder under `k`: a present key takes it, a new one goes last.
pub fn insert_folder(m: &mut Vec<(String, Folder)>, k: String, f: Folder)
    ensures
        folders_view(final(m)@) == key_insert(folders_view(old(m)@), k@, folder_view(f)),
{
    let ghost mv = folders_view(m@);
    let ghost fv = folder_view(f);
    let ghost kv = k@;
    proof {
        lemma_folders_view(m@);
    }
    match position_of(m, k.as_str()) {
        Some(i) => {
            proof {
                lemma_key_at_is(mv, kv, i as int);
            }
            m.set(i, (k, f));
            proof {
                lemma_folders_view(m@);
            }
            assert(folders_view(m@) =~= mv.update(i as int, (kv, fv)));
        },
        None => {
            proof {
                lemma_key_at_none(mv, kv);
            }
            m.push((k, f));
            proof {
                lemma_folders_view(m@);
            }
            assert(folders_view(m@) =~= mv.push((kv, fv)));
        },
    }
}

/// Take the folder under `k` out, when there is one.
pub fn take_folder(m: &mut Vec<(String, Folder)>, k: &str) -> (r: Option<Folder>)
    ensures
        folders_view(final(m)@) == key_remove(folders_view(old(m)@), k@),
        match r {
            Some(f) => match key_at(folders_view(old(m)@), k@) {
                Some(i) => folders_view(old(m)@)[i].1 == folder_view(f),
                None => false,
            },
            None => key_at(folders_view(old(m)@), k@) is None,
        },
{
    let ghost mv = folders_view(m@);
    proof {
        lemma_folders_view(m@);
    }
    match position_of(m, k) {
        Some(i) => {
            proof {
                lemma_key_at_is(mv, k@, i as int);
            }
            let (_, f) = m.remove(i);
            proof {
                lemma_folders_view(m@);
            }
            assert(folders_view(m@) =~= mv.remove(i as int));
            Some(f)
        },
        None => {
            proof {
                lemma_key_at_none(mv, k@);
            }
            None
        },
    }
}

// ---------------------------------------------------------------------------
// Folders labelled by display name
// ---------------------------------------------------------------------------

/// The lower-case form of a text, as `str::to_lowercase` gives it.
pub uninterp spec fn lowercase_of(s: Seq<char>) -> Seq<char>;

/// `str::to_lowercase`: the text in lower case by Unicode's rules. Claimed of
/// it: its result is a function of the text; which text is left unsaid.
#[verifier::external_body]
fn to_lowercase(s: &str) -> (r: String)
    ensures
        r@ == lowercase_of(s@),
{
    s.to_lowercase()
}

/// Runs of `_` made one.
pub open spec fn collapse_underscores(s: Seq<char>) -> Seq<char>
    decreases s.len(),
{
    if s.len() == 0 {
        s
    } else {
        let c = collapse_underscores(s.drop_last());
        if s.last() == '_' && c.len() > 0 && c.last() == '_' { c } else { c.push(s.last()) }
    }
}

pub open spec fn strip_leading_underscores(s: Seq<char>) -> Seq<char>
    decreases s.len(),
{
    if s.len() > 0 && s[0] == '_' { strip_leading_underscores(s.drop_first()) } else { s }
}

pub open spec fn strip_trailing_underscores(s: Seq<char>) -> Seq<char>
    decreases s.len(),
{
    if s.len() > 0 && s.last() == '_' { strip_trailing_underscores(s.drop_last()) } else { s }
}

/// A folder's label from its display name: lower case, every character that
/// is not an ASCII letter or digit `_`, no `__`, no `_` at either end, and
/// `folder_` before one that would be empty or start with a digit.
pub open spec fn folder_identifier(display_name: Seq<char>) -> Seq<char> {
    let lower = lowercase_of(display_name);
    let mapped = Seq::new(lower.len(), |i: int| if is_ascii_alnum(lower[i]) { lower[i] } else { '_' });
    let out = strip_trailing_underscores(strip_leading_underscores(collapse_underscores(mapped)));
    if out.len() == 0 || crate::text::is_ascii_digit(out[0]) { "folder_"@ + out } else { out }
}

fn collapse_exec(s: &Vec<char>) -> (r: Vec<char>)
    ensures
        r@ == collapse_underscores(s@),
{
    let mut r: Vec<char> = Vec::new();
    let mut i: usize = 0;
    while i < s.len()
        invariant
            i <= s@.len(),
            r@ == collapse_underscores(s@.take(i as int)),
        decreases s.len() - i,
    {
        proof {
            assert(s@.take(i + 1).drop_last() =~= s@.take(i as int));
            assert(s@.take(i + 1).last() == s@[i as int]);
        }
        let c = s[i];
        if !(c == '_' && r.len() > 0 && r[r.len() - 1] == '_') {
            r.push(c);
        }
        i = i + 1;
    }
    assert(s@.take(s.len() as int) =~= s@);
    r
}

fn strip_underscores_exec(s: &Vec<char>) -> (r: Vec<char>)
    ensures
        r@ == strip_trailing_underscores(strip_leading_underscores(s@)),
{
    let mut a: usize = 0;
    assert(s@.skip(0) =~= s@);
    while a < s.len() && s[a] == '_'
        invariant
            a <= s@.len(),
            strip_leading_underscores(s@) == strip_leading_underscores(s@.skip(a as int)),
        decreases s.len() - a,
    {
        assert(s@.skip(a as int).drop_first() =~= s@.skip(a + 1));
        a = a + 1;
    }
    let ghost lead = s@.skip(a as int);
    assert(strip_leading_underscores(s@) == lead);
    let mut b: usize = s.len();
    assert(s@.subrange(a as int, b as int) =~= lead);
    while b > a && s[b - 1] == '_'
        invariant
            a <= b <= s@.len(),
            strip_trailing_underscores(lead) == strip_trailing_underscores(s@.subrange(a as int, b as int)),
        decreases b,
    {
        assert(s@.subrange(a as int, b as int).drop_last() =~= s@.subrange(a as int, b - 1));
        b = b - 1;
    }
    let r = crate::text::slice_chars(s, a, b);
    r
}

/// A folder's label from its display name.
pub fn folder_identifier_exec(display_name: &str) -> (r: String)
    ensures
        r@ == folder_identifier(display_name@),
{
    let lower = to_chars(to_lowercase(display_name).as_str());
    let mut mapped: Vec<char> = Vec::new();
    let mut i: usize = 0;
    while i < lower.len()
        invariant
            i <= lower@.len(),
            mapped@ == Seq::new(i as nat, |j: int| if is_ascii_alnum(lower@[j]) { lower@[j] } else { '_' }),
        decreases lower.len() - i,
    {
        let c = lower[i];
        let keep = ('0' <= c && c <= '9') || ('a' <= c && c <= 'z') || ('A' <= c && c <= 'Z');
        mapped.push(if keep { c } else { '_' });
        assert(mapped@ =~= Seq::new((i + 1) as nat, |j: int| if is_ascii_alnum(lower@[j]) { lower@[j] } else { '_' }));
        i = i + 1;
    }
    let out = strip_underscores_exec(&collapse_exec(&mapped));
    if out.len() == 0 || ('0' <= out[0] && out[0] <= '9') {
        let mut r = to_chars("folder_");
        push_chars(&mut r, &out);
        from_chars(&r)
    } else {
        from_chars(&out)
    }
}

/// How many folders take label `l`.
pub open spec fn label_count(fm: Seq<(Seq<char>, FolderV)>, l: Seq<char>) -> nat
    decreases fm.len(),
{
    if fm.len() == 0 {
        0
    } else {
        label_count(fm.drop_last(), l) + if folder_identifier(fm.last().1.display_name) == l { 1nat } else { 0nat }
    }
}

/// How folders sort for labelling: by label, then by key.
pub open spec fn label_key(e: (Seq<char>, FolderV)) -> crate::order::KeyV {
    (0u8, 0u8, folder_identifier(e.1.display_name), e.0)
}

/// The name a folder takes: its label, numbered by its key when another
/// folder takes the same label.
pub open spec fn new_name(fm: Seq<(Seq<char>, FolderV)>, e: (Seq<char>, FolderV)) -> Seq<char> {
    let l = folder_identifier(e.1.display_name);
    if label_count(fm, l) == 1 { l } else { l + "_"@ + strip_all_prefix(e.0, "folder-"@) }
}

/// The renames, by label and then by key.
pub open spec fn renames_of(fm: Seq<(Seq<char>, FolderV)>) -> Seq<(Seq<char>, Seq<char>)> {
    crate::order::stable_order(fm.map_values(|e: (Seq<char>, FolderV)| label_key(e)), fm.len()).map_values(
        |p: int| (fm[p].0, new_name(fm, fm[p])))
}

/// The folders and the id-to-name map after the renames, one after another.
pub open spec fn apply_renames(fm: Seq<(Seq<char>, FolderV)>, names: Seq<(Seq<char>, Seq<char>)>, rs: Seq<(Seq<char>, Seq<char>)>)
    -> (Seq<(Seq<char>, FolderV)>, Seq<(Seq<char>, Seq<char>)>)
    decreases rs.len(),
{
    if rs.len() == 0 {
        (fm, names)
    } else {
        let (fm0, n0) = apply_renames(fm, names, rs.drop_last());
        let (old, new) = rs.last();
        if old == new {
            (fm0, n0)
        } else {
            let fm1 = match key_at(fm0, old) {
                Some(i) => key_insert(fm0.remove(i), new, fm0[i].1),
                None => fm0,
            };
            (fm1, n0.map_values(|p: (Seq<char>, Seq<char>)| (p.0, if p.1 == old { new } else { p.1 })))
        }
    }
}

pub open spec fn names_view(v: Seq<(String, String)>) -> Seq<(Seq<char>, Seq<char>)> {
    v.map_values(|p: (String, String)| (p.0@, p.1@))
}

fn rename_values(names: &mut Vec<(String, String)>, from: &String, to: &String)
    ensures
        names_view(final(names)@) == names_view(old(names)@).map_values(
            |p: (Seq<char>, Seq<char>)| (p.0, if p.1 == from@ { to@ } else { p.1 })),
{
    let ghost n0 = names_view(names@);
    let mut i: usize = 0;
    while i < names.len()
        invariant
            i <= names@.len(),
            names@.len() == n0.len(),
            forall|j: int| 0 <= j < i ==> (#[trigger] names@[j]).0@ == n0[j].0 && names@[j].1@ == (if n0[j].1 == from@ { to@ } else { n0[j].1 }),
            forall|j: int| i <= j < names@.len() ==> (#[trigger] names@[j]).0@ == n0[j].0 && names@[j].1@ == n0[j].1,
        decreases names.len() - i,
    {
        if str_eq(names[i].1.as_str(), from.as_str()) {
            let k = names[i].0.clone();
            names.set(i, (k, to.clone()));
        }
        i = i + 1;
    }
    assert(names_view(names@) =~= n0.map_values(|p: (Seq<char>, Seq<char>)| (p.0, if p.1 == from@ { to@ } else { p.1 })));
}

/// Label the folders by their display names: each takes its label, numbered
/// by its key when another folder takes the same label, and every id that
/// named a folder by its old key names it by the new one.
pub fn label_folders_by_display_name(folder_map: &mut Vec<(String, Folder)>, gcp_id_to_yaml_name: &mut Vec<(String, String)>)
    ensures
        (folders_view(final(folder_map)@), names_view(final(gcp_id_to_yaml_name)@)) == apply_renames(
            folders_view(old(folder_map)@), names_view(old(gcp_id_to_yaml_name)@), renames_of(folders_view(old(folder_map)@))),
{
    let ghost fm0 = folders_view(folder_map@);
    proof {
        lemma_folders_view(folder_map@);
    }
    let mut labels: Vec<String> = Vec::new();
    let mut keys: Vec<crate::order::SortKey> = Vec::new();
    let mut i: usize = 0;
    while i < folder_map.len()
        invariant
            i <= folder_map@.len(),
            fm0 == folders_view(folder_map@),
            fm0.len() == folder_map@.len(),
            forall|j: int| 0 <= j < folder_map@.len() ==> #[trigger] fm0[j] == (folder_map@[j].0@, folder_view(folder_map@[j].1)),
            labels@.len() == i,
            forall|j: int| 0 <= j < i ==> (#[trigger] labels@[j])@ == folder_identifier(fm0[j].1.display_name),
            crate::order::key_views(keys@) == fm0.map_values(|e: (Seq<char>, FolderV)| label_key(e)).take(i as int),
        decreases folder_map.len() - i,
    {
        let l = folder_identifier_exec(folder_map[i].1.display_name.as_str());
        let key = crate::order::SortKey { first: 0, second: 0, third: l.clone(), fourth: folder_map[i].0.clone() };
        let ghost before = crate::order::key_views(keys@);
        keys.push(key);
        labels.push(l);
        assert(crate::order::key_views(keys@) =~= before.push(label_key(fm0[i as int])));
        assert(fm0.map_values(|e: (Seq<char>, FolderV)| label_key(e)).take(i + 1)
            =~= fm0.map_values(|e: (Seq<char>, FolderV)| label_key(e)).take(i as int).push(label_key(fm0[i as int])));
        i = i + 1;
    }
    assert(fm0.map_values(|e: (Seq<char>, FolderV)| label_key(e)).take(folder_map.len() as int)
        =~= fm0.map_values(|e: (Seq<char>, FolderV)| label_key(e)));
    let order = crate::order::stable_sort_positions(&keys);
    let ghost ov = order@.map_values(|x: usize| x as int);
    proof {
        crate::order::lemma_stable_order(crate::order::key_views(keys@), keys@.len());
    }
    let ghost rs = renames_of(fm0);
    let mut renames: Vec<(String, String)> = Vec::new();
    let mut j: usize = 0;
    while j < order.len()
        invariant
            j <= order@.len(),
            ov == order@.map_values(|x: usize| x as int),
            crate::order::permutation_of(ov, folder_map@.len()),
            ov == crate::order::stable_order(fm0.map_values(|e: (Seq<char>, FolderV)| label_key(e)), fm0.len()),
            fm0 == folders_view(folder_map@),
            fm0.len() == folder_map@.len(),
            forall|q: int| 0 <= q < folder_map@.len() ==> #[trigger] fm0[q] == (folder_map@[q].0@, folder_view(folder_map@[q].1)),
            labels@.len() == folder_map@.len(),
            forall|q: int| 0 <= q < labels@.len() ==> (#[trigger] labels@[q])@ == folder_identifier(fm0[q].1.display_name),
            rs == renames_of(fm0),
            names_view(renames@) == rs.take(j as int),
        decreases order.len() - j,
    {
        let p = order[j];
        assert(0 <= ov[j as int] < folder_map@.len());
        let l = &labels[p];
        let mut count: usize = 0;
        let mut k: usize = 0;
        while k < labels.len()
            invariant
                k <= labels@.len(),
                labels@.len() == fm0.len(),
                forall|q: int| 0 <= q < labels@.len() ==> (#[trigger] labels@[q])@ == folder_identifier(fm0[q].1.display_name),
                count <= k,
                count == label_count(fm0.take(k as int), l@),
            decreases labels.len() - k,
        {
            proof {
                assert(fm0.take(k + 1).drop_last() =~= fm0.take(k as int));
                assert(fm0.take(k + 1).last() == fm0[k as int]);
            }
            if str_eq(labels[k].as_str(), l.as_str()) {
                count = count + 1;
            }
            k = k + 1;
        }
        assert(fm0.take(labels.len() as int) =~= fm0);
        let new = if count == 1 {
            l.clone()
        } else {
            let mut t = to_chars(l.as_str());
            t.push('_');
            let rest = trim_start_matches(&to_chars(folder_map[p].0.as_str()), "folder-");
            push_chars(&mut t, &rest);
            proof {
                reveal_strlit("_");
            }
            assert(t@ =~= l@ + "_"@ + strip_all_prefix(folder_map@[p as int].0@, "folder-"@));
            from_chars(&t)
        };
        let ghost before = names_view(renames@);
        renames.push((folder_map[p].0.clone(), new));
        assert(rs[j as int] == (fm0[p as int].0, new_name(fm0, fm0[p as int])));
        assert(names_view(renames@) =~= before.push(rs[j as int]));
        assert(rs.take(j + 1) =~= rs.take(j as int).push(rs[j as int]));
        j = j + 1;
    }
    assert(rs.take(order.len() as int) =~= rs);
    assert(rs.len() == renames@.len());
    let ghost n0 = names_view(gcp_id_to_yaml_name@);
    let mut r: usize = 0;
    while r < renames.len()
        invariant
            r <= renames@.len(),
            rs == names_view(renames@),
            (folders_view(folder_map@), names_view(gcp_id_to_yaml_name@)) == apply_renames(fm0, n0, rs.take(r as int)),
        decreases renames.len() - r,
    {
        proof {
            assert(rs.take(r + 1).drop_last() =~= rs.take(r as int));
            assert(rs.take(r + 1).last() == rs[r as int]);
        }
        let from = &renames[r].0;
        let to = &renames[r].1;
        if !str_eq(from.as_str(), to.as_str()) {
            let ghost fmr = folders_view(folder_map@);
            proof {
                lemma_key_at(fmr, from@);
            }
            match take_folder(folder_map, from.as_str()) {
                Some(f) => {
                    insert_folder(folder_map, to.clone(), f);
                },
                None => {},
            }
            rename_values(gcp_id_to_yaml_name, from, to);
        }
        r = r + 1;
    }
    assert(rs.take(renames.len() as int) =~= rs);
}

// ---------------------------------------------------------------------------
// Folders nested under their parents
// ---------------------------------------------------------------------------

/// A folder with its `parent` replaced.
pub open spec fn with_parent(f: FolderV, parent: Option<Seq<char>>) -> FolderV {
    FolderV { parent: parent, ..f }
}

/// A folder with `child` nested under key `k`.
pub open spec fn nest_folder(f: FolderV, k: Seq<char>, child: FolderV) -> FolderV {
    FolderV {
        folder: Some(key_insert(match f.folder {
            Some(m) => m,
            None => seq![],
        }, k, child)),
        ..f
    }
}

/// The value under key `k` of a map of texts.
pub open spec fn text_at(m: Seq<(Seq<char>, Seq<char>)>, k: Seq<char>) -> Option<Seq<char>> {
    match key_at(m, k) {
        Some(i) => Some(m[i].1),
        None => None,
    }
}

/// How many parents up a folder's chain goes, at most `fuel`.
pub open spec fn chain_depth(parents: Seq<(Seq<char>, Seq<char>)>, id: Seq<char>, fuel: nat) -> nat
    decreases fuel,
{
    if fuel == 0 {
        0
    } else {
        match text_at(parents, id) {
            Some(p) => 1 + chain_depth(parents, p, (fuel - 1) as nat),
            None => 0,
        }
    }
}

/// How folders are nested: deepest first, then by id.
pub open spec fn nesting_key(parents: Seq<(Seq<char>, Seq<char>)>, e: (Seq<char>, Seq<char>)) -> crate::order::KeyV {
    ((65 - chain_depth(parents, e.0, 65)) as u8, 0u8, e.0, seq![])
}

pub open spec fn nesting_order(parents: Seq<(Seq<char>, Seq<char>)>) -> Seq<int> {
    crate::order::stable_order(parents.map_values(|e: (Seq<char>, Seq<char>)| nesting_key(parents, e)), parents.len())
}

/// Where nesting stands: the folders, the ones kept with an explicit parent,
/// the ones skipped for want of a record, and the error that stopped it.
pub struct NestV {
    pub folders: Seq<(Seq<char>, FolderV)>,
    pub kept: Seq<Seq<char>>,
    pub skipped: Seq<Seq<char>>,
    pub err: Option<Seq<char>>,
}

pub open spec fn arrow(a: Seq<char>, b: Seq<char>) -> Seq<char> {
    a + " → "@ + b
}

/// One folder nested: under its parent when the sweep has it, with an
/// explicit parent when it does not, with none under the organisation.
pub open spec fn nest_step(st: NestV, names: Seq<(Seq<char>, Seq<char>)>, child_id: Seq<char>, parent_id: Seq<char>) -> NestV {
    match text_at(names, child_id) {
        None => NestV { skipped: st.skipped.push(child_id), ..st },
        Some(child_yaml) => {
            let fm = st.folders;
            if !has_prefix(parent_id, "folders/"@) {
                NestV {
                    folders: match key_at(fm, child_yaml) {
                        Some(i) => fm.update(i, (fm[i].0, with_parent(fm[i].1, None))),
                        None => fm,
                    },
                    ..st
                }
            } else {
                match text_at(names, parent_id) {
                    Some(parent_yaml) => match key_at(fm, child_yaml) {
                        None => NestV {
                            err: Some("import: folder "@ + child_id + " ("@ + child_yaml + ") has a parent but no record to move"@),
                            ..st
                        },
                        Some(i) => {
                            let child = with_parent(fm[i].1, None);
                            let fm1 = fm.remove(i);
                            match key_at(fm1, parent_yaml) {
                                None => NestV {
                                    folders: fm1,
                                    err: Some("import: folder "@ + parent_id + " ("@ + parent_yaml + ") is the parent of "@ + child_id
                                        + " but is not at the top level any more — nesting order is broken"@),
                                    ..st
                                },
                                Some(j) => NestV {
                                    folders: fm1.update(j, (fm1[j].0, nest_folder(fm1[j].1, child_yaml, child))),
                                    ..st
                                },
                            }
                        },
                    },
                    None => match key_at(fm, child_yaml) {
                        None => NestV {
                            err: Some("import: folder "@ + child_id + " ("@ + child_yaml + ") has a parent but no record to annotate"@),
                            ..st
                        },
                        Some(i) => NestV {
                            folders: fm.update(i, (fm[i].0, with_parent(fm[i].1, Some(parent_id)))),
                            kept: st.kept.push(arrow(child_id, parent_id)),
                            ..st
                        },
                    },
                }
            }
        },
    }
}

/// The first `n` folders of the nesting order nested, stopping at an error.
pub open spec fn nest_upto(parents: Seq<(Seq<char>, Seq<char>)>, names: Seq<(Seq<char>, Seq<char>)>, fm: Seq<(Seq<char>, FolderV)>, n: nat) -> NestV
    decreases n,
{
    if n == 0 {
        NestV { folders: fm, kept: seq![], skipped: seq![], err: None }
    } else {
        let st = nest_upto(parents, names, fm, (n - 1) as nat);
        if st.err is Some || n > parents.len() {
            st
        } else {
            let e = parents[nesting_order(parents)[n - 1]];
            nest_step(st, names, e.0, e.1)
        }
    }
}

proof fn lemma_nest_stops(parents: Seq<(Seq<char>, Seq<char>)>, names: Seq<(Seq<char>, Seq<char>)>, fm: Seq<(Seq<char>, FolderV)>, n: nat, m: nat)
    requires
        n <= m,
        nest_upto(parents, names, fm, n).err is Some,
    ensures
        nest_upto(parents, names, fm, m) == nest_upto(parents, names, fm, n),
    decreases m,
{
    if m > n {
        lemma_nest_stops(parents, names, fm, n, (m - 1) as nat);
    }
}

fn text_lookup<'a>(m: &'a Vec<(String, String)>, k: &str) -> (r: Option<&'a String>)
    ensures
        match r {
            Some(v) => text_at(names_view(m@), k@) == Some(v@),
            None => text_at(names_view(m@), k@) is None,
        },
{
    let ghost mv = names_view(m@);
    match position_of(m, k) {
        Some(i) => {
            proof {
                lemma_key_at_is(mv, k@, i as int);
            }
            Some(&m[i].1)
        },
        None => {
            proof {
                lemma_key_at_none(mv, k@);
            }
            None
        },
    }
}

fn chain_depth_exec(parents: &Vec<(String, String)>, id: &str) -> (d: u8)
    ensures
        d as nat == chain_depth(names_view(parents@), id@, 65),
        d <= 65,
{
    let ghost pv = names_view(parents@);
    let mut d: u8 = 0;
    let mut cur: &str = id;
    while d < 65
        invariant
            d <= 65,
            pv == names_view(parents@),
            chain_depth(pv, id@, 65) == d + chain_depth(pv, cur@, (65 - d) as nat),
        decreases 65 - d,
    {
        match text_lookup(parents, cur) {
            Some(p) => {
                d = d + 1;
                cur = p.as_str();
            },
            None => {
                return d;
            },
        }
    }
    d
}

fn clear_parent(fm: &mut Vec<(String, Folder)>, i: usize, parent: Option<String>)
    requires
        i < old(fm)@.len(),
    ensures
        folders_view(final(fm)@) == folders_view(old(fm)@).update(i as int,
            (folders_view(old(fm)@)[i as int].0, with_parent(folders_view(old(fm)@)[i as int].1, crate::config::ostr(parent)))),
{
    proof {
        lemma_folders_view(fm@);
    }
    let ghost before = folders_view(fm@);
    let (k, mut f) = fm.remove(i);
    f.parent = parent;
    fm.insert(i, (k, f));
    proof {
        lemma_folders_view(fm@);
    }
    assert(folders_view(fm@) =~= before.update(i as int, (before[i as int].0, with_parent(before[i as int].1, crate::config::ostr(parent)))));
}

fn nest_into(fm: &mut Vec<(String, Folder)>, j: usize, k: String, child: Folder)
    requires
        j < old(fm)@.len(),
    ensures
        folders_view(final(fm)@) == folders_view(old(fm)@).update(j as int,
            (folders_view(old(fm)@)[j as int].0, nest_folder(folders_view(old(fm)@)[j as int].1, k@, folder_view(child)))),
{
    proof {
        lemma_folders_view(fm@);
    }
    let ghost before = folders_view(fm@);
    let (pk, mut pf) = fm.remove(j);
    let mut subs = match pf.folder {
        Some(v) => v,
        None => Vec::new(),
    };
    proof {
        lemma_folders_view(subs@);
    }
    insert_folder(&mut subs, k, child);
    pf.folder = Some(subs);
    fm.insert(j, (pk, pf));
    proof {
        lemma_folders_view(fm@);
    }
    assert(folders_view(fm@) =~= before.update(j as int, (before[j as int].0, nest_folder(before[j as int].1, k@, folder_view(child)))));
}

pub open spec fn nest_view(fm: Seq<(Seq<char>, FolderV)>, skipped: Seq<Seq<char>>, r: Result<Vec<String>, String>) -> NestV {
    NestV {
        folders: fm,
        kept: match r {
            Ok(k) => crate::order::string_views(k@),
            Err(_) => seq![],
        },
        skipped: skipped,
        err: match r {
            Ok(_) => None,
            Err(e) => Some(e@),
        },
    }
}

fn concat3(a: &str, b: &str, c: &str) -> (r: Vec<char>)
    ensures
        r@ == a@ + b@ + c@,
{
    let mut t = to_chars(a);
    push_str_chars(&mut t, b);
    push_str_chars(&mut t, c);
    t
}

/// Nest each folder under its parent, deepest first; a folder whose parent is
/// outside the sweep keeps it explicitly, one under the organisation carries
/// none. Gives the folders skipped for want of a record and, on success, the
/// ones kept with an explicit parent.
pub fn link_folders_to_parents(folder_id_to_parent: &Vec<(String, String)>, gcp_id_to_yaml_name: &Vec<(String, String)>,
    folder_map: &mut Vec<(String, Folder)>) -> (r: (Vec<String>, Result<Vec<String>, String>))
    ensures
        ({
            let want = nest_upto(names_view(folder_id_to_parent@), names_view(gcp_id_to_yaml_name@), folders_view(old(folder_map)@),
                folder_id_to_parent@.len() as nat);
            &&& folders_view(final(folder_map)@) == want.folders
            &&& crate::order::string_views(r.0@) == want.skipped
            &&& match r.1 {
                Ok(k) => want.err is None && crate::order::string_views(k@) == want.kept,
                Err(e) => want.err == Some(e@),
            }
        }),
{
    let ghost pv = names_view(folder_id_to_parent@);
    let ghost nv = names_view(gcp_id_to_yaml_name@);
    let ghost fm0 = folders_view(folder_map@);
    let mut keys: Vec<crate::order::SortKey> = Vec::new();
    let mut i: usize = 0;
    while i < folder_id_to_parent.len()
        invariant
            i <= folder_id_to_parent@.len(),
            pv == names_view(folder_id_to_parent@),
            crate::order::key_views(keys@) == pv.map_values(|e: (Seq<char>, Seq<char>)| nesting_key(pv, e)).take(i as int),
        decreases folder_id_to_parent.len() - i,
    {
        let d = chain_depth_exec(folder_id_to_parent, folder_id_to_parent[i].0.as_str());
        let key = crate::order::SortKey { first: 65 - d, second: 0, third: folder_id_to_parent[i].0.clone(), fourth: String::new() };
        let ghost before = crate::order::key_views(keys@);
        keys.push(key);
        assert(pv[i as int] == (folder_id_to_parent@[i as int].0@, folder_id_to_parent@[i as int].1@));
        assert(crate::order::key_views(keys@) =~= before.push(nesting_key(pv, pv[i as int])));
        assert(pv.map_values(|e: (Seq<char>, Seq<char>)| nesting_key(pv, e)).take(i + 1)
            =~= pv.map_values(|e: (Seq<char>, Seq<char>)| nesting_key(pv, e)).take(i as int).push(nesting_key(pv, pv[i as int])));
        i = i + 1;
    }
    assert(pv.map_values(|e: (Seq<char>, Seq<char>)| nesting_key(pv, e)).take(folder_id_to_parent.len() as int)
        =~= pv.map_values(|e: (Seq<char>, Seq<char>)| nesting_key(pv, e)));
    let order = crate::order::stable_sort_positions(&keys);
    let ghost ov = order@.map_values(|x: usize| x as int);
    proof {
        crate::order::lemma_stable_order(crate::order::key_views(keys@), keys@.len());
    }
    let mut skipped: Vec<String> = Vec::new();
    let mut kept: Vec<String> = Vec::new();
    let mut n: usize = 0;
    assert(crate::order::string_views(kept@) =~= Seq::<Seq<char>>::empty());
    assert(crate::order::string_views(skipped@) =~= Seq::<Seq<char>>::empty());
    while n < order.len()
        invariant
            n <= order@.len(),
            ov == order@.map_values(|x: usize| x as int),
            ov == nesting_order(pv),
            crate::order::permutation_of(ov, folder_id_to_parent@.len()),
            pv == names_view(folder_id_to_parent@),
            nv == names_view(gcp_id_to_yaml_name@),
            fm0 == folders_view(old(folder_map)@),
            nest_upto(pv, nv, fm0, n as nat) == (NestV {
                folders: folders_view(folder_map@),
                kept: crate::order::string_views(kept@),
                skipped: crate::order::string_views(skipped@),
                err: None,
            }),
        decreases order.len() - n,
    {
        let p = order[n];
        assert(0 <= ov[n as int] < folder_id_to_parent@.len());
        let child_id = &folder_id_to_parent[p].0;
        let parent_id = &folder_id_to_parent[p].1;
        assert(pv[p as int] == (child_id@, parent_id@));
        let ghost st = nest_upto(pv, nv, fm0, n as nat);
        let ghost fmv = folders_view(folder_map@);
        proof {
            lemma_folders_view(folder_map@);
        }
        match text_lookup(gcp_id_to_yaml_name, child_id.as_str()) {
            None => {
                let ghost before = crate::order::string_views(skipped@);
                skipped.push(child_id.clone());
                assert(crate::order::string_views(skipped@) =~= before.push(child_id@));
            },
            Some(child_yaml) => {
                if !starts_with_str(&to_chars(parent_id.as_str()), "folders/") {
                    match position_of(folder_map, child_yaml.as_str()) {
                        Some(ci) => {
                            proof {
                                lemma_key_at_is(fmv, child_yaml@, ci as int);
                            }
                            clear_parent(folder_map, ci, None);
                        },
                        None => {
                            proof {
                                lemma_key_at_none(fmv, child_yaml@);
                            }
                        },
                    }
                } else {
                    match text_lookup(gcp_id_to_yaml_name, parent_id.as_str()) {
                        Some(parent_yaml) => {
                            match position_of(folder_map, child_yaml.as_str()) {
                                None => {
                                    proof {
                                        lemma_key_at_none(fmv, child_yaml@);
                                    }
                                    let mut e = concat3("import: folder ", child_id.as_str(), " (");
                                    push_str_chars(&mut e, child_yaml.as_str());
                                    push_str_chars(&mut e, ") has a parent but no record to move");
                                    assert(e@ =~= "import: folder "@ + child_id@ + " ("@ + child_yaml@ + ") has a parent but no record to move"@);
                                    assert(nest_upto(pv, nv, fm0, (n + 1) as nat).err == Some(e@));
                                    proof {
                                        lemma_nest_stops(pv, nv, fm0, (n + 1) as nat, folder_id_to_parent@.len() as nat);
                                    }
                                    assert(nest_upto(pv, nv, fm0, (n + 1) as nat).folders == folders_view(folder_map@));
                                    assert(nest_upto(pv, nv, fm0, (n + 1) as nat).skipped == crate::order::string_views(skipped@));
                                    return (skipped, Err(from_chars(&e)));
                                },
                                Some(ci) => {
                                    proof {
                                        lemma_key_at_is(fmv, child_yaml@, ci as int);
                                    }
                                    let (ck, mut child) = folder_map.remove(ci);
                                    child.parent = None;
                                    let ghost fm1 = folders_view(folder_map@);
                                    proof {
                                        lemma_folders_view(folder_map@);
                                        assert(fm1 =~= fmv.remove(ci as int));
                                        assert(folder_view(child) == with_parent(fmv[ci as int].1, None));
                                    }
                                    match position_of(folder_map, parent_yaml.as_str()) {
                                        None => {
                                            proof {
                                                lemma_key_at_none(fm1, parent_yaml@);
                                            }
                                            let mut e = concat3("import: folder ", parent_id.as_str(), " (");
                                            push_str_chars(&mut e, parent_yaml.as_str());
                                            push_str_chars(&mut e, ") is the parent of ");
                                            push_str_chars(&mut e, child_id.as_str());
                                            push_str_chars(&mut e, " but is not at the top level any more — nesting order is broken");
                                            assert(e@ =~= "import: folder "@ + parent_id@ + " ("@ + parent_yaml@ + ") is the parent of "@ + child_id@
                                                + " but is not at the top level any more — nesting order is broken"@);
                                            assert(nest_upto(pv, nv, fm0, (n + 1) as nat).err == Some(e@));
                                            proof {
                                                lemma_nest_stops(pv, nv, fm0, (n + 1) as nat, folder_id_to_parent@.len() as nat);
                                            }
                                            return (skipped, Err(from_chars(&e)));
                                        },
                                        Some(pj) => {
                                            proof {
                                                lemma_key_at_is(fm1, parent_yaml@, pj as int);
                                            }
                                            nest_into(folder_map, pj, child_yaml.clone(), child);
                                        },
                                    }
                                },
                            }
                        },
                        None => {
                            match position_of(folder_map, child_yaml.as_str()) {
                                None => {
                                    proof {
                                        lemma_key_at_none(fmv, child_yaml@);
                                    }
                                    let mut e = concat3("import: folder ", child_id.as_str(), " (");
                                    push_str_chars(&mut e, child_yaml.as_str());
                                    push_str_chars(&mut e, ") has a parent but no record to annotate");
                                    proof {
                                        lemma_nest_stops(pv, nv, fm0, (n + 1) as nat, folder_id_to_parent@.len() as nat);
                                    }
                                    return (skipped, Err(from_chars(&e)));
                                },
                                Some(ci) => {
                                    proof {
                                        lemma_key_at_is(fmv, child_yaml@, ci as int);
                                    }
                                    clear_parent(folder_map, ci, Some(parent_id.clone()));
                                    let a = concat3(child_id.as_str(), " → ", parent_id.as_str());
                                    let ghost before = crate::order::string_views(kept@);
                                    kept.push(from_chars(&a));
                                    assert(crate::order::string_views(kept@) =~= before.push(arrow(child_id@, parent_id@)));
                                },
                            }
                        },
                    }
                }
            },
        }
        n = n + 1;
    }
    (skipped, Ok(kept))
}

// ---------------------------------------------------------------------------
// Projects nested under their folders
// ---------------------------------------------------------------------------

/// A folder with `p` nested under key `k`.
pub open spec fn nest_project(f: FolderV, k: Seq<char>, p: ProjectV) -> FolderV {
    FolderV {
        project: Some(key_insert(match f.project {
            Some(m) => m,
            None => seq![],
        }, k, p)),
        ..f
    }
}

/// A project carrying an explicit `folder_id`.
pub open spec fn with_folder_id(p: ProjectV, folder: Seq<char>) -> ProjectV {
    ProjectV { extra: key_insert(p.extra, "folder_id"@, crate::yaml::YamlV::Str(folder)), ..p }
}

/// Where linking projects stands.
pub struct LinkV {
    pub folders: Seq<(Seq<char>, FolderV)>,
    pub projects: Seq<(Seq<char>, ProjectV)>,
    pub kept: Seq<Seq<char>>,
    pub skipped: Seq<Seq<char>>,
    pub err: Option<Seq<char>>,
}

pub open spec fn project_key(e: (Seq<char>, Seq<char>)) -> crate::order::KeyV {
    (0u8, 0u8, e.0, seq![])
}

pub open spec fn project_order(parents: Seq<(Seq<char>, Seq<char>)>) -> Seq<int> {
    crate::order::stable_order(parents.map_values(|e: (Seq<char>, Seq<char>)| project_key(e)), parents.len())
}

/// One project linked: under its folder when the sweep has it, with an
/// explicit `folder_id` when it does not, left alone under the organisation.
pub open spec fn link_step(st: LinkV, names: Seq<(Seq<char>, Seq<char>)>, p_id: Seq<char>, f_id: Seq<char>) -> LinkV {
    match text_at(names, p_id) {
        None => LinkV { skipped: st.skipped.push(p_id), ..st },
        Some(p_yaml) => if !has_prefix(f_id, "folders/"@) {
            st
        } else {
            let fm = st.folders;
            let pm = st.projects;
            match text_at(names, f_id) {
                Some(f_yaml) => match key_at(fm, f_yaml) {
                    None => LinkV {
                        err: Some("import: folder "@ + f_id + " ("@ + f_yaml + ") is the parent of project "@ + p_id
                            + " but has no record to nest under"@),
                        ..st
                    },
                    Some(fi) => match key_at(pm, p_yaml) {
                        None => LinkV {
                            err: Some("import: project "@ + p_id + " ("@ + p_yaml + ") has a parent but no record to move"@),
                            ..st
                        },
                        Some(pi) => LinkV {
                            folders: fm.update(fi, (fm[fi].0, nest_project(fm[fi].1, p_yaml, pm[pi].1))),
                            projects: pm.remove(pi),
                            ..st
                        },
                    },
                },
                None => match key_at(pm, p_yaml) {
                    None => LinkV {
                        err: Some("import: project "@ + p_id + " ("@ + p_yaml + ") has a parent but no record to annotate"@),
                        ..st
                    },
                    Some(pi) => LinkV {
                        projects: pm.update(pi, (pm[pi].0, with_folder_id(pm[pi].1, strip_all_prefix(f_id, "folders/"@)))),
                        kept: st.kept.push(arrow(p_id, f_id)),
                        ..st
                    },
                },
            }
        },
    }
}

pub open spec fn link_upto(parents: Seq<(Seq<char>, Seq<char>)>, names: Seq<(Seq<char>, Seq<char>)>, pm: Seq<(Seq<char>, ProjectV)>,
    fm: Seq<(Seq<char>, FolderV)>, n: nat) -> LinkV
    decreases n,
{
    if n == 0 {
        LinkV { folders: fm, projects: pm, kept: seq![], skipped: seq![], err: None }
    } else {
        let st = link_upto(parents, names, pm, fm, (n - 1) as nat);
        if st.err is Some || n > parents.len() {
            st
        } else {
            let e = parents[project_order(parents)[n - 1]];
            link_step(st, names, e.0, e.1)
        }
    }
}

proof fn lemma_link_stops(parents: Seq<(Seq<char>, Seq<char>)>, names: Seq<(Seq<char>, Seq<char>)>, pm: Seq<(Seq<char>, ProjectV)>,
    fm: Seq<(Seq<char>, FolderV)>, n: nat, m: nat)
    requires
        n <= m,
        link_upto(parents, names, pm, fm, n).err is Some,
    ensures
        link_upto(parents, names, pm, fm, m) == link_upto(parents, names, pm, fm, n),
    decreases m,
{
    if m > n {
        lemma_link_stops(parents, names, pm, fm, n, (m - 1) as nat);
    }
}

fn nest_project_into(fm: &mut Vec<(String, Folder)>, j: usize, k: String, p: Project)
    requires
        j < old(fm)@.len(),
    ensures
        folders_view(final(fm)@) == folders_view(old(fm)@).update(j as int,
            (folders_view(old(fm)@)[j as int].0, nest_project(folders_view(old(fm)@)[j as int].1, k@, project_view(p)))),
{
    proof {
        lemma_folders_view(fm@);
    }
    let ghost before = folders_view(fm@);
    let ghost pv = project_view(p);
    let ghost kv = k@;
    let (fk, mut f) = fm.remove(j);
    let mut ps = match f.project {
        Some(v) => v,
        None => Vec::new(),
    };
    let ghost psv = projects_view(ps@);
    assert(psv =~= match before[j as int].1.project {
        Some(m) => m,
        None => Seq::<(Seq<char>, ProjectV)>::empty(),
    });
    match position_of(&ps, k.as_str()) {
        Some(i) => {
            proof {
                lemma_key_at_is(psv, kv, i as int);
            }
            ps.set(i, (k, p));
            assert(projects_view(ps@) =~= psv.update(i as int, (kv, pv)));
        },
        None => {
            proof {
                lemma_key_at_none(psv, kv);
            }
            ps.push((k, p));
            assert(projects_view(ps@) =~= psv.push((kv, pv)));
        },
    }
    f.project = Some(ps);
    fm.insert(j, (fk, f));
    proof {
        lemma_folders_view(fm@);
    }
    assert(folders_view(fm@) =~= before.update(j as int, (before[j as int].0, nest_project(before[j as int].1, kv, pv))));
}

fn set_folder_id(pm: &mut Vec<(String, Project)>, i: usize, folder: String)
    requires
        i < old(pm)@.len(),
    ensures
        projects_view(final(pm)@) == projects_view(old(pm)@).update(i as int,
            (projects_view(old(pm)@)[i as int].0, with_folder_id(projects_view(old(pm)@)[i as int].1, folder@))),
{
    let ghost before = projects_view(pm@);
    let ghost fv = folder@;
    let (pk, mut p) = pm.remove(i);
    let ghost ev = typed_view(p.extra@);
    match position_of(&p.extra, "folder_id") {
        Some(j) => {
            proof {
                lemma_key_at_is(ev, "folder_id"@, j as int);
            }
            p.extra.set(j, (String::from_str("folder_id"), crate::yaml::Yaml::Str(folder)));
            assert(typed_view(p.extra@) =~= ev.update(j as int, ("folder_id"@, crate::yaml::YamlV::Str(fv))));
        },
        None => {
            proof {
                lemma_key_at_none(ev, "folder_id"@);
            }
            p.extra.push((String::from_str("folder_id"), crate::yaml::Yaml::Str(folder)));
            assert(typed_view(p.extra@) =~= ev.push(("folder_id"@, crate::yaml::YamlV::Str(fv))));
        },
    }
    pm.insert(i, (pk, p));
    assert(projects_view(pm@) =~= before.update(i as int, (before[i as int].0, with_folder_id(before[i as int].1, fv))));
}

/// Nest each project under its folder, by project id; a project whose folder
/// is outside the sweep keeps it as an explicit `folder_id`, one under the
/// organisation stays at the top level. Gives the projects skipped for want
/// of a record and, on success, the ones kept with an explicit folder.
pub fn link_projects_to_folders(project_id_to_parent: &Vec<(String, String)>, gcp_id_to_yaml_name: &Vec<(String, String)>,
    project_map: &mut Vec<(String, Project)>, folder_map: &mut Vec<(String, Folder)>) -> (r: (Vec<String>, Result<Vec<String>, String>))
    ensures
        ({
            let want = link_upto(names_view(project_id_to_parent@), names_view(gcp_id_to_yaml_name@), projects_view(old(project_map)@),
                folders_view(old(folder_map)@), project_id_to_parent@.len() as nat);
            &&& folders_view(final(folder_map)@) == want.folders
            &&& projects_view(final(project_map)@) == want.projects
            &&& crate::order::string_views(r.0@) == want.skipped
            &&& match r.1 {
                Ok(k) => want.err is None && crate::order::string_views(k@) == want.kept,
                Err(e) => want.err == Some(e@),
            }
        }),
{
    let ghost pv = names_view(project_id_to_parent@);
    let ghost nv = names_view(gcp_id_to_yaml_name@);
    let ghost fm0 = folders_view(folder_map@);
    let ghost pm0 = projects_view(project_map@);
    let mut keys: Vec<crate::order::SortKey> = Vec::new();
    let mut i: usize = 0;
    while i < project_id_to_parent.len()
        invariant
            i <= project_id_to_parent@.len(),
            pv == names_view(project_id_to_parent@),
            crate::order::key_views(keys@) == pv.map_values(|e: (Seq<char>, Seq<char>)| project_key(e)).take(i as int),
        decreases project_id_to_parent.len() - i,
    {
        let key = crate::order::SortKey { first: 0, second: 0, third: project_id_to_parent[i].0.clone(), fourth: String::new() };
        let ghost before = crate::order::key_views(keys@);
        keys.push(key);
        assert(pv[i as int] == (project_id_to_parent@[i as int].0@, project_id_to_parent@[i as int].1@));
        assert(crate::order::key_views(keys@) =~= before.push(project_key(pv[i as int])));
        assert(pv.map_values(|e: (Seq<char>, Seq<char>)| project_key(e)).take(i + 1)
            =~= pv.map_values(|e: (Seq<char>, Seq<char>)| project_key(e)).take(i as int).push(project_key(pv[i as int])));
        i = i + 1;
    }
    assert(pv.map_values(|e: (Seq<char>, Seq<char>)| project_key(e)).take(project_id_to_parent.len() as int)
        =~= pv.map_values(|e: (Seq<char>, Seq<char>)| project_key(e)));
    let order = crate::order::stable_sort_positions(&keys);
    let ghost ov = order@.map_values(|x: usize| x as int);
    proof {
        crate::order::lemma_stable_order(crate::order::key_views(keys@), keys@.len());
    }
    let mut skipped: Vec<String> = Vec::new();
    let mut kept: Vec<String> = Vec::new();
    let mut n: usize = 0;
    assert(crate::order::string_views(kept@) =~= Seq::<Seq<char>>::empty());
    assert(crate::order::string_views(skipped@) =~= Seq::<Seq<char>>::empty());
    while n < order.len()
        invariant
            n <= order@.len(),
            ov == order@.map_values(|x: usize| x as int),
            ov == project_order(pv),
            crate::order::permutation_of(ov, project_id_to_parent@.len()),
            pv == names_view(project_id_to_parent@),
            nv == names_view(gcp_id_to_yaml_name@),
            fm0 == folders_view(old(folder_map)@),
            pm0 == projects_view(old(project_map)@),
            link_upto(pv, nv, pm0, fm0, n as nat) == (LinkV {
                folders: folders_view(folder_map@),
                projects: projects_view(project_map@),
                kept: crate::order::string_views(kept@),
                skipped: crate::order::string_views(skipped@),
                err: None,
            }),
        decreases order.len() - n,
    {
        let p = order[n];
        assert(0 <= ov[n as int] < project_id_to_parent@.len());
        let p_id = &project_id_to_parent[p].0;
        let f_id = &project_id_to_parent[p].1;
        assert(pv[p as int] == (p_id@, f_id@));
        let ghost fmv = folders_view(folder_map@);
        let ghost pmv = projects_view(project_map@);
        proof {
            lemma_folders_view(folder_map@);
        }
        match text_lookup(gcp_id_to_yaml_name, p_id.as_str()) {
            None => {
                let ghost before = crate::order::string_views(skipped@);
                skipped.push(p_id.clone());
                assert(crate::order::string_views(skipped@) =~= before.push(p_id@));
            },
            Some(p_yaml) => {
                if starts_with_str(&to_chars(f_id.as_str()), "folders/") {
                    match text_lookup(gcp_id_to_yaml_name, f_id.as_str()) {
                        Some(f_yaml) => {
                            match position_of(folder_map, f_yaml.as_str()) {
                                None => {
                                    proof {
                                        lemma_key_at_none(fmv, f_yaml@);
                                    }
                                    let mut e = concat3("import: folder ", f_id.as_str(), " (");
                                    push_str_chars(&mut e, f_yaml.as_str());
                                    push_str_chars(&mut e, ") is the parent of project ");
                                    push_str_chars(&mut e, p_id.as_str());
                                    push_str_chars(&mut e, " but has no record to nest under");
                                    assert(e@ =~= "import: folder "@ + f_id@ + " ("@ + f_yaml@ + ") is the parent of project "@ + p_id@
                                        + " but has no record to nest under"@);
                                    assert(link_upto(pv, nv, pm0, fm0, (n + 1) as nat).err == Some(e@));
                                    proof {
                                        lemma_link_stops(pv, nv, pm0, fm0, (n + 1) as nat, project_id_to_parent@.len() as nat);
                                    }
                                    return (skipped, Err(from_chars(&e)));
                                },
                                Some(fi) => {
                                    proof {
                                        lemma_key_at_is(fmv, f_yaml@, fi as int);
                                    }
                                    match position_of(project_map, p_yaml.as_str()) {
                                        None => {
                                            proof {
                                                lemma_key_at_none(pmv, p_yaml@);
                                            }
                                            let mut e = concat3("import: project ", p_id.as_str(), " (");
                                            push_str_chars(&mut e, p_yaml.as_str());
                                            push_str_chars(&mut e, ") has a parent but no record to move");
                                            assert(e@ =~= "import: project "@ + p_id@ + " ("@ + p_yaml@ + ") has a parent but no record to move"@);
                                            assert(link_upto(pv, nv, pm0, fm0, (n + 1) as nat).err == Some(e@));
                                            proof {
                                                lemma_link_stops(pv, nv, pm0, fm0, (n + 1) as nat, project_id_to_parent@.len() as nat);
                                            }
                                            return (skipped, Err(from_chars(&e)));
                                        },
                                        Some(pi) => {
                                            proof {
                                                lemma_key_at_is(pmv, p_yaml@, pi as int);
                                            }
                                            let (_, project) = project_map.remove(pi);
                                            assert(projects_view(project_map@) =~= pmv.remove(pi as int));
                                            nest_project_into(folder_map, fi, p_yaml.clone(), project);
                                        },
                                    }
                                },
                            }
                        },
                        None => {
                            match position_of(project_map, p_yaml.as_str()) {
                                None => {
                                    proof {
                                        lemma_key_at_none(pmv, p_yaml@);
                                    }
                                    let mut e = concat3("import: project ", p_id.as_str(), " (");
                                    push_str_chars(&mut e, p_yaml.as_str());
                                    push_str_chars(&mut e, ") has a parent but no record to annotate");
                                    assert(e@ =~= "import: project "@ + p_id@ + " ("@ + p_yaml@ + ") has a parent but no record to annotate"@);
                                    assert(link_upto(pv, nv, pm0, fm0, (n + 1) as nat).err == Some(e@));
                                    proof {
                                        lemma_link_stops(pv, nv, pm0, fm0, (n + 1) as nat, project_id_to_parent@.len() as nat);
                                    }
                                    return (skipped, Err(from_chars(&e)));
                                },
                                Some(pi) => {
                                    proof {
                                        lemma_key_at_is(pmv, p_yaml@, pi as int);
                                    }
                                    let bare = trim_start_matches(&to_chars(f_id.as_str()), "folders/");
                                    set_folder_id(project_map, pi, from_chars(&bare));
                                    let a = concat3(p_id.as_str(), " → ", f_id.as_str());
                                    let ghost before = crate::order::string_views(kept@);
                                    kept.push(from_chars(&a));
                                    assert(crate::order::string_views(kept@) =~= before.push(arrow(p_id@, f_id@)));
                                },
                            }
                        },
                    }
                }
            },
        }
        n = n + 1;
    }
    (skipped, Ok(kept))
}

// ---------------------------------------------------------------------------
// Numbered names
// ---------------------------------------------------------------------------

proof fn lemma_digit_char(a: nat, b: nat)
    requires
        crate::text::digit_char(a) == crate::text::digit_char(b),
    ensures
        a % 10 == b % 10,
{
    let x = a % 10;
    let y = b % 10;
    assert(((x + 48) as char) as int == x + 48);
    assert(((y + 48) as char) as int == y + 48);
}

proof fn lemma_dec_len(n: nat)
    ensures
        dec(n).len() >= 1,
        n >= 10 ==> dec(n).len() >= 2,
    decreases n,
{
    if n >= 10 {
        lemma_dec_len(n / 10);
    }
}

/// Different numbers are spelled differently.
pub proof fn lemma_dec_injective(a: nat, b: nat)
    requires
        dec(a) == dec(b),
    ensures
        a == b,
    decreases a + b,
{
    lemma_dec_len(a);
    lemma_dec_len(b);
    if a < 10 && b < 10 {
        assert(dec(a) == seq![crate::text::digit_char(a)]);
        assert(dec(b) == seq![crate::text::digit_char(b)]);
        assert(seq![crate::text::digit_char(a)][0] == crate::text::digit_char(a));
        assert(seq![crate::text::digit_char(b)][0] == crate::text::digit_char(b));
        assert(dec(a)[0] == dec(b)[0]);
        lemma_digit_char(a, b);
    } else if a >= 10 && b >= 10 {
        assert(dec(a) == dec(a / 10).push(crate::text::digit_char(a % 10)));
        assert(dec(b) == dec(b / 10).push(crate::text::digit_char(b % 10)));
        assert(dec(a).last() == crate::text::digit_char(a % 10));
        assert(dec(b).last() == crate::text::digit_char(b % 10));
        assert(dec(a).last() == dec(b).last());
        lemma_digit_char(a % 10, b % 10);
        assert((a % 10) % 10 == a % 10);
        assert((b % 10) % 10 == b % 10);
        assert(dec(a).drop_last() =~= dec(a / 10));
        assert(dec(b).drop_last() =~= dec(b / 10));
        lemma_dec_injective(a / 10, b / 10);
    }
}

/// The `n`th candidate of a numbered name.
pub open spec fn numbered(base: Seq<char>, n: nat) -> Seq<char> {
    base + dec(n)
}

/// `r` is the first of `base2`, `base3`, … that `blocked` does not hold.
pub open spec fn first_free(base: Seq<char>, blocked: Set<Seq<char>>, r: Seq<char>) -> bool {
    exists|m: nat| #![trigger numbered(base, m)]
        m >= 2 && r == numbered(base, m) && !blocked.contains(r)
            && forall|j: nat| 2 <= j < m ==> blocked.contains(#[trigger] numbered(base, j))
}

proof fn lemma_numbered_injective(base: Seq<char>, a: nat, b: nat)
    requires
        numbered(base, a) == numbered(base, b),
    ensures
        a == b,
{
    assert(numbered(base, a).subrange(base.len() as int, numbered(base, a).len() as int) =~= dec(a));
    assert(numbered(base, b).subrange(base.len() as int, numbered(base, b).len() as int) =~= dec(b));
    lemma_dec_injective(a, b);
}

/// The first numbered name, from 2, that `blocked` does not hold.
pub fn first_free_name(base: &str, blocked: &Vec<String>) -> (r: String)
    ensures
        first_free(base@, crate::order::string_views(blocked@).to_set(), r@),
{
    let ghost bs = crate::order::string_views(blocked@).to_set();
    let ghost mut found: Set<Seq<char>> = Set::empty();
    proof {
        crate::order::string_views(blocked@).lemma_cardinality_of_set();
    }
    let mut n: u128 = 2;
    loop
        invariant
            2 <= n,
            bs == crate::order::string_views(blocked@).to_set(),
            bs.finite(),
            bs.len() <= blocked@.len(),
            found.finite(),
            found.len() == n - 2,
            found.subset_of(bs),
            forall|s: Seq<char>| found.contains(s) <==> exists|j: nat| 2 <= j < n && s == #[trigger] numbered(base@, j),
            forall|j: nat| 2 <= j < n ==> bs.contains(#[trigger] numbered(base@, j)),
            n <= blocked@.len() + 2,
        decreases blocked@.len() + 2 - n,
    {
        let d = crate::text::dec_chars_wide(n);
        let mut c = to_chars(base);
        push_chars(&mut c, &d);
        let name = from_chars(&c);
        assert(name@ == numbered(base@, n as nat));
        let mut hit = false;
        let mut i: usize = 0;
        while i < blocked.len()
            invariant
                i <= blocked@.len(),
                hit ==> bs.contains(name@),
                !hit ==> forall|q: int| 0 <= q < i ==> (#[trigger] blocked@[q])@ != name@,
                bs == crate::order::string_views(blocked@).to_set(),
            decreases blocked.len() - i,
        {
            if str_eq(blocked[i].as_str(), name.as_str()) {
                assert(crate::order::string_views(blocked@)[i as int] == name@);
                hit = true;
            }
            i = i + 1;
        }
        if !hit {
            proof {
                if bs.contains(name@) {
                    let q = choose|q: int| 0 <= q < blocked@.len() && crate::order::string_views(blocked@)[q] == name@;
                    assert(blocked@[q]@ == name@);
                }
                assert(first_free(base@, bs, name@));
            }
            return name;
        }
        proof {
            assert(!found.contains(name@)) by {
                if found.contains(name@) {
                    let j = choose|j: nat| 2 <= j < n && name@ == numbered(base@, j);
                    lemma_numbered_injective(base@, j, n as nat);
                }
            }
            let f2 = found.insert(name@);
            assert forall|s: Seq<char>| f2.contains(s) <==> exists|j: nat| 2 <= j < n + 1 && s == #[trigger] numbered(base@, j) by {
                if f2.contains(s) && s != name@ {
                    assert(found.contains(s));
                }
                if exists|j: nat| 2 <= j < n + 1 && s == #[trigger] numbered(base@, j) {
                    let j = choose|j: nat| 2 <= j < n + 1 && s == #[trigger] numbered(base@, j);
                    if j < n {
                        assert(found.contains(s));
                    }
                }
            }
            vstd::set_lib::lemma_len_subset(f2, bs);
            found = f2;
        }
        n = n + 1;
    }
}

// ---------------------------------------------------------------------------
// Keys two containers share
// ---------------------------------------------------------------------------

/// How many keys of a mapping are the string `k`, under any tags.
pub open spec fn str_key_count(m: Seq<(crate::yaml::YamlV, crate::yaml::YamlV)>, k: Seq<char>) -> nat
    decreases m.len(),
{
    if m.len() == 0 {
        0
    } else {
        str_key_count(m.drop_last(), k) + if crate::yaml::str_of(crate::yaml::untagged(m.last().0)) == Some(k) { 1nat } else { 0nat }
    }
}

/// How often resources of a map of types use key `k` under type `t`, grant
/// maps (`g`) not counted.
pub open spec fn occ_extra(e: Seq<(Seq<char>, crate::yaml::YamlV)>, t: Seq<char>, k: Seq<char>, g: Seq<Seq<char>>) -> nat
    decreases e.len(),
{
    if e.len() == 0 {
        0
    } else {
        occ_extra(e.drop_last(), t, k, g) + if e.last().0 == t && !g.contains(t) {
            match e.last().1 {
                crate::yaml::YamlV::Mapping(m) => str_key_count(m, k),
                _ => 0nat,
            }
        } else {
            0nat
        }
    }
}

pub open spec fn occ_projects(s: Seq<(Seq<char>, ProjectV)>, t: Seq<char>, k: Seq<char>, g: Seq<Seq<char>>) -> nat
    decreases s.len(),
{
    if s.len() == 0 {
        0
    } else {
        occ_projects(s.drop_last(), t, k, g) + occ_extra(s.last().1.extra, t, k, g)
    }
}

pub open spec fn occ_folder(f: FolderV, t: Seq<char>, k: Seq<char>, g: Seq<Seq<char>>) -> nat
    decreases f,
{
    occ_extra(f.extra, t, k, g) + match f.folder {
        Some(s) => occ_folders(s, t, k, g),
        None => 0nat,
    } + match f.project {
        Some(s) => occ_projects(s, t, k, g),
        None => 0nat,
    }
}

pub open spec fn occ_folders(s: Seq<(Seq<char>, FolderV)>, t: Seq<char>, k: Seq<char>, g: Seq<Seq<char>>) -> nat
    decreases s,
{
    if s.len() == 0 {
        0
    } else {
        occ_folders(s.subrange(0, s.len() - 1), t, k, g) + occ_folder(s[s.len() - 1].1, t, k, g)
    }
}

/// How often the estate uses key `k` under type `t`.
pub open spec fn occ(c: ConfigV, t: Seq<char>, k: Seq<char>, g: Seq<Seq<char>>) -> nat {
    occ_extra(c.extra, t, k, g) + match c.folder {
        Some(s) => occ_folders(s, t, k, g),
        None => 0nat,
    } + match c.project {
        Some(s) => occ_projects(s, t, k, g),
        None => 0nat,
    }
}

/// The keys type `t` uses anywhere.
pub open spec fn keys_used(c: ConfigV, t: Seq<char>, g: Seq<Seq<char>>) -> Set<Seq<char>> {
    Set::new(|k: Seq<char>| occ(c, t, k, g) >= 1)
}

pub open spec fn type_seen(c: ConfigV, t: Seq<char>, g: Seq<Seq<char>>) -> bool {
    exists|k: Seq<char>| #[trigger] occ(c, t, k, g) >= 1
}

pub open spec fn any_shared(c: ConfigV, g: Seq<Seq<char>>) -> bool {
    exists|t: Seq<char>, k: Seq<char>| #[trigger] occ(c, t, k, g) > 1
}

/// The names already given per type.
pub open spec fn names_for(tk: Seq<(Seq<char>, Seq<Seq<char>>)>, t: Seq<char>) -> Seq<Seq<char>> {
    match key_at(tk, t) {
        Some(i) => tk[i].1,
        None => seq![],
    }
}

pub open spec fn give_name(tk: Seq<(Seq<char>, Seq<Seq<char>>)>, t: Seq<char>, name: Seq<char>) -> Seq<(Seq<char>, Seq<Seq<char>>)> {
    match key_at(tk, t) {
        Some(i) => tk.update(i, (t, tk[i].1.push(name))),
        None => tk.push((t, seq![name])),
    }
}

/// The name a shared key takes: `<container>-<key>`, or the first of
/// `<container>-<key>-2`, `-3`, … that no other key or given name holds.
pub open spec fn fresh_name(base: Seq<char>, blocked: Set<Seq<char>>) -> Seq<char> {
    if !blocked.contains(base) {
        base
    } else {
        choose|r: Seq<char>| first_free(base + "-"@, blocked, r)
    }
}

/// A resource map of type `t` in `container`, its first `n` keys qualified.
pub open spec fn qualify_map(m: Seq<(crate::yaml::YamlV, crate::yaml::YamlV)>, t: Seq<char>, container: Seq<char>, c0: ConfigV,
    g: Seq<Seq<char>>, tk: Seq<(Seq<char>, Seq<Seq<char>>)>, n: nat) -> (Seq<(crate::yaml::YamlV, crate::yaml::YamlV)>, Seq<(Seq<char>, Seq<Seq<char>>)>)
    decreases n,
{
    if n == 0 || n > m.len() {
        (m, tk)
    } else {
        let (cur, tk1) = qualify_map(m, t, container, c0, g, tk, (n - 1) as nat);
        match crate::yaml::str_of(crate::yaml::untagged(m[n - 1].0)) {
            None => (cur, tk1),
            Some(key) => if occ(c0, t, key, g) < 2 {
                (cur, tk1)
            } else {
                let name = fresh_name(container + "-"@ + key, names_for(tk1, t).to_set().union(keys_used(c0, t, g)));
                let cur2 = match crate::yaml::get(cur, crate::yaml::skey(key)) {
                    Some(v) => crate::yaml::insert_key(crate::yaml::swap_remove_key(cur, crate::yaml::skey(key)), crate::yaml::skey(name), v),
                    None => cur,
                };
                (cur2, give_name(tk1, t, name))
            },
        }
    }
}

/// The resources of a container, its first `n` types qualified.
pub open spec fn qualify_extra(e: Seq<(Seq<char>, crate::yaml::YamlV)>, container: Seq<char>, c0: ConfigV, g: Seq<Seq<char>>,
    tk: Seq<(Seq<char>, Seq<Seq<char>>)>, n: nat) -> (Seq<(Seq<char>, crate::yaml::YamlV)>, Seq<(Seq<char>, Seq<Seq<char>>)>)
    decreases n,
{
    if n == 0 || n > e.len() {
        (e, tk)
    } else {
        let (cur, tk1) = qualify_extra(e, container, c0, g, tk, (n - 1) as nat);
        let t = e[n - 1].0;
        if !type_seen(c0, t, g) {
            (cur, tk1)
        } else {
            match e[n - 1].1 {
                crate::yaml::YamlV::Mapping(m) => {
                    let (m2, tk2) = qualify_map(m, t, container, c0, g, tk1, m.len());
                    (cur.update(n - 1, (t, crate::yaml::YamlV::Mapping(m2))), tk2)
                },
                _ => (cur, tk1),
            }
        }
    }
}

pub open spec fn qualify_projects(s: Seq<(Seq<char>, ProjectV)>, c0: ConfigV, g: Seq<Seq<char>>, tk: Seq<(Seq<char>, Seq<Seq<char>>)>, n: nat)
    -> (Seq<(Seq<char>, ProjectV)>, Seq<(Seq<char>, Seq<Seq<char>>)>)
    decreases n,
{
    if n == 0 || n > s.len() {
        (s, tk)
    } else {
        let (cur, tk1) = qualify_projects(s, c0, g, tk, (n - 1) as nat);
        let p = s[n - 1].1;
        let (e2, tk2) = qualify_extra(p.extra, s[n - 1].0, c0, g, tk1, p.extra.len());
        (cur.update(n - 1, (s[n - 1].0, ProjectV { extra: e2, ..p })), tk2)
    }
}

pub open spec fn qualify_folder(f: FolderV, label: Seq<char>, c0: ConfigV, g: Seq<Seq<char>>, tk: Seq<(Seq<char>, Seq<Seq<char>>)>)
    -> (FolderV, Seq<(Seq<char>, Seq<Seq<char>>)>)
    decreases f, 0int,
{
    let (e2, tk1) = qualify_extra(f.extra, label, c0, g, tk, f.extra.len());
    let (subs, tk2) = match f.folder {
        Some(s) => {
            let (s2, t2) = qualify_folders(s, c0, g, tk1, s.len());
            (Some(s2), t2)
        },
        None => (None, tk1),
    };
    let (projs, tk3) = match f.project {
        Some(s) => {
            let (s2, t3) = qualify_projects(s, c0, g, tk2, s.len());
            (Some(s2), t3)
        },
        None => (None, tk2),
    };
    (FolderV { extra: e2, folder: subs, project: projs, ..f }, tk3)
}

pub open spec fn qualify_folders(s: Seq<(Seq<char>, FolderV)>, c0: ConfigV, g: Seq<Seq<char>>, tk: Seq<(Seq<char>, Seq<Seq<char>>)>, n: nat)
    -> (Seq<(Seq<char>, FolderV)>, Seq<(Seq<char>, Seq<Seq<char>>)>)
    decreases s, n,
{
    if n == 0 || n > s.len() {
        (s, tk)
    } else {
        let (cur, tk1) = qualify_folders(s, c0, g, tk, (n - 1) as nat);
        let (f2, tk2) = qualify_folder(s[n - 1].1, s[n - 1].0, c0, g, tk1);
        (cur.update(n - 1, (s[n - 1].0, f2)), tk2)
    }
}

/// The estate with every key two containers share qualified by its
/// container's name; the organisation's own keep theirs, and so does every
/// grant map.
pub open spec fn qualified(c0: ConfigV, g: Seq<Seq<char>>) -> ConfigV {
    if !any_shared(c0, g) {
        c0
    } else {
        let (fs, tk1) = match c0.folder {
            Some(s) => {
                let (s2, t) = qualify_folders(s, c0, g, seq![], s.len());
                (Some(s2), t)
            },
            None => (None, seq![]),
        };
        let ps = match c0.project {
            Some(s) => Some(qualify_projects(s, c0, g, tk1, s.len()).0),
            None => None,
        };
        ConfigV { folder: fs, project: ps, ..c0 }
    }
}

// Counting, executed: each (type, key) with how often it is used, one and
// more than one told apart.

pub open spec fn seen_view(s: Seq<((String, String), u8)>) -> Seq<((Seq<char>, Seq<char>), u8)> {
    s.map_values(|p: ((String, String), u8)| ((p.0.0@, p.0.1@), p.1))
}

pub open spec fn seen_count(sv: Seq<((Seq<char>, Seq<char>), u8)>, t: Seq<char>, k: Seq<char>) -> nat {
    match key_at(sv, (t, k)) {
        Some(i) => sv[i].1 as nat,
        None => 0,
    }
}

/// Every count is one or two.
pub open spec fn seen_wf(sv: Seq<((Seq<char>, Seq<char>), u8)>) -> bool {
    forall|i: int| 0 <= i < sv.len() ==> 1 <= (#[trigger] sv[i]).1 <= 2
}

pub open spec fn min2(n: nat) -> nat {
    if n > 2 { 2 } else { n }
}

proof fn lemma_seen_count_le2(sv: Seq<((Seq<char>, Seq<char>), u8)>)
    requires
        seen_wf(sv),
    ensures
        forall|t: Seq<char>, k: Seq<char>| #[trigger] seen_count(sv, t, k) <= 2,
{
    assert forall|t: Seq<char>, k: Seq<char>| #[trigger] seen_count(sv, t, k) <= 2 by {
        lemma_key_at(sv, (t, k));
    }
}

fn position_of_pair(m: &Vec<((String, String), u8)>, t: &str, k: &str) -> (r: Option<usize>)
    ensures
        match r {
            Some(i) => key_at(seen_view(m@), (t@, k@)) == Some(i as int),
            None => key_at(seen_view(m@), (t@, k@)) is None,
        },
{
    let ghost mv = seen_view(m@);
    let mut i: usize = 0;
    while i < m.len()
        invariant
            i <= m@.len(),
            mv == seen_view(m@),
            forall|j: int| 0 <= j < i ==> (#[trigger] mv[j]).0 != (t@, k@),
        decreases m.len() - i,
    {
        assert(mv[i as int] == ((m@[i as int].0.0@, m@[i as int].0.1@), m@[i as int].1));
        if str_eq(m[i].0.0.as_str(), t) && str_eq(m[i].0.1.as_str(), k) {
            proof {
                lemma_key_at_is(mv, (t@, k@), i as int);
            }
            return Some(i);
        }
        i = i + 1;
    }
    proof {
        lemma_key_at_none(mv, (t@, k@));
    }
    None
}

fn bump(seen: &mut Vec<((String, String), u8)>, t: &str, k: &str)
    requires
        seen_wf(seen_view(old(seen)@)),
    ensures
        seen_wf(seen_view(final(seen)@)),
        forall|t2: Seq<char>, k2: Seq<char>| #[trigger] seen_count(seen_view(final(seen)@), t2, k2)
            == if t2 == t@ && k2 == k@ { min2(seen_count(seen_view(old(seen)@), t2, k2) + 1) } else { seen_count(seen_view(old(seen)@), t2, k2) },
{
    let ghost sv = seen_view(seen@);
    match position_of_pair(seen, t, k) {
        Some(i) => {
            proof {
                lemma_key_at(sv, (t@, k@));
            }
            let c = seen[i].1;
            let key = (seen[i].0.0.clone(), seen[i].0.1.clone());
            let c2: u8 = if c >= 2 { 2 } else { c + 1 };
            seen.set(i, (key, c2));
            assert(seen_view(seen@) =~= sv.update(i as int, (sv[i as int].0, c2)));
            proof {
                assert forall|t2: Seq<char>, k2: Seq<char>| #[trigger] seen_count(seen_view(seen@), t2, k2)
                    == if t2 == t@ && k2 == k@ { min2(seen_count(sv, t2, k2) + 1) } else { seen_count(sv, t2, k2) } by {
                    lemma_key_at_update(sv, i as int, c2, (t2, k2));
                    lemma_key_at(sv, (t2, k2));
                }
            }
        },
        None => {
            seen.push(((String::from_str(t), String::from_str(k)), 1));
            assert(seen_view(seen@) =~= sv.push(((t@, k@), 1u8)));
            proof {
                assert forall|t2: Seq<char>, k2: Seq<char>| #[trigger] seen_count(seen_view(seen@), t2, k2)
                    == if t2 == t@ && k2 == k@ { min2(seen_count(sv, t2, k2) + 1) } else { seen_count(sv, t2, k2) } by {
                    lemma_key_at_push(sv, ((t@, k@), 1u8), (t2, k2));
                    lemma_key_at(sv, (t2, k2));
                }
            }
        },
    }
}

fn count_map(m: &Vec<(crate::yaml::Yaml, crate::yaml::Yaml)>, t: &str, seen: &mut Vec<((String, String), u8)>)
    requires
        seen_wf(seen_view(old(seen)@)),
    ensures
        seen_wf(seen_view(final(seen)@)),
        forall|t2: Seq<char>, k2: Seq<char>| #[trigger] seen_count(seen_view(final(seen)@), t2, k2)
            == min2(seen_count(seen_view(old(seen)@), t2, k2) + if t2 == t@ { str_key_count(crate::yaml::entries_view(m@), k2) } else { 0nat }),
{
    let ghost mv = crate::yaml::entries_view(m@);
    let ghost s0 = seen_view(seen@);
    proof {
        crate::yaml::lemma_entries_view(m@);
    }
    proof {
        lemma_seen_count_le2(seen_view(seen@));
    }
    let mut i: usize = 0;
    while i < m.len()
        invariant
            i <= m@.len(),
            mv == crate::yaml::entries_view(m@),
            mv.len() == m@.len(),
            forall|j: int| 0 <= j < m@.len() ==> #[trigger] mv[j] == (crate::yaml::yaml_view(m@[j].0), crate::yaml::yaml_view(m@[j].1)),
            seen_wf(seen_view(seen@)),
            forall|t2: Seq<char>, k2: Seq<char>| #[trigger] seen_count(seen_view(seen@), t2, k2)
                == min2(seen_count(s0, t2, k2) + if t2 == t@ { str_key_count(mv.take(i as int), k2) } else { 0nat }),
        decreases m.len() - i,
    {
        proof {
            assert(mv.take(i + 1).drop_last() =~= mv.take(i as int));
            assert(mv.take(i + 1).last() == mv[i as int]);
        }
        match crate::yaml::as_str(crate::yaml::untag(&m[i].0)) {
            Some(k) => {
                bump(seen, t, k.as_str());
            },
            None => {},
        }
        i = i + 1;
    }
    assert(mv.take(m.len() as int) =~= mv);
}

pub(crate) fn listed(g: &[String], t: &str) -> (b: bool)
    ensures
        b == crate::order::string_views(g@).contains(t@),
{
    let mut i: usize = 0;
    while i < g.len()
        invariant
            i <= g@.len(),
            forall|j: int| 0 <= j < i ==> (#[trigger] g@[j])@ != t@,
        decreases g.len() - i,
    {
        if str_eq(g[i].as_str(), t) {
            assert(crate::order::string_views(g@)[i as int] == t@);
            return true;
        }
        i = i + 1;
    }
    proof {
        if crate::order::string_views(g@).contains(t@) {
            let j = choose|j: int| 0 <= j < g@.len() && crate::order::string_views(g@)[j] == t@;
            assert(g@[j]@ == t@);
        }
    }
    false
}

fn count_extra(e: &Vec<(String, crate::yaml::Yaml)>, g: &[String], seen: &mut Vec<((String, String), u8)>)
    requires
        seen_wf(seen_view(old(seen)@)),
    ensures
        seen_wf(seen_view(final(seen)@)),
        forall|t2: Seq<char>, k2: Seq<char>| #[trigger] seen_count(seen_view(final(seen)@), t2, k2)
            == min2(seen_count(seen_view(old(seen)@), t2, k2) + occ_extra(typed_view(e@), t2, k2, crate::order::string_views(g@))),
{
    let ghost ev = typed_view(e@);
    let ghost gv = crate::order::string_views(g@);
    let ghost s0 = seen_view(seen@);
    proof {
        lemma_seen_count_le2(seen_view(seen@));
    }
    let mut i: usize = 0;
    while i < e.len()
        invariant
            i <= e@.len(),
            ev == typed_view(e@),
            gv == crate::order::string_views(g@),
            seen_wf(seen_view(seen@)),
            forall|t2: Seq<char>, k2: Seq<char>| #[trigger] seen_count(seen_view(seen@), t2, k2)
                == min2(seen_count(s0, t2, k2) + occ_extra(ev.take(i as int), t2, k2, gv)),
        decreases e.len() - i,
    {
        proof {
            assert(ev.take(i + 1).drop_last() =~= ev.take(i as int));
            assert(ev.take(i + 1).last() == ev[i as int]);
            assert(ev[i as int] == (e@[i as int].0@, crate::yaml::yaml_view(e@[i as int].1)));
        }
        if !listed(g, e[i].0.as_str()) {
            match &e[i].1 {
                crate::yaml::Yaml::Mapping(m) => {
                    count_map(m, e[i].0.as_str(), seen);
                },
                _ => {},
            }
        }
        i = i + 1;
    }
    assert(ev.take(e.len() as int) =~= ev);
}

fn count_projects(s: &Vec<(String, Project)>, g: &[String], seen: &mut Vec<((String, String), u8)>)
    requires
        seen_wf(seen_view(old(seen)@)),
    ensures
        seen_wf(seen_view(final(seen)@)),
        forall|t2: Seq<char>, k2: Seq<char>| #[trigger] seen_count(seen_view(final(seen)@), t2, k2)
            == min2(seen_count(seen_view(old(seen)@), t2, k2) + occ_projects(projects_view(s@), t2, k2, crate::order::string_views(g@))),
{
    let ghost pv = projects_view(s@);
    let ghost gv = crate::order::string_views(g@);
    let ghost s0 = seen_view(seen@);
    proof {
        lemma_seen_count_le2(seen_view(seen@));
    }
    let mut i: usize = 0;
    while i < s.len()
        invariant
            i <= s@.len(),
            pv == projects_view(s@),
            gv == crate::order::string_views(g@),
            seen_wf(seen_view(seen@)),
            forall|t2: Seq<char>, k2: Seq<char>| #[trigger] seen_count(seen_view(seen@), t2, k2)
                == min2(seen_count(s0, t2, k2) + occ_projects(pv.take(i as int), t2, k2, gv)),
        decreases s.len() - i,
    {
        proof {
            assert(pv.take(i + 1).drop_last() =~= pv.take(i as int));
            assert(pv.take(i + 1).last() == pv[i as int]);
        }
        count_extra(&s[i].1.extra, g, seen);
        i = i + 1;
    }
    assert(pv.take(s.len() as int) =~= pv);
}

fn count_folder(f: &Folder, g: &[String], seen: &mut Vec<((String, String), u8)>)
    requires
        seen_wf(seen_view(old(seen)@)),
    ensures
        seen_wf(seen_view(final(seen)@)),
        forall|t2: Seq<char>, k2: Seq<char>| #[trigger] seen_count(seen_view(final(seen)@), t2, k2)
            == min2(seen_count(seen_view(old(seen)@), t2, k2) + occ_folder(folder_view(*f), t2, k2, crate::order::string_views(g@))),
    decreases folder_view(*f),
{
    let ghost fv = folder_view(*f);
    let ghost gv = crate::order::string_views(g@);
    let ghost s0 = seen_view(seen@);
    count_extra(&f.extra, g, seen);
    let ghost s1 = seen_view(seen@);
    match &f.folder {
        Some(v) => {
            let ghost vs = folders_view(v@);
            proof {
                lemma_folders_view(v@);
            }
            let mut i: usize = 0;
            assert(vs.subrange(0, 0) =~= Seq::<(Seq<char>, FolderV)>::empty());
            while i < v.len()
                invariant
                    i <= v@.len(),
                    f.folder == Some(*v),
                    fv == folder_view(*f),
                    vs == folders_view(v@),
                    vs.len() == v@.len(),
                    forall|j: int| 0 <= j < v@.len() ==> #[trigger] vs[j] == (v@[j].0@, folder_view(v@[j].1)),
                    gv == crate::order::string_views(g@),
                    seen_wf(seen_view(seen@)),
                    forall|t2: Seq<char>, k2: Seq<char>| #[trigger] seen_count(seen_view(seen@), t2, k2)
                        == min2(seen_count(s1, t2, k2) + occ_folders(vs.subrange(0, i as int), t2, k2, gv)),
                decreases v.len() - i,
            {
                proof {
                    assert(vs.subrange(0, i + 1).subrange(0, i as int) =~= vs.subrange(0, i as int));
                    assert(fv.folder == Some(vs));
                    assert(decreases_to!(fv => fv.folder));
                    assert(decreases_to!(fv.folder => fv.folder->Some_0));
                    assert(decreases_to!(vs => vs[i as int]));
                    assert(decreases_to!(vs[i as int] => vs[i as int].1));
                }
                count_folder(&v[i].1, g, seen);
                i = i + 1;
            }
            assert(vs.subrange(0, v.len() as int) =~= vs);
        },
        None => {},
    }
    let ghost s2 = seen_view(seen@);
    match &f.project {
        Some(v) => {
            count_projects(v, g, seen);
        },
        None => {},
    }
}

/// Each (type, key) the estate uses, with how often, grant maps not counted.
fn count_config(c: &Config, g: &[String]) -> (seen: Vec<((String, String), u8)>)
    ensures
        seen_wf(seen_view(seen@)),
        forall|t2: Seq<char>, k2: Seq<char>| #[trigger] seen_count(seen_view(seen@), t2, k2)
            == min2(occ(config_view(*c), t2, k2, crate::order::string_views(g@))),
{
    let mut seen: Vec<((String, String), u8)> = Vec::new();
    proof {
        assert forall|t2: Seq<char>, k2: Seq<char>| #[trigger] seen_count(seen_view(seen@), t2, k2) == 0 by {
            lemma_key_at(seen_view(seen@), (t2, k2));
        }
    }
    count_extra(&c.extra, g, &mut seen);
    match &c.folder {
        Some(v) => {
            let ghost vs = folders_view(v@);
            let ghost gv = crate::order::string_views(g@);
            let ghost s1 = seen_view(seen@);
            proof {
                lemma_folders_view(v@);
            }
            let mut i: usize = 0;
            assert(vs.subrange(0, 0) =~= Seq::<(Seq<char>, FolderV)>::empty());
            while i < v.len()
                invariant
                    i <= v@.len(),
                    vs == folders_view(v@),
                    vs.len() == v@.len(),
                    forall|j: int| 0 <= j < v@.len() ==> #[trigger] vs[j] == (v@[j].0@, folder_view(v@[j].1)),
                    gv == crate::order::string_views(g@),
                    seen_wf(seen_view(seen@)),
                    forall|t2: Seq<char>, k2: Seq<char>| #[trigger] seen_count(seen_view(seen@), t2, k2)
                        == min2(seen_count(s1, t2, k2) + occ_folders(vs.subrange(0, i as int), t2, k2, gv)),
                decreases v.len() - i,
            {
                proof {
                    assert(vs.subrange(0, i + 1).subrange(0, i as int) =~= vs.subrange(0, i as int));
                }
                count_folder(&v[i].1, g, &mut seen);
                i = i + 1;
            }
            assert(vs.subrange(0, v.len() as int) =~= vs);
        },
        None => {},
    }
    match &c.project {
        Some(v) => {
            count_projects(v, g, &mut seen);
        },
        None => {},
    }
    seen
}

// Qualifying, executed.

pub open spec fn taken_view(v: Seq<(String, Vec<String>)>) -> Seq<(Seq<char>, Seq<Seq<char>>)> {
    v.map_values(|p: (String, Vec<String>)| (p.0@, crate::order::string_views(p.1@)))
}

/// The counts describe the estate: one and more than one told apart.
pub open spec fn counts(sv: Seq<((Seq<char>, Seq<char>), u8)>, c0: ConfigV, g: Seq<Seq<char>>) -> bool {
    &&& seen_wf(sv)
    &&& forall|t2: Seq<char>, k2: Seq<char>| #[trigger] seen_count(sv, t2, k2) == min2(occ(c0, t2, k2, g))
}

pub proof fn lemma_first_free_unique(base: Seq<char>, blocked: Set<Seq<char>>, r1: Seq<char>, r2: Seq<char>)
    requires
        first_free(base, blocked, r1),
        first_free(base, blocked, r2),
    ensures
        r1 == r2,
{
    let m1 = choose|m: nat| #![trigger numbered(base, m)]
        m >= 2 && r1 == numbered(base, m) && !blocked.contains(r1)
            && forall|j: nat| 2 <= j < m ==> blocked.contains(#[trigger] numbered(base, j));
    let m2 = choose|m: nat| #![trigger numbered(base, m)]
        m >= 2 && r2 == numbered(base, m) && !blocked.contains(r2)
            && forall|j: nat| 2 <= j < m ==> blocked.contains(#[trigger] numbered(base, j));
    if m1 < m2 {
        assert(blocked.contains(numbered(base, m1)));
    } else if m2 < m1 {
        assert(blocked.contains(numbered(base, m2)));
    }
}

fn seen_count_exec(seen: &Vec<((String, String), u8)>, t: &str, k: &str) -> (n: u8)
    ensures
        n as nat == seen_count(seen_view(seen@), t@, k@),
{
    proof {
        lemma_key_at(seen_view(seen@), (t@, k@));
    }
    match position_of_pair(seen, t, k) {
        Some(i) => seen[i].1,
        None => 0,
    }
}

fn seen_type_exec(seen: &Vec<((String, String), u8)>, t: &str, Ghost(c0): Ghost<ConfigV>, Ghost(g): Ghost<Seq<Seq<char>>>) -> (b: bool)
    requires
        counts(seen_view(seen@), c0, g),
    ensures
        b == type_seen(c0, t@, g),
{
    let ghost sv = seen_view(seen@);
    let mut i: usize = 0;
    while i < seen.len()
        invariant
            i <= seen@.len(),
            sv == seen_view(seen@),
            counts(sv, c0, g),
            forall|j: int| 0 <= j < i ==> (#[trigger] sv[j]).0.0 != t@,
        decreases seen.len() - i,
    {
        assert(sv[i as int] == ((seen@[i as int].0.0@, seen@[i as int].0.1@), seen@[i as int].1));
        if str_eq(seen[i].0.0.as_str(), t) {
            proof {
                let k = sv[i as int].0.1;
                assert(sv[i as int].0 == (t@, k));
                lemma_key_at(sv, (t@, k));
                match key_at(sv, (t@, k)) {
                    Some(j) => {
                        assert(1 <= sv[j].1);
                    },
                    None => {
                        assert(sv[i as int].0 != (t@, k));
                    },
                }
                assert(seen_count(sv, t@, k) >= 1);
                assert(occ(c0, t@, k, g) >= 1);
            }
            return true;
        }
        i = i + 1;
    }
    proof {
        if type_seen(c0, t@, g) {
            let k = choose|k: Seq<char>| #[trigger] occ(c0, t@, k, g) >= 1;
            assert(seen_count(sv, t@, k) >= 1);
            lemma_key_at(sv, (t@, k));
        }
    }
    false
}

/// What a new name of type `t` must avoid: the names already given, and
/// every key the type uses.
fn blocked_for(tk: &Vec<(String, Vec<String>)>, seen: &Vec<((String, String), u8)>, t: &str,
    Ghost(c0): Ghost<ConfigV>, Ghost(g): Ghost<Seq<Seq<char>>>) -> (r: Vec<String>)
    requires
        counts(seen_view(seen@), c0, g),
    ensures
        crate::order::string_views(r@).to_set() == names_for(taken_view(tk@), t@).to_set().union(keys_used(c0, t@, g)),
{
    let ghost tv = taken_view(tk@);
    let ghost sv = seen_view(seen@);
    let mut r: Vec<String> = Vec::new();
    match position_of(tk, t) {
        Some(i) => {
            proof {
                lemma_key_at_is(tv, t@, i as int);
            }
            let mut j: usize = 0;
            while j < tk[i].1.len()
                invariant
                    i < tk@.len(),
                    j <= tk@[i as int].1@.len(),
                    crate::order::string_views(r@) == crate::order::string_views(tk@[i as int].1@).take(j as int),
                decreases tk@[i as int].1@.len() - j,
            {
                let ghost before = crate::order::string_views(r@);
                r.push(tk[i].1[j].clone());
                assert(crate::order::string_views(r@) =~= before.push(tk@[i as int].1@[j as int]@));
                assert(crate::order::string_views(tk@[i as int].1@).take(j + 1)
                    =~= crate::order::string_views(tk@[i as int].1@).take(j as int).push(tk@[i as int].1@[j as int]@));
                j = j + 1;
            }
            assert(crate::order::string_views(tk@[i as int].1@).take(tk@[i as int].1@.len() as int)
                =~= crate::order::string_views(tk@[i as int].1@));
        },
        None => {
            proof {
                lemma_key_at_none(tv, t@);
            }
            assert(crate::order::string_views(r@) =~= Seq::<Seq<char>>::empty());
        },
    }
    let ghost names = crate::order::string_views(r@);
    assert(names == names_for(tv, t@));
    let mut q: usize = 0;
    while q < seen.len()
        invariant
            q <= seen@.len(),
            sv == seen_view(seen@),
            counts(sv, c0, g),
            crate::order::string_views(r@).len() >= names.len(),
            crate::order::string_views(r@).take(names.len() as int) == names,
            forall|x: int| names.len() <= x < r@.len() ==> exists|j: int| 0 <= j < q && (#[trigger] r@[x])@ == sv[j].0.1 && sv[j].0.0 == t@,
            forall|j: int| 0 <= j < q && (#[trigger] sv[j]).0.0 == t@ ==> crate::order::string_views(r@).contains(sv[j].0.1),
        decreases seen.len() - q,
    {
        assert(sv[q as int] == ((seen@[q as int].0.0@, seen@[q as int].0.1@), seen@[q as int].1));
        if str_eq(seen[q].0.0.as_str(), t) {
            let ghost before = r@;
            r.push(seen[q].0.1.clone());
            proof {
                assert(crate::order::string_views(r@).take(names.len() as int) =~= crate::order::string_views(before).take(names.len() as int));
                assert(crate::order::string_views(r@)[r@.len() - 1] == sv[q as int].0.1);
                assert forall|j: int| 0 <= j < q + 1 && (#[trigger] sv[j]).0.0 == t@ implies crate::order::string_views(r@).contains(sv[j].0.1) by {
                    if j < q {
                        let x = choose|x: int| 0 <= x < before.len() && crate::order::string_views(before)[x] == sv[j].0.1;
                        assert(crate::order::string_views(r@)[x] == sv[j].0.1);
                    }
                }
                assert forall|x: int| names.len() <= x < r@.len() implies exists|j: int| 0 <= j < q + 1 && (#[trigger] r@[x])@ == sv[j].0.1 && sv[j].0.0 == t@ by {
                    if x < before.len() {
                        assert(r@[x] == before[x]);
                    }
                }
            }
        }
        q = q + 1;
    }
    proof {
        let rs = crate::order::string_views(r@);
        assert forall|k: Seq<char>| rs.to_set().contains(k) <==> names.to_set().union(keys_used(c0, t@, g)).contains(k) by {
            if rs.to_set().contains(k) {
                let x = choose|x: int| 0 <= x < rs.len() && rs[x] == k;
                if x < names.len() {
                    assert(rs.take(names.len() as int)[x] == k);
                    assert(names.contains(k));
                } else {
                    let j = choose|j: int| 0 <= j < seen@.len() && (#[trigger] r@[x])@ == sv[j].0.1 && sv[j].0.0 == t@;
                    assert(sv[j].0 == (t@, k));
                    lemma_key_at(sv, (t@, k));
                    match key_at(sv, (t@, k)) {
                        Some(j2) => {
                            assert(1 <= sv[j2].1);
                        },
                        None => {
                            assert(sv[j].0 != (t@, k));
                        },
                    }
                    assert(seen_count(sv, t@, k) >= 1);
                    assert(keys_used(c0, t@, g).contains(k));
                }
            }
            if names.contains(k) {
                let x = choose|x: int| 0 <= x < names.len() && names[x] == k;
                assert(rs.take(names.len() as int)[x] == k);
                assert(rs[x] == k);
            }
            if keys_used(c0, t@, g).contains(k) {
                assert(seen_count(sv, t@, k) >= 1);
                lemma_key_at(sv, (t@, k));
                let j = choose|j: int| key_at(sv, (t@, k)) == Some(j);
            }
        }
        assert(rs.to_set() =~= names.to_set().union(keys_used(c0, t@, g)));
    }
    r
}

fn listed_name(v: &Vec<String>, x: &str) -> (b: bool)
    ensures
        b == crate::order::string_views(v@).to_set().contains(x@),
{
    let b = listed(v.as_slice(), x);
    proof {
        if crate::order::string_views(v@).to_set().contains(x@) {
            assert(crate::order::string_views(v@).contains(x@));
        }
    }
    b
}

/// The name a shared key takes in `container`.
fn fresh_exec(container: &str, key: &str, blocked: &Vec<String>) -> (r: String)
    ensures
        r@ == fresh_name(container@ + "-"@ + key@, crate::order::string_views(blocked@).to_set()),
{
    let mut b = to_chars(container);
    b.push('-');
    push_str_chars(&mut b, key);
    proof {
        reveal_strlit("-");
    }
    assert(b@ =~= container@ + "-"@ + key@);
    let base = from_chars(&b);
    if !listed_name(blocked, base.as_str()) {
        base
    } else {
        let mut b2 = to_chars(base.as_str());
        b2.push('-');
        assert(b2@ =~= base@ + "-"@);
        let r = first_free_name(from_chars(&b2).as_str(), blocked);
        proof {
            let bs = crate::order::string_views(blocked@).to_set();
            let c = choose|x: Seq<char>| first_free(base@ + "-"@, bs, x);
            lemma_first_free_unique(base@ + "-"@, bs, r@, c);
        }
        r
    }
}

fn give_name_exec(tk: &mut Vec<(String, Vec<String>)>, t: &str, name: String)
    ensures
        taken_view(final(tk)@) == give_name(taken_view(old(tk)@), t@, name@),
{
    let ghost tv = taken_view(tk@);
    let ghost nv = name@;
    match position_of(tk, t) {
        Some(i) => {
            proof {
                lemma_key_at_is(tv, t@, i as int);
            }
            let (tn, mut names) = tk.remove(i);
            let ghost before = crate::order::string_views(names@);
            names.push(name);
            assert(crate::order::string_views(names@) =~= before.push(nv));
            tk.insert(i, (tn, names));
            assert(taken_view(tk@) =~= tv.update(i as int, (t@, tv[i as int].1.push(nv))));
        },
        None => {
            proof {
                lemma_key_at_none(tv, t@);
            }
            let mut names: Vec<String> = Vec::new();
            names.push(name);
            assert(crate::order::string_views(names@) =~= seq![nv]);
            tk.push((String::from_str(t), names));
            assert(taken_view(tk@) =~= tv.push((t@, seq![nv])));
        },
    }
}

fn qualify_map_exec(m: &mut Vec<(crate::yaml::Yaml, crate::yaml::Yaml)>, t: &str, container: &str,
    seen: &Vec<((String, String), u8)>, tk: &mut Vec<(String, Vec<String>)>, Ghost(c0): Ghost<ConfigV>, Ghost(g): Ghost<Seq<Seq<char>>>)
    requires
        counts(seen_view(seen@), c0, g),
    ensures
        (crate::yaml::entries_view(final(m)@), taken_view(final(tk)@)) == qualify_map(crate::yaml::entries_view(old(m)@), t@, container@, c0, g,
            taken_view(old(tk)@), old(m)@.len() as nat),
{
    let ghost mv = crate::yaml::entries_view(m@);
    let ghost tk0 = taken_view(tk@);
    proof {
        crate::yaml::lemma_entries_view(m@);
    }
    let mut keys: Vec<Option<String>> = Vec::new();
    let mut i: usize = 0;
    while i < m.len()
        invariant
            i <= m@.len(),
            mv == crate::yaml::entries_view(m@),
            mv.len() == m@.len(),
            forall|j: int| 0 <= j < m@.len() ==> #[trigger] mv[j] == (crate::yaml::yaml_view(m@[j].0), crate::yaml::yaml_view(m@[j].1)),
            keys@.len() == i,
            forall|j: int| 0 <= j < i ==> crate::yaml::str_of(crate::yaml::untagged(mv[j].0)) == match #[trigger] keys@[j] {
                Some(k) => Some(k@),
                None => None,
            },
        decreases m.len() - i,
    {
        let k = match crate::yaml::as_str(crate::yaml::untag(&m[i].0)) {
            Some(s) => Some(s.clone()),
            None => None,
        };
        keys.push(k);
        i = i + 1;
    }
    let n = m.len();
    let mut i: usize = 0;
    while i < n
        invariant
            i <= n,
            n == mv.len(),
            keys@.len() == n,
            forall|j: int| 0 <= j < n ==> crate::yaml::str_of(crate::yaml::untagged(mv[j].0)) == match #[trigger] keys@[j] {
                Some(k) => Some(k@),
                None => None,
            },
            counts(seen_view(seen@), c0, g),
            (crate::yaml::entries_view(m@), taken_view(tk@)) == qualify_map(mv, t@, container@, c0, g, tk0, i as nat),
        decreases n - i,
    {
        match &keys[i] {
            None => {},
            Some(key) => {
                let c = seen_count_exec(seen, t, key.as_str());
                if c >= 2 {
                    let blocked = blocked_for(tk, seen, t, Ghost(c0), Ghost(g));
                    let name = fresh_exec(container, key.as_str(), &blocked);
                    let ghost cur = crate::yaml::entries_view(m@);
                    proof {
                        crate::yaml::lemma_entries_view(m@);
                        crate::yaml::lemma_find_key(cur, crate::yaml::skey(key@));
                    }
                    match crate::yaml::find_str(m, key.as_str()) {
                        Some(j) => {
                            let v = crate::yaml::clone_yaml(&m[j].1);
                            crate::yaml::swap_remove_at(m, j);
                            crate::yaml::insert_at_key(m, crate::yaml::Yaml::Str(name.clone()), v);
                        },
                        None => {},
                    }
                    give_name_exec(tk, t, name);
                }
            },
        }
        i = i + 1;
    }
}

fn qualify_extra_exec(e: &mut Vec<(String, crate::yaml::Yaml)>, container: &str,
    seen: &Vec<((String, String), u8)>, tk: &mut Vec<(String, Vec<String>)>, Ghost(c0): Ghost<ConfigV>, Ghost(g): Ghost<Seq<Seq<char>>>)
    requires
        counts(seen_view(seen@), c0, g),
    ensures
        (typed_view(final(e)@), taken_view(final(tk)@)) == qualify_extra(typed_view(old(e)@), container@, c0, g, taken_view(old(tk)@),
            old(e)@.len() as nat),
{
    let ghost ev = typed_view(e@);
    let ghost tk0 = taken_view(tk@);
    let n = e.len();
    let mut i: usize = 0;
    while i < n
        invariant
            i <= n,
            n == ev.len(),
            e@.len() == n,
            forall|j: int| i <= j < n ==> #[trigger] e@[j] == old(e)@[j],
            ev == typed_view(old(e)@),
            counts(seen_view(seen@), c0, g),
            (typed_view(e@), taken_view(tk@)) == qualify_extra(ev, container@, c0, g, tk0, i as nat),
        decreases n - i,
    {
        let ghost cur = typed_view(e@);
        let ghost tki = taken_view(tk@);
        let ghost raw = e@;
        assert(ev[i as int] == (e@[i as int].0@, crate::yaml::yaml_view(e@[i as int].1)));
        assert(cur.len() == n);
        if seen_type_exec(seen, e[i].0.as_str(), Ghost(c0), Ghost(g)) {
            let (t, v) = e.remove(i);
            match v {
                crate::yaml::Yaml::Mapping(mut mm) => {
                    let ghost m0 = crate::yaml::entries_view(mm@);
                    proof {
                        crate::yaml::lemma_entries_view(mm@);
                    }
                    assert(ev[i as int].1 == crate::yaml::YamlV::Mapping(m0));
                    qualify_map_exec(&mut mm, t.as_str(), container, seen, tk, Ghost(c0), Ghost(g));
                    let ghost m2 = crate::yaml::entries_view(mm@);
                    e.insert(i, (t, crate::yaml::Yaml::Mapping(mm)));
                    assert(e@ =~= raw.update(i as int, e@[i as int]));
                    assert(typed_view(e@) =~= cur.update(i as int, (ev[i as int].0, crate::yaml::YamlV::Mapping(m2))));
                },
                other => {
                    assert(ev[i as int].1 == crate::yaml::yaml_view(other));
                    assert(!(crate::yaml::yaml_view(other) is Mapping));
                    e.insert(i, (t, other));
                    assert(e@ =~= raw);
                    assert(typed_view(e@) =~= cur);
                },
            }
        }
        i = i + 1;
    }
}

fn qualify_projects_exec(s: &mut Vec<(String, Project)>,
    seen: &Vec<((String, String), u8)>, tk: &mut Vec<(String, Vec<String>)>, Ghost(c0): Ghost<ConfigV>, Ghost(g): Ghost<Seq<Seq<char>>>)
    requires
        counts(seen_view(seen@), c0, g),
    ensures
        (projects_view(final(s)@), taken_view(final(tk)@)) == qualify_projects(projects_view(old(s)@), c0, g, taken_view(old(tk)@),
            old(s)@.len() as nat),
{
    let ghost pv = projects_view(s@);
    let ghost tk0 = taken_view(tk@);
    let n = s.len();
    let mut i: usize = 0;
    while i < n
        invariant
            i <= n,
            n == pv.len(),
            s@.len() == n,
            forall|j: int| i <= j < n ==> #[trigger] s@[j] == old(s)@[j],
            pv == projects_view(old(s)@),
            counts(seen_view(seen@), c0, g),
            (projects_view(s@), taken_view(tk@)) == qualify_projects(pv, c0, g, tk0, i as nat),
        decreases n - i,
    {
        let ghost before = projects_view(s@);
        let (name, mut p) = s.remove(i);
        assert(pv[i as int] == (name@, project_view(p)));
        let ghost p0 = project_view(p);
        qualify_extra_exec(&mut p.extra, name.as_str(), seen, tk, Ghost(c0), Ghost(g));
        let ghost e2 = typed_view(p.extra@);
        s.insert(i, (name, p));
        assert(project_view(s@[i as int].1) == ProjectV { extra: e2, ..p0 });
        assert(projects_view(s@) =~= before.update(i as int, (pv[i as int].0, ProjectV { extra: e2, ..p0 })));
        i = i + 1;
    }
}

fn qualify_folders_exec(v: &mut Vec<(String, Folder)>,
    seen: &Vec<((String, String), u8)>, tk: &mut Vec<(String, Vec<String>)>, Ghost(c0): Ghost<ConfigV>, Ghost(g): Ghost<Seq<Seq<char>>>)
    requires
        counts(seen_view(seen@), c0, g),
    ensures
        (folders_view(final(v)@), taken_view(final(tk)@)) == qualify_folders(folders_view(old(v)@), c0, g, taken_view(old(tk)@),
            old(v)@.len() as nat),
    decreases folders_view(old(v)@),
{
    let ghost fv = folders_view(v@);
    let ghost tk0 = taken_view(tk@);
    proof {
        lemma_folders_view(v@);
    }
    let n = v.len();
    let mut i: usize = 0;
    while i < n
        invariant
            i <= n,
            n == fv.len(),
            v@.len() == n,
            forall|j: int| i <= j < n ==> #[trigger] v@[j] == old(v)@[j],
            fv == folders_view(old(v)@),
            forall|j: int| 0 <= j < n ==> #[trigger] fv[j] == (old(v)@[j].0@, folder_view(old(v)@[j].1)),
            counts(seen_view(seen@), c0, g),
            (folders_view(v@), taken_view(tk@)) == qualify_folders(fv, c0, g, tk0, i as nat),
        decreases n - i,
    {
        let ghost before = folders_view(v@);
        proof {
            lemma_folders_view(v@);
        }
        let (name, f) = v.remove(i);
        proof {
            assert(fv[i as int] == (name@, folder_view(f)));
            assert(decreases_to!(fv => fv[i as int]));
            assert(decreases_to!(fv[i as int] => fv[i as int].1));
        }
        let f2 = qualify_folder_exec(f, name.as_str(), seen, tk, Ghost(c0), Ghost(g));
        let ghost f2v = folder_view(f2);
        v.insert(i, (name, f2));
        proof {
            lemma_folders_view(v@);
        }
        assert(folders_view(v@) =~= before.update(i as int, (fv[i as int].0, f2v)));
        i = i + 1;
    }
}

fn qualify_folder_exec(f: Folder, label: &str,
    seen: &Vec<((String, String), u8)>, tk: &mut Vec<(String, Vec<String>)>, Ghost(c0): Ghost<ConfigV>, Ghost(g): Ghost<Seq<Seq<char>>>) -> (r: Folder)
    requires
        counts(seen_view(seen@), c0, g),
    ensures
        (folder_view(r), taken_view(final(tk)@)) == qualify_folder(folder_view(f), label@, c0, g, taken_view(old(tk)@)),
    decreases folder_view(f),
{
    let ghost fv = folder_view(f);
    let ghost tk0 = taken_view(tk@);
    let mut f = f;
    qualify_extra_exec(&mut f.extra, label, seen, tk, Ghost(c0), Ghost(g));
    let ghost e2 = typed_view(f.extra@);
    let ghost tk1 = taken_view(tk@);
    assert((e2, tk1) == qualify_extra(fv.extra, label@, c0, g, tk0, fv.extra.len()));
    let subs = match f.folder {
        Some(v) => {
            let mut v = v;
            let ghost s = folders_view(v@);
            proof {
                assert(fv.folder == Some(s));
                assert(decreases_to!(fv => fv.folder));
                assert(decreases_to!(fv.folder => fv.folder->Some_0));
                lemma_folders_view(v@);
            }
            qualify_folders_exec(&mut v, seen, tk, Ghost(c0), Ghost(g));
            assert((folders_view(v@), taken_view(tk@)) == qualify_folders(s, c0, g, tk1, s.len()));
            Some(v)
        },
        None => {
            assert(fv.folder is None);
            None
        },
    };
    let ghost tk2 = taken_view(tk@);
    let ghost subs_v: Option<Seq<(Seq<char>, FolderV)>> = if subs is Some {
        Some(folders_view(subs->Some_0@))
    } else {
        None
    };
    assert((subs_v, tk2) == (match fv.folder {
        Some(s) => {
            let (s2, t2) = qualify_folders(s, c0, g, tk1, s.len());
            (Some(s2), t2)
        },
        None => (None, tk1),
    }));
    f.folder = subs;
    let projs = match f.project {
        Some(v) => {
            let mut v = v;
            let ghost s = projects_view(v@);
            assert(fv.project == Some(s));
            qualify_projects_exec(&mut v, seen, tk, Ghost(c0), Ghost(g));
            Some(v)
        },
        None => {
            assert(fv.project is None);
            None
        },
    };
    let ghost projs_v: Option<Seq<(Seq<char>, ProjectV)>> = if projs is Some {
        Some(projects_view(projs->Some_0@))
    } else {
        None
    };
    assert((projs_v, taken_view(tk@)) == (match fv.project {
        Some(s) => {
            let (s2, t3) = qualify_projects(s, c0, g, tk2, s.len());
            (Some(s2), t3)
        },
        None => (None, tk2),
    }));
    f.project = projs;
    assert(folder_view(f) == FolderV { extra: e2, folder: subs_v, project: projs_v, ..fv });
    f
}

/// Qualify every key two containers use under one type with its
/// container's name — `<container>-<key>`, numbered past any name already
/// taken. The organisation's own keys stay; so do grant maps (`grant_maps`),
/// whose keys are members, not addresses.
pub fn qualify_duplicate_keys(config: &mut Config, grant_maps: &[String])
    ensures
        config_view(*final(config)) == qualified(config_view(*old(config)), crate::order::string_views(grant_maps@)),
        final(config).terraform == old(config).terraform,
        final(config).providers == old(config).providers,
        final(config).org_policy_policy == old(config).org_policy_policy,
        final(config).google_organization_policy == old(config).google_organization_policy,
        final(config).organization_iam_member == old(config).organization_iam_member,
        final(config).billing_account_iam_member == old(config).billing_account_iam_member,
        final(config).extra == old(config).extra,
{
    let ghost c0 = config_view(*config);
    let ghost g = crate::order::string_views(grant_maps@);
    let seen = count_config(config, grant_maps);
    let mut any = false;
    let mut i: usize = 0;
    while i < seen.len()
        invariant_except_break
            !any,
            forall|j: int| 0 <= j < i ==> seen_count(seen_view(seen@), (#[trigger] seen_view(seen@)[j]).0.0, seen_view(seen@)[j].0.1) < 2,
        invariant
            i <= seen@.len(),
            counts(seen_view(seen@), c0, g),
        ensures
            any ==> i < seen@.len() && seen_count(seen_view(seen@), seen_view(seen@)[i as int].0.0, seen_view(seen@)[i as int].0.1) >= 2,
            !any ==> forall|j: int| 0 <= j < seen@.len() ==>
                seen_count(seen_view(seen@), (#[trigger] seen_view(seen@)[j]).0.0, seen_view(seen@)[j].0.1) < 2,
        decreases seen.len() - i,
    {
        assert(seen_view(seen@)[i as int].0 == (seen@[i as int].0.0@, seen@[i as int].0.1@));
        if seen_count_exec(&seen, seen[i].0.0.as_str(), seen[i].0.1.as_str()) >= 2 {
            any = true;
            break;
        }
        i = i + 1;
    }
    proof {
        let sv = seen_view(seen@);
        if any {
            let t = sv[i as int].0.0;
            let k = sv[i as int].0.1;
            assert(occ(c0, t, k, g) > 1);
        } else {
            assert forall|t: Seq<char>, k: Seq<char>| !(#[trigger] occ(c0, t, k, g) > 1) by {
                lemma_key_at(sv, (t, k));
                if occ(c0, t, k, g) > 1 {
                    assert(seen_count(sv, t, k) == 2);
                    match key_at(sv, (t, k)) {
                        Some(j) => {
                            assert(sv[j].0 == (t, k));
                            assert(seen_count(sv, sv[j].0.0, sv[j].0.1) < 2);
                        },
                        None => {},
                    }
                }
            }
        }
    }
    if !any {
        return;
    }
    let mut tk: Vec<(String, Vec<String>)> = Vec::new();
    assert(taken_view(tk@) =~= Seq::<(Seq<char>, Seq<Seq<char>>)>::empty());
    let folders = config.folder.take();
    match folders {
        Some(v) => {
            let mut v = v;
            let ghost s = folders_view(v@);
            assert(c0.folder == Some(s));
            proof {
                lemma_folders_view(v@);
            }
            qualify_folders_exec(&mut v, &seen, &mut tk, Ghost(c0), Ghost(g));
            assert((folders_view(v@), taken_view(tk@)) == qualify_folders(s, c0, g, seq![], s.len()));
            config.folder = Some(v);
        },
        None => {
            assert(c0.folder is None);
        },
    }
    let ghost tk1 = taken_view(tk@);
    assert((config_view(*config).folder, tk1) == (match c0.folder {
        Some(s) => {
            let (s2, t) = qualify_folders(s, c0, g, seq![], s.len());
            (Some(s2), t)
        },
        None => (None, seq![]),
    }));
    let projects = config.project.take();
    match projects {
        Some(v) => {
            let mut v = v;
            let ghost s = projects_view(v@);
            assert(c0.project == Some(s));
            qualify_projects_exec(&mut v, &seen, &mut tk, Ghost(c0), Ghost(g));
            config.project = Some(v);
        },
        None => {
            assert(c0.project is None);
        },
    }
    assert(config_view(*config).project == (match c0.project {
        Some(s) => Some(qualify_projects(s, c0, g, tk1, s.len()).0),
        None => None,
    }));
}

} // verus!
