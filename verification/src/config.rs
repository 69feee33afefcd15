//! The import configuration: one row per resource type, saying whether the
//! type is imported, how it is found in Cloud Asset Inventory, and how adopt
//! resolves a live object of it.

use vstd::prelude::*;
use vstd::string::*;
use crate::text::str_eq;
use crate::yaml::{entries_view, seq_view, yaml_view, Yaml, YamlV};

verus! {

/// One row of the import configuration.
#[derive(Debug, Clone)]
pub struct DiscoveryResourceConfig {
    pub description: String,
    pub import: bool,
    pub asset_type: Option<String>,
    pub content_type: Option<String>,
    pub exclude: Option<Vec<String>>,
    pub includes: Option<Vec<String>>,
    pub derive_yaml_key_from: Option<String>,
    pub deprecated: Option<bool>,
    /// Adoption rule for a type whose Terraform import id is user-chosen: a
    /// template over the emitted resource's attributes and resolved
    /// references, rendered offline.
    pub import_id: Option<String>,
    /// Adoption rule for a type whose id GCP assigns: the attributes to match
    /// a live asset on, under the resolved parent. Needs `asset_type`.
    pub match_on: Option<Vec<String>>,
    /// `managed`: a missing constraint must be activated before import.
    pub activate: Option<String>,
}

/// The import configuration: its rows by resource type, each type once.
#[derive(Debug, Clone)]
pub struct DiscoveryConfig {
    pub resource_types: Vec<(String, DiscoveryResourceConfig)>,
}

/// The first row of a resource type, by position.
pub open spec fn row_index(rows: Seq<(String, DiscoveryResourceConfig)>, t: Seq<char>) -> Option<int>
    decreases rows.len(),
{
    if rows.len() == 0 {
        None
    } else {
        match row_index(rows.drop_last(), t) {
            Some(i) => Some(i),
            None => if rows.last().0@ == t {
                Some(rows.len() - 1)
            } else {
                None
            },
        }
    }
}

/// The row of a resource type, when the configuration has one.
pub open spec fn row_of(c: DiscoveryConfig, t: Seq<char>) -> Option<DiscoveryResourceConfig> {
    match row_index(c.resource_types@, t) {
        Some(i) => Some(c.resource_types@[i].1),
        None => None,
    }
}

proof fn lemma_row_index(rows: Seq<(String, DiscoveryResourceConfig)>, t: Seq<char>)
    ensures
        match row_index(rows, t) {
            Some(i) => 0 <= i < rows.len() && rows[i].0@ == t && forall|j: int| 0 <= j < i ==> (#[trigger] rows[j]).0@ != t,
            None => forall|j: int| 0 <= j < rows.len() ==> (#[trigger] rows[j]).0@ != t,
        },
    decreases rows.len(),
{
    if rows.len() > 0 {
        lemma_row_index(rows.drop_last(), t);
        assert forall|j: int| 0 <= j < rows.len() - 1 implies #[trigger] rows[j] == rows.drop_last()[j] by {}
    }
}

impl DiscoveryConfig {
    /// Each resource type has one row.
    pub open spec fn well_formed(self) -> bool {
        forall|i: int, j: int| 0 <= i < j < self.resource_types@.len()
            ==> (#[trigger] self.resource_types@[i]).0@ != (#[trigger] self.resource_types@[j]).0@
    }

    /// The row of a resource type.
    pub fn get(&self, tf_type: &str) -> (r: Option<&DiscoveryResourceConfig>)
        ensures
            match r {
                Some(x) => row_of(*self, tf_type@) == Some(*x),
                None => row_of(*self, tf_type@) is None,
            },
    {
        proof {
            lemma_row_index(self.resource_types@, tf_type@);
        }
        let mut i: usize = 0;
        while i < self.resource_types.len()
            invariant
                i <= self.resource_types@.len(),
                forall|j: int| 0 <= j < i ==> (#[trigger] self.resource_types@[j]).0@ != tf_type@,
                match row_index(self.resource_types@, tf_type@) {
                    Some(k) => 0 <= k < self.resource_types@.len() && self.resource_types@[k].0@ == tf_type@
                        && forall|j: int| 0 <= j < k ==> (#[trigger] self.resource_types@[j]).0@ != tf_type@,
                    None => forall|j: int| 0 <= j < self.resource_types@.len() ==> (#[trigger] self.resource_types@[j]).0@ != tf_type@,
                },
            decreases self.resource_types.len() - i,
        {
            if str_eq(self.resource_types[i].0.as_str(), tf_type) {
                proof {
                    match row_index(self.resource_types@, tf_type@) {
                        Some(k) => {
                            if k < i {
                            } else if k > i {
                                assert(self.resource_types@[i as int].0@ != tf_type@);
                            }
                        },
                        None => {
                            assert(self.resource_types@[i as int].0@ != tf_type@);
                        },
                    }
                }
                return Some(&self.resource_types[i].1);
            }
            i = i + 1;
        }
        proof {
            match row_index(self.resource_types@, tf_type@) {
                Some(k) => {
                    assert(self.resource_types@[k].0@ == tf_type@);
                },
                None => {},
            }
        }
        None
    }
}

// ---------------------------------------------------------------------------
// A discovered estate
// ---------------------------------------------------------------------------

/// A discovered estate: the top-level blocks, the folders and projects with
/// what each holds, and every other resource type under its key. Each map
/// holds each key once.
#[derive(Debug)]
pub struct Config {
    pub terraform: Option<Yaml>,
    pub providers: Option<Vec<(String, Yaml)>>,
    pub org_policy_policy: Option<Vec<(String, Yaml)>>,
    pub google_organization_policy: Option<Vec<(String, Yaml)>>,
    pub organization_iam_member: Option<Vec<(String, Vec<Yaml>)>>,
    pub billing_account_iam_member: Option<Yaml>,
    pub folder: Option<Vec<(String, Folder)>>,
    pub project: Option<Vec<(String, Project)>>,
    /// Every other top-level key.
    pub extra: Vec<(String, Yaml)>,
}

/// A folder, with the folders and projects nested in it.
#[derive(Debug)]
pub struct Folder {
    pub import_id: Option<String>,
    pub import_id_comment: Option<String>,
    pub display_name: String,
    pub parent: Option<String>,
    pub folder: Option<Vec<(String, Folder)>>,
    pub project: Option<Vec<(String, Project)>>,
    /// The other resources in the folder, by type.
    pub extra: Vec<(String, Yaml)>,
}

/// A project.
#[derive(Debug)]
pub struct Project {
    pub import_id: Option<String>,
    pub import_id_comment: Option<String>,
    pub name: Option<String>,
    pub project_id: String,
    pub billing_account: Option<String>,
    pub labels: Option<Vec<(String, String)>>,
    pub tags: Option<Vec<String>>,
    pub deletion_policy: Option<String>,
    pub project_service: Option<Vec<Yaml>>,
    /// The other resources in the project, by type.
    pub extra: Vec<(String, Yaml)>,
}

/// A folder as the contracts see it.
pub struct FolderV {
    pub import_id: Option<Seq<char>>,
    pub import_id_comment: Option<Seq<char>>,
    pub display_name: Seq<char>,
    pub parent: Option<Seq<char>>,
    pub folder: Option<Seq<(Seq<char>, FolderV)>>,
    pub project: Option<Seq<(Seq<char>, ProjectV)>>,
    pub extra: Seq<(Seq<char>, YamlV)>,
}

/// A project as the contracts see it.
pub struct ProjectV {
    pub import_id: Option<Seq<char>>,
    pub import_id_comment: Option<Seq<char>>,
    pub name: Option<Seq<char>>,
    pub project_id: Seq<char>,
    pub billing_account: Option<Seq<char>>,
    pub labels: Option<Seq<(Seq<char>, Seq<char>)>>,
    pub tags: Option<Seq<Seq<char>>>,
    pub deletion_policy: Option<Seq<char>>,
    pub project_service: Option<Seq<YamlV>>,
    pub extra: Seq<(Seq<char>, YamlV)>,
}

pub open spec fn ostr(o: Option<String>) -> Option<Seq<char>> {
    match o {
        Some(s) => Some(s@),
        None => None,
    }
}

/// A map of resources by type, viewed.
pub open spec fn typed_view(v: Seq<(String, Yaml)>) -> Seq<(Seq<char>, YamlV)> {
    v.map_values(|p: (String, Yaml)| (p.0@, yaml_view(p.1)))
}

pub open spec fn project_view(p: Project) -> ProjectV {
    ProjectV {
        import_id: ostr(p.import_id),
        import_id_comment: ostr(p.import_id_comment),
        name: ostr(p.name),
        project_id: p.project_id@,
        billing_account: ostr(p.billing_account),
        labels: match p.labels {
            Some(l) => Some(l@.map_values(|q: (String, String)| (q.0@, q.1@))),
            None => None,
        },
        tags: match p.tags {
            Some(t) => Some(t@.map_values(|s: String| s@)),
            None => None,
        },
        deletion_policy: ostr(p.deletion_policy),
        project_service: match p.project_service {
            Some(s) => Some(seq_view(s@)),
            None => None,
        },
        extra: typed_view(p.extra@),
    }
}

pub open spec fn projects_view(v: Seq<(String, Project)>) -> Seq<(Seq<char>, ProjectV)> {
    v.map_values(|p: (String, Project)| (p.0@, project_view(p.1)))
}

pub open spec fn folder_view(f: Folder) -> FolderV
    decreases f,
{
    FolderV {
        import_id: ostr(f.import_id),
        import_id_comment: ostr(f.import_id_comment),
        display_name: f.display_name@,
        parent: ostr(f.parent),
        folder: match f.folder {
            Some(v) => Some(folders_view(v@)),
            None => None,
        },
        project: match f.project {
            Some(v) => Some(projects_view(v@)),
            None => None,
        },
        extra: typed_view(f.extra@),
    }
}

pub open spec fn folders_view(s: Seq<(String, Folder)>) -> Seq<(Seq<char>, FolderV)>
    decreases s,
{
    if s.len() == 0 {
        seq![]
    } else {
        folders_view(s.subrange(0, s.len() - 1)).push((s[s.len() - 1].0@, folder_view(s[s.len() - 1].1)))
    }
}

pub proof fn lemma_folders_view(s: Seq<(String, Folder)>)
    ensures
        folders_view(s).len() == s.len(),
        forall|i: int| 0 <= i < s.len() ==> #[trigger] folders_view(s)[i] == (s[i].0@, folder_view(s[i].1)),
    decreases s.len(),
{
    if s.len() > 0 {
        lemma_folders_view(s.subrange(0, s.len() - 1));
    }
}

/// The parts of an estate the key and grant passes read and rewrite.
pub struct ConfigV {
    pub extra: Seq<(Seq<char>, YamlV)>,
    pub folder: Option<Seq<(Seq<char>, FolderV)>>,
    pub project: Option<Seq<(Seq<char>, ProjectV)>>,
}

pub open spec fn config_view(c: Config) -> ConfigV {
    ConfigV {
        extra: typed_view(c.extra@),
        folder: match c.folder {
            Some(v) => Some(folders_view(v@)),
            None => None,
        },
        project: match c.project {
            Some(v) => Some(projects_view(v@)),
            None => None,
        },
    }
}

} // verus!
