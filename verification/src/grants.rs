//! Grants that two folders or projects of an imported estate both hold.
//!
//! A grant map is keyed by member, and its address is member and role: one
//! principal granted one role on two nodes would be written twice under one
//! address. Each such grant edge is found, and either reported or kept in the
//! map form on the first node that holds it, the others written as labelled
//! resources with a running number.

use vstd::prelude::*;
use crate::config::{Config, Folder, Project, ConfigV, FolderV, ProjectV, config_view, folder_view, folders_view,
    project_view, projects_view, typed_view, lemma_folders_view};
use crate::discovery::{key_at, lemma_key_at, lemma_key_at_is, lemma_key_at_none, lemma_key_at_push,
    lemma_key_at_update, first_free, numbered, grant_label_of, OnCollision, listed, lemma_first_free_unique};
use crate::order::{lex_lt, permutation_of, string_views, key_order, keys_of, string_keys, key_positions};
use crate::yaml::{Yaml, YamlV, yaml_view, entries_view, seq_view, untagged, str_of, skey, get, swap_remove_key,
    insert_key, lemma_entries_view, lemma_seq_view};

verus! {

/// A grant edge: type, member, role.
pub type Edge = (Seq<char>, Seq<char>, Seq<char>);

// ---------------------------------------------------------------------------
// Reading a grant entry
// ---------------------------------------------------------------------------

/// The role a grant entry names: the entry itself where it is a string, its
/// `role` where it is a mapping.
pub open spec fn role_of(v: YamlV) -> Option<Seq<char>> {
    match untagged(v) {
        YamlV::Str(s) => Some(s),
        YamlV::Mapping(m) => match get(m, skey("role"@)) {
            Some(r) => str_of(untagged(r)),
            None => None,
        },
        _ => None,
    }
}

/// The import id a grant entry carries in its object form.
pub open spec fn import_id_of(v: YamlV) -> Option<Seq<char>> {
    match untagged(v) {
        YamlV::Mapping(m) => match get(m, skey("import-id"@)) {
            Some(r) => str_of(untagged(r)),
            None => None,
        },
        _ => None,
    }
}

// ---------------------------------------------------------------------------
// The order nodes are visited in
// ---------------------------------------------------------------------------

/// A node's path: its key under the organisation, else its parent's path, `/`
/// and its key.
pub open spec fn path_for(parent: Option<Seq<char>>, k: Seq<char>) -> Seq<char> {
    match parent {
        Some(p) => p + "/"@ + k,
        None => k,
    }
}

// ---------------------------------------------------------------------------
// Pass one: every edge with the nodes that hold it
// ---------------------------------------------------------------------------

/// What the first pass finds: each edge with the nodes that hold it, in the
/// order they are visited (a node once per time it lists the edge), and the
/// labels already taken per type (a member key whose value is no list).
pub struct Seen {
    pub sites: Seq<(Edge, Seq<Seq<char>>)>,
    pub taken: Set<(Seq<char>, Seq<char>)>,
}

pub open spec fn add_site(s: Seq<(Edge, Seq<Seq<char>>)>, e: Edge, node: Seq<char>) -> Seq<(Edge, Seq<Seq<char>>)> {
    match key_at(s, e) {
        Some(i) => s.update(i, (e, s[i].1.push(node))),
        None => s.push((e, seq![node])),
    }
}

/// The first `n` roles of one member.
pub open spec fn see_roles(roles: Seq<YamlV>, t: Seq<char>, member: Seq<char>, node: Seq<char>, acc: Seen, n: nat) -> Seen
    decreases n,
{
    if n == 0 || n > roles.len() {
        acc
    } else {
        let a = see_roles(roles, t, member, node, acc, (n - 1) as nat);
        match role_of(roles[n - 1]) {
            Some(r) => Seen { sites: add_site(a.sites, (t, member, r), node), taken: a.taken },
            None => a,
        }
    }
}

/// The first `n` entries of a grant map of type `t`.
pub open spec fn see_entries(m: Seq<(YamlV, YamlV)>, t: Seq<char>, node: Seq<char>, acc: Seen, n: nat) -> Seen
    decreases n,
{
    if n == 0 || n > m.len() {
        acc
    } else {
        let a = see_entries(m, t, node, acc, (n - 1) as nat);
        match str_of(untagged(m[n - 1].0)) {
            None => a,
            Some(member) => match m[n - 1].1 {
                YamlV::Sequence(roles) => see_roles(roles, t, member, node, a, roles.len()),
                _ => Seen { sites: a.sites, taken: a.taken.insert((t, member)) },
            },
        }
    }
}

/// The first `n` resource types of a node; only grant maps (`g`) count.
pub open spec fn see_extra(e: Seq<(Seq<char>, YamlV)>, node: Seq<char>, g: Seq<Seq<char>>, acc: Seen, n: nat) -> Seen
    decreases n,
{
    if n == 0 || n > e.len() {
        acc
    } else {
        let a = see_extra(e, node, g, acc, (n - 1) as nat);
        if !g.contains(e[n - 1].0) {
            a
        } else {
            match untagged(e[n - 1].1) {
                YamlV::Mapping(m) => see_entries(m, e[n - 1].0, node, a, m.len()),
                _ => a,
            }
        }
    }
}

/// A folder, then its folders, then its projects, siblings by key.
pub open spec fn see_folder(path: Seq<char>, f: FolderV, g: Seq<Seq<char>>, acc: Seen) -> Seen
    decreases f, 0int,
{
    let a1 = see_extra(f.extra, path, g, acc, f.extra.len());
    let a2 = match f.folder {
        Some(s) => see_folders(Some(path), s, g, a1, s.len()),
        None => a1,
    };
    match f.project {
        Some(s) => see_projects(Some(path), s, g, a2, s.len()),
        None => a2,
    }
}

/// The first `n` folders of `s` in key order.
pub open spec fn see_folders(parent: Option<Seq<char>>, s: Seq<(Seq<char>, FolderV)>, g: Seq<Seq<char>>, acc: Seen, n: nat) -> Seen
    decreases s, n,
{
    if n == 0 || n > s.len() {
        acc
    } else {
        let a = see_folders(parent, s, g, acc, (n - 1) as nat);
        let i = key_order(keys_of(s))[n - 1];
        if 0 <= i < s.len() {
            see_folder(path_for(parent, s[i].0), s[i].1, g, a)
        } else {
            a
        }
    }
}

/// The first `n` projects of `s` in key order.
pub open spec fn see_projects(parent: Option<Seq<char>>, s: Seq<(Seq<char>, ProjectV)>, g: Seq<Seq<char>>, acc: Seen, n: nat) -> Seen
    decreases n,
{
    if n == 0 || n > s.len() {
        acc
    } else {
        let a = see_projects(parent, s, g, acc, (n - 1) as nat);
        let i = key_order(keys_of(s))[n - 1];
        if 0 <= i < s.len() {
            see_extra(s[i].1.extra, path_for(parent, s[i].0), g, a, s[i].1.extra.len())
        } else {
            a
        }
    }
}

/// The estate's folders, then its projects.
pub open spec fn see_config(c: ConfigV, g: Seq<Seq<char>>) -> Seen {
    let a0 = Seen { sites: seq![], taken: Set::empty() };
    let a1 = match c.folder {
        Some(s) => see_folders(None, s, g, a0, s.len()),
        None => a0,
    };
    match c.project {
        Some(s) => see_projects(None, s, g, a1, s.len()),
        None => a1,
    }
}

/// An edge held more than once, with the node that holds it first.
pub open spec fn first_node(sites: Seq<(Edge, Seq<Seq<char>>)>, e: Edge) -> Option<Seq<char>> {
    match key_at(sites, e) {
        Some(i) => if sites[i].1.len() > 1 { Some(sites[i].1[0]) } else { None },
        None => None,
    }
}

pub open spec fn colliding(sites: Seq<(Edge, Seq<Seq<char>>)>, e: Edge) -> bool {
    first_node(sites, e) is Some
}

pub open spec fn any_colliding(sites: Seq<(Edge, Seq<Seq<char>>)>) -> bool {
    exists|e: Edge| #[trigger] colliding(sites, e)
}

// ---------------------------------------------------------------------------
// Pass two: the first node keeps an edge, the others write it labelled
// ---------------------------------------------------------------------------

/// What the second pass carries from node to node: the labels taken per type,
/// and a note per edge rewritten.
pub struct Resolving {
    pub taken: Set<(Seq<char>, Seq<char>)>,
    pub notes: Seq<Seq<char>>,
}

/// A role of `member` on `node` that another node holds first.
pub open spec fn moves(r: YamlV, t: Seq<char>, member: Seq<char>, node: Seq<char>, sites: Seq<(Edge, Seq<Seq<char>>)>) -> bool {
    match role_of(r) {
        Some(role) => match first_node(sites, (t, member, role)) {
            Some(first) => first != node,
            None => false,
        },
        None => false,
    }
}

/// The first `n` roles, those that stay.
pub open spec fn kept_roles(roles: Seq<YamlV>, t: Seq<char>, member: Seq<char>, node: Seq<char>,
    sites: Seq<(Edge, Seq<Seq<char>>)>, n: nat) -> Seq<YamlV>
    decreases n,
{
    if n == 0 || n > roles.len() {
        seq![]
    } else {
        let k = kept_roles(roles, t, member, node, sites, (n - 1) as nat);
        if moves(roles[n - 1], t, member, node, sites) { k } else { k.push(roles[n - 1]) }
    }
}

/// The first `n` roles, those that move.
pub open spec fn moved_roles(roles: Seq<YamlV>, t: Seq<char>, member: Seq<char>, node: Seq<char>,
    sites: Seq<(Edge, Seq<Seq<char>>)>, n: nat) -> Seq<YamlV>
    decreases n,
{
    if n == 0 || n > roles.len() {
        seq![]
    } else {
        let k = moved_roles(roles, t, member, node, sites, (n - 1) as nat);
        if moves(roles[n - 1], t, member, node, sites) { k.push(roles[n - 1]) } else { k }
    }
}

/// The labels type `t` has taken.
pub open spec fn labels_of(taken: Set<(Seq<char>, Seq<char>)>, t: Seq<char>) -> Set<Seq<char>> {
    Set::new(|l: Seq<char>| taken.contains((t, l)))
}

/// The first of `<base>_2`, `<base>_3`, … not blocked.
pub open spec fn label_for(base: Seq<char>, blocked: Set<Seq<char>>) -> Seq<char> {
    choose|r: Seq<char>| first_free(base + "_"@, blocked, r)
}

pub open spec fn note_of(member: Seq<char>, role: Seq<char>, node: Seq<char>, t: Seq<char>, label: Seq<char>,
    first: Seq<char>) -> Seq<char> {
    "import: "@ + member + " "@ + role + " on "@ + node + " is written as "@ + t + "."@ + label + " — "@ + first
        + " holds the same grant, and the map form has one address per member and role"@
}

/// A labelled grant: its import id where it had one, its role and member.
pub open spec fn body_of(role: Seq<char>, member: Seq<char>, id: Option<Seq<char>>) -> YamlV {
    YamlV::Mapping(match id {
        Some(i) => seq![(skey("import-id"@), YamlV::Str(i))],
        None => Seq::<(YamlV, YamlV)>::empty(),
    } + seq![(skey("role"@), YamlV::Str(role)), (skey("member"@), YamlV::Str(member))])
}

/// The first `n` moved roles of one member, each given a label.
pub open spec fn place_all(moved: Seq<YamlV>, t: Seq<char>, member: Seq<char>, node: Seq<char>,
    sites: Seq<(Edge, Seq<Seq<char>>)>, ins: Seq<(Seq<char>, YamlV)>, st: Resolving, n: nat)
    -> (Seq<(Seq<char>, YamlV)>, Resolving)
    decreases n,
{
    if n == 0 || n > moved.len() {
        (ins, st)
    } else {
        let (ins1, st1) = place_all(moved, t, member, node, sites, ins, st, (n - 1) as nat);
        let r = moved[n - 1];
        let role = role_of(r)->Some_0;
        let first = first_node(sites, (t, member, role))->Some_0;
        let label = label_for(grant_label_of(role, member), labels_of(st1.taken, t));
        (ins1.push((label, body_of(role, member, import_id_of(r)))),
            Resolving { taken: st1.taken.insert((t, label)), notes: st1.notes.push(note_of(member, role, node, t, label, first)) })
    }
}

/// The first `n` entries of a grant map, walked: each member's list with the
/// moved roles taken out, the labelled grants to add, the members left with
/// no role.
pub open spec fn walk_entries(m: Seq<(YamlV, YamlV)>, t: Seq<char>, node: Seq<char>, sites: Seq<(Edge, Seq<Seq<char>>)>,
    st: Resolving, n: nat) -> (Seq<(YamlV, YamlV)>, Seq<(Seq<char>, YamlV)>, Seq<YamlV>, Resolving)
    decreases n,
{
    if n == 0 || n > m.len() {
        (m, seq![], seq![], st)
    } else {
        let (cur, ins, emptied, st1) = walk_entries(m, t, node, sites, st, (n - 1) as nat);
        let k = m[n - 1].0;
        match (str_of(untagged(k)), m[n - 1].1) {
            (Some(member), YamlV::Sequence(roles)) => {
                let kept = kept_roles(roles, t, member, node, sites, roles.len());
                let moved = moved_roles(roles, t, member, node, sites, roles.len());
                let (ins2, st2) = place_all(moved, t, member, node, sites, ins, st1, moved.len());
                (cur.update(n - 1, (k, YamlV::Sequence(kept))), ins2, if kept.len() == 0 { emptied.push(k) } else { emptied }, st2)
            },
            _ => (cur, ins, emptied, st1),
        }
    }
}

/// The first `n` keys of `ks` removed, each as `remove` takes it out.
pub open spec fn remove_all(m: Seq<(YamlV, YamlV)>, ks: Seq<YamlV>, n: nat) -> Seq<(YamlV, YamlV)>
    decreases n,
{
    if n == 0 || n > ks.len() {
        m
    } else {
        swap_remove_key(remove_all(m, ks, (n - 1) as nat), ks[n - 1])
    }
}

/// The first `n` labelled grants inserted.
pub open spec fn insert_all(m: Seq<(YamlV, YamlV)>, ins: Seq<(Seq<char>, YamlV)>, n: nat) -> Seq<(YamlV, YamlV)>
    decreases n,
{
    if n == 0 || n > ins.len() {
        m
    } else {
        insert_key(insert_all(m, ins, (n - 1) as nat), skey(ins[n - 1].0), ins[n - 1].1)
    }
}

/// A grant map of type `t` on `node`, resolved.
pub open spec fn resolved_map(m: Seq<(YamlV, YamlV)>, t: Seq<char>, node: Seq<char>, sites: Seq<(Edge, Seq<Seq<char>>)>,
    st: Resolving) -> (Seq<(YamlV, YamlV)>, Resolving) {
    let (cur, ins, emptied, st2) = walk_entries(m, t, node, sites, st, m.len());
    (insert_all(remove_all(cur, emptied, emptied.len()), ins, ins.len()), st2)
}

/// `v` with the mapping under its tags replaced by `m2`.
pub open spec fn with_map(v: YamlV, m2: Seq<(YamlV, YamlV)>) -> YamlV
    decreases v,
{
    match v {
        YamlV::Tagged(tag, b) => YamlV::Tagged(tag, Box::new(with_map(*b, m2))),
        YamlV::Mapping(_) => YamlV::Mapping(m2),
        _ => v,
    }
}

/// The first `n` resource types of a node, resolved.
pub open spec fn resolve_extra(e: Seq<(Seq<char>, YamlV)>, node: Seq<char>, g: Seq<Seq<char>>,
    sites: Seq<(Edge, Seq<Seq<char>>)>, st: Resolving, n: nat) -> (Seq<(Seq<char>, YamlV)>, Resolving)
    decreases n,
{
    if n == 0 || n > e.len() {
        (e, st)
    } else {
        let (cur, st1) = resolve_extra(e, node, g, sites, st, (n - 1) as nat);
        let t = e[n - 1].0;
        if !g.contains(t) {
            (cur, st1)
        } else {
            match untagged(e[n - 1].1) {
                YamlV::Mapping(m) => {
                    let (m2, st2) = resolved_map(m, t, node, sites, st1);
                    (cur.update(n - 1, (t, with_map(e[n - 1].1, m2))), st2)
                },
                _ => (cur, st1),
            }
        }
    }
}

pub open spec fn resolve_folder(path: Seq<char>, f: FolderV, g: Seq<Seq<char>>, sites: Seq<(Edge, Seq<Seq<char>>)>,
    st: Resolving) -> (FolderV, Resolving)
    decreases f, 0int,
{
    let (e2, st1) = resolve_extra(f.extra, path, g, sites, st, f.extra.len());
    let (subs, st2) = match f.folder {
        Some(s) => {
            let (s2, t2) = resolve_folders(Some(path), s, g, sites, st1, s.len());
            (Some(s2), t2)
        },
        None => (None, st1),
    };
    let (projs, st3) = match f.project {
        Some(s) => {
            let (s2, t3) = resolve_projects(Some(path), s, g, sites, st2, s.len());
            (Some(s2), t3)
        },
        None => (None, st2),
    };
    (FolderV { extra: e2, folder: subs, project: projs, ..f }, st3)
}

pub open spec fn resolve_folders(parent: Option<Seq<char>>, s: Seq<(Seq<char>, FolderV)>, g: Seq<Seq<char>>,
    sites: Seq<(Edge, Seq<Seq<char>>)>, st: Resolving, n: nat) -> (Seq<(Seq<char>, FolderV)>, Resolving)
    decreases s, n,
{
    if n == 0 || n > s.len() {
        (s, st)
    } else {
        let (cur, st1) = resolve_folders(parent, s, g, sites, st, (n - 1) as nat);
        let i = key_order(keys_of(s))[n - 1];
        if 0 <= i < s.len() {
            let (f2, st2) = resolve_folder(path_for(parent, s[i].0), s[i].1, g, sites, st1);
            (cur.update(i, (s[i].0, f2)), st2)
        } else {
            (cur, st1)
        }
    }
}

pub open spec fn resolve_projects(parent: Option<Seq<char>>, s: Seq<(Seq<char>, ProjectV)>, g: Seq<Seq<char>>,
    sites: Seq<(Edge, Seq<Seq<char>>)>, st: Resolving, n: nat) -> (Seq<(Seq<char>, ProjectV)>, Resolving)
    decreases n,
{
    if n == 0 || n > s.len() {
        (s, st)
    } else {
        let (cur, st1) = resolve_projects(parent, s, g, sites, st, (n - 1) as nat);
        let i = key_order(keys_of(s))[n - 1];
        if 0 <= i < s.len() {
            let p = s[i].1;
            let (e2, st2) = resolve_extra(p.extra, path_for(parent, s[i].0), g, sites, st1, p.extra.len());
            (cur.update(i, (s[i].0, ProjectV { extra: e2, ..p })), st2)
        } else {
            (cur, st1)
        }
    }
}

/// The estate with every colliding edge resolved, and the notes.
pub open spec fn resolve_config(c: ConfigV, g: Seq<Seq<char>>, seen: Seen) -> (ConfigV, Seq<Seq<char>>) {
    let st0 = Resolving { taken: seen.taken, notes: seq![] };
    let (fs, st1) = match c.folder {
        Some(s) => {
            let (s2, t) = resolve_folders(None, s, g, seen.sites, st0, s.len());
            (Some(s2), t)
        },
        None => (None, st0),
    };
    let (ps, st2) = match c.project {
        Some(s) => {
            let (s2, t) = resolve_projects(None, s, g, seen.sites, st1, s.len());
            (Some(s2), t)
        },
        None => (None, st1),
    };
    (ConfigV { folder: fs, project: ps, ..c }, st2.notes)
}

// ---------------------------------------------------------------------------
// Pass one, executed
// ---------------------------------------------------------------------------

pub open spec fn sites_view(v: Seq<((String, String, String), Vec<String>)>) -> Seq<(Edge, Seq<Seq<char>>)> {
    v.map_values(|p: ((String, String, String), Vec<String>)| ((p.0.0@, p.0.1@, p.0.2@), string_views(p.1@)))
}

pub open spec fn taken_set(v: Seq<(String, String)>) -> Set<(Seq<char>, Seq<char>)> {
    v.map_values(|p: (String, String)| (p.0@, p.1@)).to_set()
}

pub open spec fn seen_of(sites: Seq<((String, String, String), Vec<String>)>, taken: Seq<(String, String)>) -> Seen {
    Seen { sites: sites_view(sites), taken: taken_set(taken) }
}

proof fn lemma_push_to_set<A>(s: Seq<A>, x: A)
    ensures
        s.push(x).to_set() == s.to_set().insert(x),
{
    assert forall|y: A| s.push(x).to_set().contains(y) <==> s.to_set().insert(x).contains(y) by {
        if s.push(x).contains(y) {
            let i = choose|i: int| 0 <= i < s.len() + 1 && s.push(x)[i] == y;
            if i < s.len() {
                assert(s[i] == y);
            }
        }
        if s.contains(y) {
            let i = choose|i: int| 0 <= i < s.len() && s[i] == y;
            assert(s.push(x)[i] == y);
        }
        if y == x {
            assert(s.push(x)[s.len() as int] == x);
        }
    }
    assert(s.push(x).to_set() =~= s.to_set().insert(x));
}

fn edge_position(sites: &Vec<((String, String, String), Vec<String>)>, t: &str, m: &str, r: &str) -> (p: Option<usize>)
    ensures
        match p {
            Some(i) => key_at(sites_view(sites@), (t@, m@, r@)) == Some(i as int),
            None => key_at(sites_view(sites@), (t@, m@, r@)) is None,
        },
{
    let ghost sv = sites_view(sites@);
    let mut i: usize = 0;
    while i < sites.len()
        invariant
            i <= sites@.len(),
            sv == sites_view(sites@),
            forall|j: int| 0 <= j < i ==> (#[trigger] sv[j]).0 != (t@, m@, r@),
        decreases sites.len() - i,
    {
        assert(sv[i as int].0 == (sites@[i as int].0.0@, sites@[i as int].0.1@, sites@[i as int].0.2@));
        if crate::text::str_eq(sites[i].0.0.as_str(), t) && crate::text::str_eq(sites[i].0.1.as_str(), m)
            && crate::text::str_eq(sites[i].0.2.as_str(), r) {
            proof {
                lemma_key_at_is(sv, (t@, m@, r@), i as int);
            }
            return Some(i);
        }
        i = i + 1;
    }
    proof {
        lemma_key_at_none(sv, (t@, m@, r@));
    }
    None
}

fn add_site_exec(sites: &mut Vec<((String, String, String), Vec<String>)>, t: &str, m: &str, r: &str, node: &str)
    ensures
        sites_view(final(sites)@) == add_site(sites_view(old(sites)@), (t@, m@, r@), node@),
{
    let ghost sv = sites_view(sites@);
    proof {
        lemma_key_at(sv, (t@, m@, r@));
    }
    match edge_position(sites, t, m, r) {
        Some(i) => {
            let (e, mut nodes) = sites.remove(i);
            let ghost before = string_views(nodes@);
            nodes.push(String::from_str(node));
            assert(string_views(nodes@) =~= before.push(node@));
            sites.insert(i, (e, nodes));
            assert(sites_view(sites@) =~= sv.update(i as int, ((t@, m@, r@), sv[i as int].1.push(node@))));
        },
        None => {
            let mut nodes: Vec<String> = Vec::new();
            nodes.push(String::from_str(node));
            assert(string_views(nodes@) =~= seq![node@]);
            sites.push(((String::from_str(t), String::from_str(m), String::from_str(r)), nodes));
            assert(sites_view(sites@) =~= sv.push(((t@, m@, r@), seq![node@])));
        },
    }
}

/// The role a grant entry names.
fn role_exec(v: &Yaml) -> (r: Option<String>)
    ensures
        match r {
            Some(s) => role_of(yaml_view(*v)) == Some(s@),
            None => role_of(yaml_view(*v)) is None,
        },
{
    let u = crate::yaml::untag(v);
    match u {
        Yaml::Str(s) => Some(s.clone()),
        Yaml::Mapping(m) => {
            proof {
                reveal_strlit("role");
            }
            match crate::yaml::get_str(m, "role") {
                Some(x) => match crate::yaml::as_str(crate::yaml::untag(x)) {
                    Some(s) => Some(s.clone()),
                    None => None,
                },
                None => None,
            }
        },
        _ => None,
    }
}

/// The import id a grant entry carries.
fn import_id_exec(v: &Yaml) -> (r: Option<String>)
    ensures
        match r {
            Some(s) => import_id_of(yaml_view(*v)) == Some(s@),
            None => import_id_of(yaml_view(*v)) is None,
        },
{
    let u = crate::yaml::untag(v);
    match u {
        Yaml::Mapping(m) => {
            match crate::yaml::get_str(m, "import-id") {
                Some(x) => match crate::yaml::as_str(crate::yaml::untag(x)) {
                    Some(s) => Some(s.clone()),
                    None => None,
                },
                None => None,
            }
        },
        _ => None,
    }
}

fn see_roles_exec(roles: &Vec<Yaml>, t: &str, member: &str, node: &str,
    sites: &mut Vec<((String, String, String), Vec<String>)>, taken: &Vec<(String, String)>)
    ensures
        seen_of(final(sites)@, taken@) == see_roles(seq_view(roles@), t@, member@, node@, seen_of(old(sites)@, taken@), roles@.len() as nat),
{
    let ghost rv = seq_view(roles@);
    let ghost a0 = seen_of(sites@, taken@);
    proof {
        lemma_seq_view(roles@);
    }
    let mut i: usize = 0;
    while i < roles.len()
        invariant
            i <= roles@.len(),
            rv == seq_view(roles@),
            rv.len() == roles@.len(),
            forall|j: int| 0 <= j < roles@.len() ==> #[trigger] rv[j] == yaml_view(roles@[j]),
            seen_of(sites@, taken@) == see_roles(rv, t@, member@, node@, a0, i as nat),
        decreases roles.len() - i,
    {
        match role_exec(&roles[i]) {
            Some(r) => {
                add_site_exec(sites, t, member, r.as_str(), node);
            },
            None => {},
        }
        i = i + 1;
    }
}

fn see_entries_exec(m: &Vec<(Yaml, Yaml)>, t: &str, node: &str,
    sites: &mut Vec<((String, String, String), Vec<String>)>, taken: &mut Vec<(String, String)>)
    ensures
        seen_of(final(sites)@, final(taken)@) == see_entries(entries_view(m@), t@, node@, seen_of(old(sites)@, old(taken)@),
            m@.len() as nat),
{
    let ghost mv = entries_view(m@);
    let ghost a0 = seen_of(sites@, taken@);
    proof {
        lemma_entries_view(m@);
    }
    let mut i: usize = 0;
    while i < m.len()
        invariant
            i <= m@.len(),
            mv == entries_view(m@),
            mv.len() == m@.len(),
            forall|j: int| 0 <= j < m@.len() ==> #[trigger] mv[j] == (yaml_view(m@[j].0), yaml_view(m@[j].1)),
            seen_of(sites@, taken@) == see_entries(mv, t@, node@, a0, i as nat),
        decreases m.len() - i,
    {
        assert(mv[i as int] == (yaml_view(m@[i as int].0), yaml_view(m@[i as int].1)));
        match crate::yaml::as_str(crate::yaml::untag(&m[i].0)) {
            None => {},
            Some(member) => {
                match &m[i].1 {
                    Yaml::Sequence(roles) => {
                        proof {
                            lemma_seq_view(roles@);
                        }
                        see_roles_exec(roles, t, member.as_str(), node, sites, taken);
                    },
                    _ => {
                        let ghost tv = taken@;
                        taken.push((String::from_str(t), member.clone()));
                        assert(taken@.map_values(|p: (String, String)| (p.0@, p.1@)) =~= tv.map_values(
                            |p: (String, String)| (p.0@, p.1@)).push((t@, member@)));
                        proof {
                            lemma_push_to_set(tv.map_values(|p: (String, String)| (p.0@, p.1@)), (t@, member@));
                        }
                    },
                }
            },
        }
        i = i + 1;
    }
}

fn see_extra_exec(e: &Vec<(String, Yaml)>, node: &str, g: &[String],
    sites: &mut Vec<((String, String, String), Vec<String>)>, taken: &mut Vec<(String, String)>)
    ensures
        seen_of(final(sites)@, final(taken)@) == see_extra(typed_view(e@), node@, string_views(g@),
            seen_of(old(sites)@, old(taken)@), e@.len() as nat),
{
    let ghost ev = typed_view(e@);
    let ghost gv = string_views(g@);
    let ghost a0 = seen_of(sites@, taken@);
    let mut i: usize = 0;
    while i < e.len()
        invariant
            i <= e@.len(),
            ev == typed_view(e@),
            gv == string_views(g@),
            seen_of(sites@, taken@) == see_extra(ev, node@, gv, a0, i as nat),
        decreases e.len() - i,
    {
        assert(ev[i as int] == (e@[i as int].0@, yaml_view(e@[i as int].1)));
        if listed(g, e[i].0.as_str()) {
            match crate::yaml::untag(&e[i].1) {
                Yaml::Mapping(m) => {
                    proof {
                        lemma_entries_view(m@);
                    }
                    see_entries_exec(m, e[i].0.as_str(), node, sites, taken);
                },
                _ => {},
            }
        }
        i = i + 1;
    }
}

proof fn lemma_folder_keys(v: Seq<(String, Folder)>)
    ensures
        keys_of(folders_view(v)) == string_keys(v),
        folders_view(v).len() == v.len(),
{
    lemma_folders_view(v);
    assert(keys_of(folders_view(v)) =~= string_keys(v));
}

proof fn lemma_project_keys(v: Seq<(String, Project)>)
    ensures
        keys_of(projects_view(v)) == string_keys(v),
{
    assert(keys_of(projects_view(v)) =~= string_keys(v));
}

/// The path of the entry keyed `k`.
fn path_exec(parent: &str, top: bool, k: &str) -> (r: String)
    ensures
        r@ == path_for(if top { None } else { Some(parent@) }, k@),
{
    if top {
        String::from_str(k)
    } else {
        proof {
            reveal_strlit("/");
        }
        let a = crate::text::concat(parent, "/");
        crate::text::concat(a.as_str(), k)
    }
}

fn see_projects_exec(parent: &str, top: bool, v: &Vec<(String, Project)>, g: &[String],
    sites: &mut Vec<((String, String, String), Vec<String>)>, taken: &mut Vec<(String, String)>)
    ensures
        seen_of(final(sites)@, final(taken)@) == see_projects(if top { None } else { Some(parent@) }, projects_view(v@),
            string_views(g@), seen_of(old(sites)@, old(taken)@), v@.len() as nat),
{
    let ghost pv = projects_view(v@);
    let ghost par = if top { None } else { Some(parent@) };
    let ghost a0 = seen_of(sites@, taken@);
    let ord = key_positions(v);
    proof {
        lemma_project_keys(v@);
    }
    let ghost ko = key_order(keys_of(pv));
    let mut j: usize = 0;
    while j < ord.len()
        invariant
            j <= ord@.len(),
            ord@.len() == v@.len(),
            pv == projects_view(v@),
            ko == key_order(keys_of(pv)),
            ord@.map_values(|x: usize| x as int) == ko,
            permutation_of(ko, v@.len() as nat),
            par == (if top { None } else { Some(parent@) }),
            seen_of(sites@, taken@) == see_projects(par, pv, string_views(g@), a0, j as nat),
        decreases ord.len() - j,
    {
        let i = ord[j];
        assert(ko[j as int] == i as int);
        let path = path_exec(parent, top, v[i].0.as_str());
        see_extra_exec(&v[i].1.extra, path.as_str(), g, sites, taken);
        j = j + 1;
    }
}

fn see_folders_exec(parent: &str, top: bool, v: &Vec<(String, Folder)>, g: &[String],
    sites: &mut Vec<((String, String, String), Vec<String>)>, taken: &mut Vec<(String, String)>)
    ensures
        seen_of(final(sites)@, final(taken)@) == see_folders(if top { None } else { Some(parent@) }, folders_view(v@),
            string_views(g@), seen_of(old(sites)@, old(taken)@), v@.len() as nat),
    decreases folders_view(v@),
{
    let ghost fv = folders_view(v@);
    let ghost par = if top { None } else { Some(parent@) };
    let ghost gv = string_views(g@);
    let ghost a0 = seen_of(sites@, taken@);
    let ord = key_positions(v);
    proof {
        lemma_folder_keys(v@);
        lemma_folders_view(v@);
    }
    let ghost ko = key_order(keys_of(fv));
    let mut j: usize = 0;
    while j < ord.len()
        invariant
            j <= ord@.len(),
            ord@.len() == v@.len(),
            fv == folders_view(v@),
            fv.len() == v@.len(),
            forall|x: int| 0 <= x < v@.len() ==> #[trigger] fv[x] == (v@[x].0@, folder_view(v@[x].1)),
            ko == key_order(keys_of(fv)),
            ord@.map_values(|x: usize| x as int) == ko,
            permutation_of(ko, v@.len() as nat),
            par == (if top { None } else { Some(parent@) }),
            gv == string_views(g@),
            seen_of(sites@, taken@) == see_folders(par, fv, gv, a0, j as nat),
        decreases ord.len() - j,
    {
        let i = ord[j];
        assert(ko[j as int] == i as int);
        let ghost f0 = folder_view(v@[i as int].1);
        assert(fv[i as int] == (v@[i as int].0@, f0));
        let path = path_exec(parent, top, v[i].0.as_str());
        let ghost a = seen_of(sites@, taken@);
        see_extra_exec(&v[i].1.extra, path.as_str(), g, sites, taken);
        let ghost a1 = seen_of(sites@, taken@);
        assert(a1 == see_extra(f0.extra, path@, gv, a, f0.extra.len()));
        match &v[i].1.folder {
            Some(w) => {
                proof {
                    lemma_folders_view(w@);
                    assert(f0.folder == Some(folders_view(w@)));
                    assert(decreases_to!(fv => fv[i as int]));
                    assert(decreases_to!(fv[i as int] => fv[i as int].1));
                    assert(decreases_to!(f0 => f0.folder));
                    assert(decreases_to!(f0.folder => f0.folder->Some_0));
                }
                see_folders_exec(path.as_str(), false, w, g, sites, taken);
            },
            None => {},
        }
        let ghost a2 = seen_of(sites@, taken@);
        assert(a2 == match f0.folder {
            Some(s) => see_folders(Some(path@), s, gv, a1, s.len()),
            None => a1,
        });
        match &v[i].1.project {
            Some(w) => {
                assert(f0.project == Some(projects_view(w@)));
                see_projects_exec(path.as_str(), false, w, g, sites, taken);
            },
            None => {},
        }
        assert(seen_of(sites@, taken@) == see_folder(path@, f0, gv, a));
        j = j + 1;
    }
}

fn see_config_exec(c: &Config, g: &[String]) -> (r: (Vec<((String, String, String), Vec<String>)>, Vec<(String, String)>))
    ensures
        seen_of(r.0@, r.1@) == see_config(config_view(*c), string_views(g@)),
{
    let mut sites: Vec<((String, String, String), Vec<String>)> = Vec::new();
    let mut taken: Vec<(String, String)> = Vec::new();
    let ghost a0 = seen_of(sites@, taken@);
    assert(a0.sites =~= Seq::<(Edge, Seq<Seq<char>>)>::empty());
    assert(a0.taken =~= Set::<(Seq<char>, Seq<char>)>::empty());
    match &c.folder {
        Some(v) => {
            proof {
                lemma_folders_view(v@);
            }
            see_folders_exec("", true, v, g, &mut sites, &mut taken);
        },
        None => {},
    }
    let ghost a1 = seen_of(sites@, taken@);
    assert(a1 == match config_view(*c).folder {
        Some(s) => see_folders(None, s, string_views(g@), a0, s.len()),
        None => a0,
    });
    match &c.project {
        Some(v) => {
            see_projects_exec("", true, v, g, &mut sites, &mut taken);
        },
        None => {},
    }
    (sites, taken)
}

// ---------------------------------------------------------------------------
// The report of colliding edges, in edge order
// ---------------------------------------------------------------------------

/// Edges in tuple order: type, then member, then role.
pub open spec fn edge_lt(a: Edge, b: Edge) -> bool {
    ||| lex_lt(a.0, b.0)
    ||| a.0 == b.0 && lex_lt(a.1, b.1)
    ||| a.0 == b.0 && a.1 == b.1 && lex_lt(a.2, b.2)
}

pub proof fn lemma_edge_irreflexive(a: Edge)
    ensures
        !edge_lt(a, a),
{
    crate::order::lemma_lex_irreflexive(a.0);
    crate::order::lemma_lex_irreflexive(a.1);
    crate::order::lemma_lex_irreflexive(a.2);
}

pub proof fn lemma_edge_trans(a: Edge, b: Edge, c: Edge)
    requires
        edge_lt(a, b),
        edge_lt(b, c),
    ensures
        edge_lt(a, c),
{
    if lex_lt(a.0, b.0) && lex_lt(b.0, c.0) {
        crate::order::lemma_lex_trans(a.0, b.0, c.0);
    } else if a.0 == b.0 && b.0 == c.0 {
        if lex_lt(a.1, b.1) && lex_lt(b.1, c.1) {
            crate::order::lemma_lex_trans(a.1, b.1, c.1);
        } else if a.1 == b.1 && b.1 == c.1 {
            crate::order::lemma_lex_trans(a.2, b.2, c.2);
        }
    }
}

pub proof fn lemma_edge_total(a: Edge, b: Edge)
    ensures
        edge_lt(a, b) || edge_lt(b, a) || a == b,
{
    crate::order::lemma_lex_total(a.0, b.0);
    crate::order::lemma_lex_total(a.1, b.1);
    crate::order::lemma_lex_total(a.2, b.2);
}

pub proof fn lemma_edge_asym(a: Edge, b: Edge)
    requires
        edge_lt(a, b),
    ensures
        !edge_lt(b, a),
        a != b,
{
    if edge_lt(b, a) {
        lemma_edge_trans(a, b, a);
        lemma_edge_irreflexive(a);
    }
    lemma_edge_irreflexive(a);
}

/// Strictly increasing in edge order.
pub open spec fn edges_sorted(r: Seq<Edge>) -> bool {
    forall|i: int, j: int| 0 <= i < j < r.len() ==> edge_lt(#[trigger] r[i], #[trigger] r[j])
}

/// A strictly sorted list of edges is determined by its elements.
pub proof fn lemma_edges_unique(a: Seq<Edge>, b: Seq<Edge>)
    requires
        edges_sorted(a),
        edges_sorted(b),
        forall|x: Edge| a.contains(x) <==> b.contains(x),
    ensures
        a == b,
    decreases a.len() + b.len(),
{
    if a.len() == 0 {
        if b.len() > 0 {
            assert(b.contains(b[0]));
        }
        assert(a =~= b);
    } else if b.len() == 0 {
        assert(a.contains(a[0]));
    } else {
        assert(a.contains(a[0]));
        assert(b.contains(b[0]));
        let i = choose|i: int| 0 <= i < b.len() && b[i] == a[0];
        let j = choose|j: int| 0 <= j < a.len() && a[j] == b[0];
        if i > 0 {
            assert(edge_lt(b[0], b[i]));
            if j > 0 {
                assert(edge_lt(a[0], a[j]));
                lemma_edge_asym(b[0], a[0]);
            } else {
                lemma_edge_irreflexive(a[0]);
            }
        }
        assert(a[0] == b[0]);
        let a1 = a.drop_first();
        let b1 = b.drop_first();
        assert forall|x: Edge| a1.contains(x) <==> b1.contains(x) by {
            if a1.contains(x) {
                let k = choose|k: int| 0 <= k < a1.len() && a1[k] == x;
                assert(a[k + 1] == x);
                assert(edge_lt(a[0], a[k + 1]));
                lemma_edge_asym(a[0], x);
                assert(b.contains(x));
                let m = choose|m: int| 0 <= m < b.len() && b[m] == x;
                assert(m != 0);
                assert(b1[m - 1] == x);
            }
            if b1.contains(x) {
                let k = choose|k: int| 0 <= k < b1.len() && b1[k] == x;
                assert(b[k + 1] == x);
                assert(edge_lt(b[0], b[k + 1]));
                lemma_edge_asym(b[0], x);
                assert(a.contains(x));
                let m = choose|m: int| 0 <= m < a.len() && a[m] == x;
                assert(m != 0);
                assert(a1[m - 1] == x);
            }
        }
        assert forall|p: int, q: int| 0 <= p < q < a1.len() implies edge_lt(#[trigger] a1[p], #[trigger] a1[q]) by {
            assert(a1[p] == a[p + 1] && a1[q] == a[q + 1]);
        }
        assert forall|p: int, q: int| 0 <= p < q < b1.len() implies edge_lt(#[trigger] b1[p], #[trigger] b1[q]) by {
            assert(b1[p] == b[p + 1] && b1[q] == b[q + 1]);
        }
        lemma_edges_unique(a1, b1);
        assert(a =~= seq![a[0]] + a1);
        assert(b =~= seq![b[0]] + b1);
    }
}

/// The colliding edges, each once, in edge order.
pub open spec fn collisions(sites: Seq<(Edge, Seq<Seq<char>>)>) -> Seq<Edge> {
    choose|r: Seq<Edge>| edges_sorted(r) && forall|e: Edge| r.contains(e) <==> #[trigger] colliding(sites, e)
}

/// The nodes that hold `e`, in visiting order.
pub open spec fn sites_of(sites: Seq<(Edge, Seq<Seq<char>>)>, e: Edge) -> Seq<Seq<char>> {
    match key_at(sites, e) {
        Some(i) => sites[i].1,
        None => seq![],
    }
}

pub open spec fn report_line(sites: Seq<(Edge, Seq<Seq<char>>)>, e: Edge) -> Seq<char> {
    "  "@ + e.0 + " "@ + e.1 + " "@ + e.2 + " on "@ + crate::text::join(sites_of(sites, e), ", "@) + "\n"@
}

pub open spec fn report_lines(sites: Seq<(Edge, Seq<Seq<char>>)>, es: Seq<Edge>, n: nat) -> Seq<char>
    decreases n,
{
    if n == 0 || n > es.len() {
        seq![]
    } else {
        report_lines(sites, es, (n - 1) as nat) + report_line(sites, es[n - 1])
    }
}

/// What an estate with colliding edges is refused with.
pub open spec fn collision_report(sites: Seq<(Edge, Seq<Seq<char>>)>) -> Seq<char> {
    let es = collisions(sites);
    "import: "@ + crate::text::dec(es.len())
        + " grant(s) held on more than one folder/project would emit one address each — the map form's label is member + role:\n"@
        + report_lines(sites, es, es.len())
        + "`--on-collision counter` keeps the first in the map form and writes the others as labelled resources with a running number; or edit the estate by hand"@
}

pub open spec fn edge_view(e: (String, String, String)) -> Edge {
    (e.0@, e.1@, e.2@)
}

pub open spec fn edges_view(v: Seq<(String, String, String)>) -> Seq<Edge> {
    v.map_values(|e: (String, String, String)| edge_view(e))
}

fn edge_compare(a: &(String, String, String), b: &(String, String, String)) -> (r: i8)
    ensures
        r == -1 <==> edge_lt(edge_view(*a), edge_view(*b)),
        r == 0 <==> edge_view(*a) == edge_view(*b),
        r == 1 <==> edge_lt(edge_view(*b), edge_view(*a)),
        -1 <= r <= 1,
{
    proof {
        crate::order::lemma_lex_irreflexive(a.0@);
        crate::order::lemma_lex_irreflexive(a.1@);
        crate::order::lemma_lex_irreflexive(a.2@);
        crate::order::lemma_lex_total(a.0@, b.0@);
        crate::order::lemma_lex_total(a.1@, b.1@);
        crate::order::lemma_lex_total(a.2@, b.2@);
        if lex_lt(a.0@, b.0@) {
            crate::order::lemma_lex_asym(a.0@, b.0@);
        }
        if lex_lt(b.0@, a.0@) {
            crate::order::lemma_lex_asym(b.0@, a.0@);
        }
        if lex_lt(a.1@, b.1@) {
            crate::order::lemma_lex_asym(a.1@, b.1@);
        }
        if lex_lt(b.1@, a.1@) {
            crate::order::lemma_lex_asym(b.1@, a.1@);
        }
        if lex_lt(a.2@, b.2@) {
            crate::order::lemma_lex_asym(a.2@, b.2@);
        }
        if lex_lt(b.2@, a.2@) {
            crate::order::lemma_lex_asym(b.2@, a.2@);
        }
    }
    let c = crate::order::compare_str(a.0.as_str(), b.0.as_str());
    if c != 0 {
        return c;
    }
    let c = crate::order::compare_str(a.1.as_str(), b.1.as_str());
    if c != 0 {
        return c;
    }
    crate::order::compare_str(a.2.as_str(), b.2.as_str())
}

/// Insert `x` into a strictly sorted list of edges, unless it is there.
fn insert_edge(v: &mut Vec<(String, String, String)>, x: (String, String, String))
    requires
        edges_sorted(edges_view(old(v)@)),
    ensures
        edges_sorted(edges_view(final(v)@)),
        forall|y: Edge| edges_view(final(v)@).contains(y) <==> (edges_view(old(v)@).contains(y) || y == edge_view(x)),
{
    let ghost s0 = edges_view(v@);
    let ghost xs = edge_view(x);
    let mut i: usize = 0;
    while i < v.len()
        invariant
            i <= v@.len(),
            s0 == edges_view(v@),
            edges_sorted(s0),
            xs == edge_view(x),
            forall|j: int| 0 <= j < i ==> edge_lt(#[trigger] s0[j], xs),
        ensures
            i <= v@.len(),
            s0 == edges_view(v@),
            forall|j: int| 0 <= j < i ==> edge_lt(#[trigger] s0[j], xs),
            i < v@.len() ==> edge_lt(xs, s0[i as int]),
        decreases v.len() - i,
    {
        let c = edge_compare(&v[i], &x);
        assert(s0[i as int] == edge_view(v@[i as int]));
        if c == 0 {
            return;
        }
        if c == 1 {
            break;
        }
        i = i + 1;
    }
    let ghost at = i;
    v.insert(i, x);
    proof {
        let s1 = edges_view(v@);
        assert(s1 =~= s0.insert(at as int, xs));
        assert forall|p: int, q: int| 0 <= p < q < s1.len() implies edge_lt(#[trigger] s1[p], #[trigger] s1[q]) by {
            if q < at {
            } else if q == at {
            } else if p < at {
                if at < s0.len() {
                    if q - 1 > at {
                        assert(edge_lt(s0[at as int], s0[q - 1]));
                        lemma_edge_trans(xs, s0[at as int], s0[q - 1]);
                    }
                    lemma_edge_trans(s0[p], xs, s0[q - 1]);
                }
            } else if p == at {
                if at < s0.len() {
                    if q - 1 > at {
                        assert(edge_lt(s0[at as int], s0[q - 1]));
                        lemma_edge_trans(xs, s0[at as int], s0[q - 1]);
                    }
                }
            } else {
                assert(s1[p] == s0[p - 1] && s1[q] == s0[q - 1]);
            }
        }
        assert forall|y: Edge| s1.contains(y) <==> (s0.contains(y) || y == xs) by {
            if s1.contains(y) {
                let k = choose|k: int| 0 <= k < s1.len() && s1[k] == y;
                if k < at {
                    assert(s0[k] == y);
                } else if k > at {
                    assert(s0[k - 1] == y);
                }
            }
            if s0.contains(y) {
                let k = choose|k: int| 0 <= k < s0.len() && s0[k] == y;
                if k < at {
                    assert(s1[k] == y);
                } else {
                    assert(s1[k + 1] == y);
                }
            }
            if y == xs {
                assert(s1[at as int] == y);
            }
        }
    }
}

/// The colliding edges, each once, in edge order.
fn collision_list(sites: &Vec<((String, String, String), Vec<String>)>) -> (r: Vec<(String, String, String)>)
    ensures
        edges_view(r@) == collisions(sites_view(sites@)),
        forall|e: Edge| edges_view(r@).contains(e) <==> #[trigger] colliding(sites_view(sites@), e),
{
    let ghost sv = sites_view(sites@);
    let mut r: Vec<(String, String, String)> = Vec::new();
    let mut i: usize = 0;
    while i < sites.len()
        invariant
            i <= sites@.len(),
            sv == sites_view(sites@),
            edges_sorted(edges_view(r@)),
            forall|e: Edge| edges_view(r@).contains(e) <==> (exists|j: int| 0 <= j < i && key_at(sv, e) == Some(j)
                && (#[trigger] sv[j]).1.len() > 1),
        decreases sites.len() - i,
    {
        assert(sv[i as int] == ((sites@[i as int].0.0@, sites@[i as int].0.1@, sites@[i as int].0.2@),
            string_views(sites@[i as int].1@)));
        let ghost before = edges_view(r@);
        let p = edge_position(sites, sites[i].0.0.as_str(), sites[i].0.1.as_str(), sites[i].0.2.as_str());
        if sites[i].1.len() > 1 && p == Some(i) {
            let e = (sites[i].0.0.clone(), sites[i].0.1.clone(), sites[i].0.2.clone());
            insert_edge(&mut r, e);
        }
        proof {
            let ei = sv[i as int].0;
            assert forall|e: Edge| edges_view(r@).contains(e) <==> (exists|j: int| 0 <= j < i + 1 && key_at(sv, e) == Some(j)
                && (#[trigger] sv[j]).1.len() > 1) by {
                if exists|j: int| 0 <= j < i + 1 && key_at(sv, e) == Some(j) && (#[trigger] sv[j]).1.len() > 1 {
                    let j = choose|j: int| 0 <= j < i + 1 && key_at(sv, e) == Some(j) && (#[trigger] sv[j]).1.len() > 1;
                    if j == i {
                        lemma_key_at(sv, e);
                        assert(e == ei);
                    }
                }
                if edges_view(r@).contains(e) && !before.contains(e) {
                    assert(e == ei);
                    assert(key_at(sv, e) == Some(i as int));
                }
            }
        }
        i = i + 1;
    }
    proof {
        let rv = edges_view(r@);
        assert forall|e: Edge| rv.contains(e) <==> #[trigger] colliding(sv, e) by {
            lemma_key_at(sv, e);
            if colliding(sv, e) {
                let j = key_at(sv, e)->Some_0;
                assert(sv[j].1.len() > 1);
            }
        }
        assert(edges_sorted(rv) && forall|e: Edge| rv.contains(e) <==> #[trigger] colliding(sv, e));
        let c = collisions(sv);
        assert(edges_sorted(c) && forall|e: Edge| c.contains(e) <==> #[trigger] colliding(sv, e));
        assert forall|x: Edge| rv.contains(x) <==> c.contains(x) by {
            assert(rv.contains(x) <==> colliding(sv, x));
            assert(c.contains(x) <==> colliding(sv, x));
        }
        lemma_edges_unique(rv, c);
    }
    r
}

/// The nodes that hold an edge, joined by `, `.
fn sites_joined(sites: &Vec<((String, String, String), Vec<String>)>, e: &(String, String, String)) -> (r: Vec<char>)
    ensures
        r@ == crate::text::join(sites_of(sites_view(sites@), edge_view(*e)), ", "@),
{
    let ghost sv = sites_view(sites@);
    proof {
        lemma_key_at(sv, edge_view(*e));
    }
    match edge_position(sites, e.0.as_str(), e.1.as_str(), e.2.as_str()) {
        Some(i) => crate::text::join_strings(&sites[i].1, ", "),
        None => {
            let empty: Vec<String> = Vec::new();
            assert(string_views(empty@) =~= Seq::<Seq<char>>::empty());
            crate::text::join_strings(&empty, ", ")
        },
    }
}

/// What an estate with colliding edges is refused with.
fn report_exec(sites: &Vec<((String, String, String), Vec<String>)>) -> (r: String)
    ensures
        r@ == collision_report(sites_view(sites@)),
{
    let ghost sv = sites_view(sites@);
    let es = collision_list(sites);
    let ghost ev = edges_view(es@);
    let mut t: Vec<char> = Vec::new();
    crate::text::push_str_chars(&mut t, "import: ");
    let n = crate::text::dec_chars(es.len() as u64);
    crate::text::push_chars(&mut t, &n);
    crate::text::push_str_chars(&mut t,
        " grant(s) held on more than one folder/project would emit one address each — the map form's label is member + role:\n");
    let ghost head = t@;
    let mut j: usize = 0;
    while j < es.len()
        invariant
            j <= es@.len(),
            sv == sites_view(sites@),
            ev == edges_view(es@),
            t@ == head + report_lines(sv, ev, j as nat),
        decreases es.len() - j,
    {
        let ghost before = t@;
        crate::text::push_str_chars(&mut t, "  ");
        crate::text::push_str_chars(&mut t, es[j].0.as_str());
        crate::text::push_str_chars(&mut t, " ");
        crate::text::push_str_chars(&mut t, es[j].1.as_str());
        crate::text::push_str_chars(&mut t, " ");
        crate::text::push_str_chars(&mut t, es[j].2.as_str());
        crate::text::push_str_chars(&mut t, " on ");
        let nodes = sites_joined(sites, &es[j]);
        crate::text::push_chars(&mut t, &nodes);
        crate::text::push_str_chars(&mut t, "\n");
        proof {
            reveal_strlit("  ");
            reveal_strlit(" ");
            reveal_strlit(" on ");
            reveal_strlit("\n");
            assert(ev[j as int] == edge_view(es@[j as int]));
            assert(t@ =~= before + report_line(sv, ev[j as int]));
        }
        j = j + 1;
    }
    crate::text::push_str_chars(&mut t,
        "`--on-collision counter` keeps the first in the map form and writes the others as labelled resources with a running number; or edit the estate by hand");
    proof {
        reveal_strlit("import: ");
    }
    assert(t@ =~= collision_report(sv));
    crate::text::from_chars(&t)
}

// ---------------------------------------------------------------------------
// Pass two, executed
// ---------------------------------------------------------------------------

pub open spec fn state_of(taken: Seq<(String, String)>, notes: Seq<String>) -> Resolving {
    Resolving { taken: taken_set(taken), notes: string_views(notes) }
}

fn first_node_exec(sites: &Vec<((String, String, String), Vec<String>)>, t: &str, m: &str, r: &str) -> (f: Option<String>)
    ensures
        match f {
            Some(x) => first_node(sites_view(sites@), (t@, m@, r@)) == Some(x@),
            None => first_node(sites_view(sites@), (t@, m@, r@)) is None,
        },
{
    let ghost sv = sites_view(sites@);
    proof {
        lemma_key_at(sv, (t@, m@, r@));
    }
    match edge_position(sites, t, m, r) {
        Some(i) => {
            assert(sv[i as int].1 == string_views(sites@[i as int].1@));
            if sites[i].1.len() > 1 {
                Some(sites[i].1[0].clone())
            } else {
                None
            }
        },
        None => None,
    }
}

fn moves_exec(r: &Yaml, t: &str, member: &str, node: &str, sites: &Vec<((String, String, String), Vec<String>)>) -> (b: bool)
    ensures
        b == moves(yaml_view(*r), t@, member@, node@, sites_view(sites@)),
{
    match role_exec(r) {
        Some(role) => match first_node_exec(sites, t, member, role.as_str()) {
            Some(first) => !crate::text::str_eq(first.as_str(), node),
            None => false,
        },
        None => false,
    }
}

/// A member's roles, those that stay and those that move.
fn split_roles(roles: &Vec<Yaml>, t: &str, member: &str, node: &str, sites: &Vec<((String, String, String), Vec<String>)>)
    -> (r: (Vec<Yaml>, Vec<Yaml>))
    ensures
        seq_view(r.0@) == kept_roles(seq_view(roles@), t@, member@, node@, sites_view(sites@), roles@.len() as nat),
        seq_view(r.1@) == moved_roles(seq_view(roles@), t@, member@, node@, sites_view(sites@), roles@.len() as nat),
{
    let ghost rv = seq_view(roles@);
    let ghost sv = sites_view(sites@);
    proof {
        lemma_seq_view(roles@);
    }
    let mut kept: Vec<Yaml> = Vec::new();
    let mut moved: Vec<Yaml> = Vec::new();
    let mut i: usize = 0;
    while i < roles.len()
        invariant
            i <= roles@.len(),
            rv == seq_view(roles@),
            rv.len() == roles@.len(),
            forall|j: int| 0 <= j < roles@.len() ==> #[trigger] rv[j] == yaml_view(roles@[j]),
            sv == sites_view(sites@),
            seq_view(kept@) == kept_roles(rv, t@, member@, node@, sv, i as nat),
            seq_view(moved@) == moved_roles(rv, t@, member@, node@, sv, i as nat),
        decreases roles.len() - i,
    {
        proof {
            lemma_seq_view(kept@);
            lemma_seq_view(moved@);
        }
        let c = crate::yaml::clone_yaml(&roles[i]);
        if moves_exec(&roles[i], t, member, node, sites) {
            let ghost before = seq_view(moved@);
            moved.push(c);
            proof {
                lemma_seq_view(moved@);
            }
            assert(seq_view(moved@) =~= before.push(rv[i as int]));
        } else {
            let ghost before = seq_view(kept@);
            kept.push(c);
            proof {
                lemma_seq_view(kept@);
            }
            assert(seq_view(kept@) =~= before.push(rv[i as int]));
        }
        i = i + 1;
    }
    (kept, moved)
}

/// The labels type `t` has taken, as a list.
fn labels_exec(taken: &Vec<(String, String)>, t: &str) -> (r: Vec<String>)
    ensures
        string_views(r@).to_set() == labels_of(taken_set(taken@), t@),
{
    let ghost tv = taken@.map_values(|p: (String, String)| (p.0@, p.1@));
    let mut r: Vec<String> = Vec::new();
    let mut i: usize = 0;
    while i < taken.len()
        invariant
            i <= taken@.len(),
            tv == taken@.map_values(|p: (String, String)| (p.0@, p.1@)),
            forall|l: Seq<char>| string_views(r@).contains(l) <==> exists|j: int| 0 <= j < i && #[trigger] tv[j] == (t@, l),
        decreases taken.len() - i,
    {
        let ghost before = string_views(r@);
        assert(tv[i as int] == (taken@[i as int].0@, taken@[i as int].1@));
        if crate::text::str_eq(taken[i].0.as_str(), t) {
            r.push(taken[i].1.clone());
            assert(string_views(r@) =~= before.push(taken@[i as int].1@));
        }
        proof {
            assert forall|l: Seq<char>| string_views(r@).contains(l) <==> exists|j: int| 0 <= j < i + 1 && #[trigger] tv[j] == (t@, l) by {
                if string_views(r@).contains(l) && !before.contains(l) {
                    let k = choose|k: int| 0 <= k < string_views(r@).len() && string_views(r@)[k] == l;
                    assert(k == before.len());
                    assert(tv[i as int] == (t@, l));
                }
                if before.contains(l) {
                    let k = choose|k: int| 0 <= k < before.len() && before[k] == l;
                    assert(string_views(r@)[k] == l);
                }
                if exists|j: int| 0 <= j < i + 1 && #[trigger] tv[j] == (t@, l) {
                    let j = choose|j: int| 0 <= j < i + 1 && #[trigger] tv[j] == (t@, l);
                    if j == i {
                        assert(string_views(r@)[string_views(r@).len() - 1] == l);
                    }
                }
            }
        }
        i = i + 1;
    }
    proof {
        assert forall|l: Seq<char>| string_views(r@).to_set().contains(l) <==> labels_of(taken_set(taken@), t@).contains(l) by {
            if tv.to_set().contains((t@, l)) {
                let j = choose|j: int| 0 <= j < tv.len() && tv[j] == (t@, l);
                assert(tv[j] == (t@, l));
            }
        }
        assert(string_views(r@).to_set() =~= labels_of(taken_set(taken@), t@));
    }
    r
}

/// A grant entry carrying its Terraform import id: `{ role, "import-id" }`,
/// the object form.
pub fn grant_entry(role: &str, import_id: &str) -> (r: Yaml)
    ensures
        yaml_view(r) == YamlV::Mapping(seq![(skey("role"@), YamlV::Str(role@)), (skey("import-id"@), YamlV::Str(import_id@))]),
{
    let mut m: Vec<(Yaml, Yaml)> = Vec::new();
    m.push((Yaml::Str(String::from_str("role")), Yaml::Str(String::from_str(role))));
    m.push((Yaml::Str(String::from_str("import-id")), Yaml::Str(String::from_str(import_id))));
    proof {
        lemma_entries_view(m@);
        reveal_strlit("role");
        reveal_strlit("import-id");
    }
    assert(entries_view(m@) =~= seq![(skey("role"@), YamlV::Str(role@)), (skey("import-id"@), YamlV::Str(import_id@))]);
    Yaml::Mapping(m)
}

/// A labelled grant's body.
fn body_exec(role: &str, member: &str, id: Option<String>) -> (r: Yaml)
    ensures
        yaml_view(r) == body_of(role@, member@, match id {
            Some(i) => Some(i@),
            None => None,
        }),
{
    let mut m: Vec<(Yaml, Yaml)> = Vec::new();
    let ghost idv: Option<Seq<char>> = if id is Some { Some(id->Some_0@) } else { None };
    match id {
        Some(i) => {
            m.push((Yaml::Str(String::from_str("import-id")), Yaml::Str(i)));
        },
        None => {},
    }
    m.push((Yaml::Str(String::from_str("role")), Yaml::Str(String::from_str(role))));
    m.push((Yaml::Str(String::from_str("member")), Yaml::Str(String::from_str(member))));
    proof {
        lemma_entries_view(m@);
        reveal_strlit("import-id");
        reveal_strlit("role");
        reveal_strlit("member");
    }
    assert(entries_view(m@) =~= match idv {
        Some(i) => seq![(skey("import-id"@), YamlV::Str(i))],
        None => Seq::<(YamlV, YamlV)>::empty(),
    } + seq![(skey("role"@), YamlV::Str(role@)), (skey("member"@), YamlV::Str(member@))]);
    Yaml::Mapping(m)
}

fn note_exec(member: &str, role: &str, node: &str, t: &str, label: &str, first: &str) -> (r: String)
    ensures
        r@ == note_of(member@, role@, node@, t@, label@, first@),
{
    let mut v: Vec<char> = Vec::new();
    crate::text::push_str_chars(&mut v, "import: ");
    crate::text::push_str_chars(&mut v, member);
    crate::text::push_str_chars(&mut v, " ");
    crate::text::push_str_chars(&mut v, role);
    crate::text::push_str_chars(&mut v, " on ");
    crate::text::push_str_chars(&mut v, node);
    crate::text::push_str_chars(&mut v, " is written as ");
    crate::text::push_str_chars(&mut v, t);
    crate::text::push_str_chars(&mut v, ".");
    crate::text::push_str_chars(&mut v, label);
    crate::text::push_str_chars(&mut v, " — ");
    crate::text::push_str_chars(&mut v, first);
    crate::text::push_str_chars(&mut v, " holds the same grant, and the map form has one address per member and role");
    assert(v@ =~= note_of(member@, role@, node@, t@, label@, first@));
    crate::text::from_chars(&v)
}

/// Every role `moved_roles` keeps is one that moves.
proof fn lemma_moved_move(roles: Seq<YamlV>, t: Seq<char>, member: Seq<char>, node: Seq<char>,
    sites: Seq<(Edge, Seq<Seq<char>>)>, n: nat)
    ensures
        forall|j: int| 0 <= j < moved_roles(roles, t, member, node, sites, n).len()
            ==> moves(#[trigger] moved_roles(roles, t, member, node, sites, n)[j], t, member, node, sites),
    decreases n,
{
    if n > 0 && n <= roles.len() {
        lemma_moved_move(roles, t, member, node, sites, (n - 1) as nat);
        let k = moved_roles(roles, t, member, node, sites, (n - 1) as nat);
        let r = moved_roles(roles, t, member, node, sites, n);
        if moves(roles[n - 1], t, member, node, sites) {
            assert(r == k.push(roles[n - 1]));
            assert forall|j: int| 0 <= j < r.len() implies moves(#[trigger] r[j], t, member, node, sites) by {
                if j < k.len() {
                    assert(r[j] == k[j]);
                }
            }
        } else {
            assert(r == k);
        }
    }
}

fn place_all_exec(moved: &Vec<Yaml>, t: &str, member: &str, node: &str, sites: &Vec<((String, String, String), Vec<String>)>,
    ins: &mut Vec<(String, Yaml)>, taken: &mut Vec<(String, String)>, notes: &mut Vec<String>)
    requires
        forall|j: int| 0 <= j < moved@.len() ==> moves(#[trigger] seq_view(moved@)[j], t@, member@, node@, sites_view(sites@)),
    ensures
        (typed_view(final(ins)@), state_of(final(taken)@, final(notes)@)) == place_all(seq_view(moved@), t@, member@, node@,
            sites_view(sites@), typed_view(old(ins)@), state_of(old(taken)@, old(notes)@), moved@.len() as nat),
{
    let ghost mv = seq_view(moved@);
    let ghost sv = sites_view(sites@);
    let ghost i0 = typed_view(ins@);
    let ghost s0 = state_of(taken@, notes@);
    proof {
        lemma_seq_view(moved@);
    }
    let mut i: usize = 0;
    while i < moved.len()
        invariant
            i <= moved@.len(),
            mv == seq_view(moved@),
            mv.len() == moved@.len(),
            forall|j: int| 0 <= j < moved@.len() ==> #[trigger] mv[j] == yaml_view(moved@[j]),
            forall|j: int| 0 <= j < moved@.len() ==> moves(#[trigger] mv[j], t@, member@, node@, sv),
            sv == sites_view(sites@),
            (typed_view(ins@), state_of(taken@, notes@)) == place_all(mv, t@, member@, node@, sv, i0, s0, i as nat),
        decreases moved.len() - i,
    {
        assert(moves(mv[i as int], t@, member@, node@, sv));
        match role_exec(&moved[i]) {
            None => {
                assert(false);
            },
            Some(role) => {
                match first_node_exec(sites, t, member, role.as_str()) {
                    None => {
                        assert(false);
                    },
                    Some(first) => {
                        let base = crate::discovery::grant_label_base(role.as_str(), member);
                        proof {
                            reveal_strlit("_");
                        }
                        let base2 = crate::text::concat(base.as_str(), "_");
                        let blocked = labels_exec(taken, t);
                        let label = crate::discovery::first_free_name(base2.as_str(), &blocked);
                        proof {
                            let bs = labels_of(taken_set(taken@), t@);
                            let c = label_for(grant_label_of(role@, member@), bs);
                            assert(first_free(base2@, bs, label@));
                            assert(first_free(grant_label_of(role@, member@) + "_"@, bs, c));
                            lemma_first_free_unique(base2@, bs, label@, c);
                        }
                        let id = import_id_exec(&moved[i]);
                        let body = body_exec(role.as_str(), member, id);
                        let note = note_exec(member, role.as_str(), node, t, label.as_str(), first.as_str());
                        let ghost ti = typed_view(ins@);
                        let ghost tk = taken@;
                        let ghost nt = notes@;
                        ins.push((label.clone(), body));
                        assert(typed_view(ins@) =~= ti.push((label@, yaml_view(body))));
                        taken.push((String::from_str(t), label));
                        proof {
                            assert(taken@.map_values(|p: (String, String)| (p.0@, p.1@)) =~= tk.map_values(
                                |p: (String, String)| (p.0@, p.1@)).push((t@, label@)));
                            lemma_push_to_set(tk.map_values(|p: (String, String)| (p.0@, p.1@)), (t@, label@));
                        }
                        notes.push(note);
                        assert(string_views(notes@) =~= string_views(nt).push(note@));
                    },
                }
            },
        }
        i = i + 1;
    }
}

/// A grant map of type `t` on `node`, resolved in place.
fn resolve_map_exec(m: &mut Vec<(Yaml, Yaml)>, t: &str, node: &str, sites: &Vec<((String, String, String), Vec<String>)>,
    taken: &mut Vec<(String, String)>, notes: &mut Vec<String>)
    ensures
        (entries_view(final(m)@), state_of(final(taken)@, final(notes)@)) == resolved_map(entries_view(old(m)@), t@, node@,
            sites_view(sites@), state_of(old(taken)@, old(notes)@)),
{
    let ghost mv = entries_view(m@);
    let ghost m0 = m@;
    let ghost sv = sites_view(sites@);
    let ghost s0 = state_of(taken@, notes@);
    proof {
        lemma_entries_view(m@);
    }
    let mut ins: Vec<(String, Yaml)> = Vec::new();
    let mut emptied: Vec<Yaml> = Vec::new();
    assert(typed_view(ins@) =~= Seq::<(Seq<char>, YamlV)>::empty());
    assert(seq_view(emptied@) =~= Seq::<YamlV>::empty());
    let n = m.len();
    let mut i: usize = 0;
    while i < n
        invariant
            i <= n,
            n == mv.len(),
            m@.len() == n,
            mv == entries_view(m0),
            forall|j: int| 0 <= j < n ==> #[trigger] mv[j] == (yaml_view(m0[j].0), yaml_view(m0[j].1)),
            forall|j: int| i <= j < n ==> #[trigger] m@[j] == m0[j],
            sv == sites_view(sites@),
            (entries_view(m@), typed_view(ins@), seq_view(emptied@), state_of(taken@, notes@)) == walk_entries(mv, t@, node@, sv, s0,
                i as nat),
        decreases n - i,
    {
        let ghost cur = entries_view(m@);
        let ghost em0 = seq_view(emptied@);
        proof {
            lemma_entries_view(m@);
            lemma_seq_view(emptied@);
        }
        assert(m@[i as int] == m0[i as int]);
        let key = match crate::yaml::as_str(crate::yaml::untag(&m[i].0)) {
            Some(k) => Some(k.clone()),
            None => None,
        };
        let kept_opt: Option<Vec<Yaml>> = match key {
            Some(member) => match &m[i].1 {
                Yaml::Sequence(roles) => {
                    proof {
                        lemma_seq_view(roles@);
                    }
                    let (kept, moved) = split_roles(roles, t, member.as_str(), node, sites);
                    proof {
                        lemma_moved_move(seq_view(roles@), t@, member@, node@, sv, roles@.len() as nat);
                        lemma_seq_view(moved@);
                        lemma_seq_view(kept@);
                    }
                    place_all_exec(&moved, t, member.as_str(), node, sites, &mut ins, taken, notes);
                    Some(kept)
                },
                _ => None,
            },
            None => None,
        };
        match kept_opt {
            Some(kept) => {
                if kept.len() == 0 {
                    let k = crate::yaml::clone_yaml(&m[i].0);
                    emptied.push(k);
                    proof {
                        lemma_seq_view(emptied@);
                    }
                    assert(seq_view(emptied@) =~= em0.push(mv[i as int].0));
                }
                proof {
                    lemma_seq_view(kept@);
                }
                crate::yaml::set_at(m, i, Yaml::Sequence(kept));
            },
            None => {},
        }
        i = i + 1;
    }
    let ghost cur = entries_view(m@);
    let ghost ev = seq_view(emptied@);
    let ghost iv = typed_view(ins@);
    proof {
        lemma_seq_view(emptied@);
    }
    let mut k: usize = 0;
    while k < emptied.len()
        invariant
            k <= emptied@.len(),
            ev == seq_view(emptied@),
            ev.len() == emptied@.len(),
            forall|j: int| 0 <= j < emptied@.len() ==> #[trigger] ev[j] == yaml_view(emptied@[j]),
            entries_view(m@) == remove_all(cur, ev, k as nat),
        decreases emptied.len() - k,
    {
        proof {
            crate::yaml::lemma_find_key(entries_view(m@), ev[k as int]);
        }
        match crate::yaml::find_yaml(m, &emptied[k]) {
            Some(j) => {
                proof {
                    lemma_entries_view(m@);
                }
                crate::yaml::swap_remove_at(m, j);
            },
            None => {},
        }
        k = k + 1;
    }
    let ghost removed = entries_view(m@);
    let mut k: usize = 0;
    while k < ins.len()
        invariant
            k <= ins@.len(),
            iv == typed_view(ins@),
            entries_view(m@) == insert_all(removed, iv, k as nat),
        decreases ins.len() - k,
    {
        assert(iv[k as int] == (ins@[k as int].0@, yaml_view(ins@[k as int].1)));
        let v = crate::yaml::clone_yaml(&ins[k].1);
        crate::yaml::insert_at_key(m, Yaml::Str(ins[k].0.clone()), v);
        k = k + 1;
    }
}

/// A resource value of a grant type, its mapping (under any tags) resolved.
fn resolve_value(v: Yaml, t: &str, node: &str, sites: &Vec<((String, String, String), Vec<String>)>,
    taken: &mut Vec<(String, String)>, notes: &mut Vec<String>) -> (r: Yaml)
    ensures
        match untagged(yaml_view(v)) {
            YamlV::Mapping(m) => (yaml_view(r), state_of(final(taken)@, final(notes)@)) == (with_map(yaml_view(v),
                resolved_map(m, t@, node@, sites_view(sites@), state_of(old(taken)@, old(notes)@)).0),
                resolved_map(m, t@, node@, sites_view(sites@), state_of(old(taken)@, old(notes)@)).1),
            _ => yaml_view(r) == yaml_view(v) && final(taken)@ == old(taken)@ && final(notes)@ == old(notes)@,
        },
    decreases v,
{
    match v {
        Yaml::Mapping(mm) => {
            let mut mm = mm;
            resolve_map_exec(&mut mm, t, node, sites, taken, notes);
            Yaml::Mapping(mm)
        },
        Yaml::Tagged(tag, b) => {
            let inner = resolve_value(*b, t, node, sites, taken, notes);
            Yaml::Tagged(tag, Box::new(inner))
        },
        other => other,
    }
}

/// A node's resources, every grant map resolved.
fn resolve_extra_exec(e: &mut Vec<(String, Yaml)>, node: &str, g: &[String], sites: &Vec<((String, String, String), Vec<String>)>,
    taken: &mut Vec<(String, String)>, notes: &mut Vec<String>)
    ensures
        (typed_view(final(e)@), state_of(final(taken)@, final(notes)@)) == resolve_extra(typed_view(old(e)@), node@,
            string_views(g@), sites_view(sites@), state_of(old(taken)@, old(notes)@), old(e)@.len() as nat),
{
    let ghost ev = typed_view(e@);
    let ghost e0 = e@;
    let ghost sv = sites_view(sites@);
    let ghost s0 = state_of(taken@, notes@);
    let n = e.len();
    let mut i: usize = 0;
    while i < n
        invariant
            i <= n,
            n == ev.len(),
            e@.len() == n,
            ev == typed_view(e0),
            forall|j: int| i <= j < n ==> #[trigger] e@[j] == e0[j],
            sv == sites_view(sites@),
            (typed_view(e@), state_of(taken@, notes@)) == resolve_extra(ev, node@, string_views(g@), sv, s0, i as nat),
        decreases n - i,
    {
        let ghost cur = typed_view(e@);
        let ghost raw = e@;
        assert(e@[i as int] == e0[i as int]);
        assert(ev[i as int] == (e@[i as int].0@, yaml_view(e@[i as int].1)));
        if listed(g, e[i].0.as_str()) {
            let (t, v) = e.remove(i);
            let ghost vv = yaml_view(v);
            let v2 = resolve_value(v, t.as_str(), node, sites, taken, notes);
            let ghost v2v = yaml_view(v2);
            e.insert(i, (t, v2));
            assert(e@ =~= raw.update(i as int, e@[i as int]));
            assert(typed_view(e@) =~= cur.update(i as int, (ev[i as int].0, v2v)));
            proof {
                if !(untagged(vv) is Mapping) {
                    assert(typed_view(e@) =~= cur);
                }
            }
        }
        i = i + 1;
    }
}

fn resolve_projects_exec(parent: &str, top: bool, v: &mut Vec<(String, Project)>, g: &[String],
    sites: &Vec<((String, String, String), Vec<String>)>, taken: &mut Vec<(String, String)>, notes: &mut Vec<String>)
    ensures
        (projects_view(final(v)@), state_of(final(taken)@, final(notes)@)) == resolve_projects(if top { None } else { Some(parent@) },
            projects_view(old(v)@), string_views(g@), sites_view(sites@), state_of(old(taken)@, old(notes)@), old(v)@.len() as nat),
{
    let ghost pv = projects_view(v@);
    let ghost v0 = v@;
    let ghost par = if top { None } else { Some(parent@) };
    let ghost sv = sites_view(sites@);
    let ghost s0 = state_of(taken@, notes@);
    let ord = key_positions(v);
    proof {
        lemma_project_keys(v@);
    }
    let ghost ko = key_order(keys_of(pv));
    let n = v.len();
    let mut j: usize = 0;
    while j < ord.len()
        invariant
            j <= ord@.len(),
            ord@.len() == n,
            n == v0.len(),
            v@.len() == n,
            pv == projects_view(v0),
            ko == key_order(keys_of(pv)),
            ord@.map_values(|x: usize| x as int) == ko,
            permutation_of(ko, n as nat),
            forall|k: int| j <= k < n ==> #[trigger] v@[ko[k]] == v0[ko[k]],
            par == (if top { None } else { Some(parent@) }),
            sv == sites_view(sites@),
            (projects_view(v@), state_of(taken@, notes@)) == resolve_projects(par, pv, string_views(g@), sv, s0, j as nat),
        decreases ord.len() - j,
    {
        let i = ord[j];
        assert(ko[j as int] == i as int);
        assert(v@[i as int] == v0[i as int]);
        let ghost cur = projects_view(v@);
        let ghost raw = v@;
        let path = path_exec(parent, top, v[i].0.as_str());
        let (name, mut p) = v.remove(i);
        let ghost p0 = project_view(p);
        resolve_extra_exec(&mut p.extra, path.as_str(), g, sites, taken, notes);
        let ghost e2 = typed_view(p.extra@);
        v.insert(i, (name, p));
        assert(v@ =~= raw.update(i as int, v@[i as int]));
        assert(project_view(v@[i as int].1) == ProjectV { extra: e2, ..p0 });
        assert(projects_view(v@) =~= cur.update(i as int, (pv[i as int].0, ProjectV { extra: e2, ..p0 })));
        proof {
            assert forall|k: int| j + 1 <= k < n implies #[trigger] v@[ko[k]] == v0[ko[k]] by {
                assert(ko[k] != ko[j as int]);
                assert(v@[ko[k]] == raw[ko[k]]);
            }
        }
        j = j + 1;
    }
}

fn resolve_folders_exec(parent: &str, top: bool, v: &mut Vec<(String, Folder)>, g: &[String],
    sites: &Vec<((String, String, String), Vec<String>)>, taken: &mut Vec<(String, String)>, notes: &mut Vec<String>)
    ensures
        (folders_view(final(v)@), state_of(final(taken)@, final(notes)@)) == resolve_folders(if top { None } else { Some(parent@) },
            folders_view(old(v)@), string_views(g@), sites_view(sites@), state_of(old(taken)@, old(notes)@), old(v)@.len() as nat),
    decreases folders_view(old(v)@),
{
    let ghost fv = folders_view(v@);
    let ghost v0 = v@;
    let ghost par = if top { None } else { Some(parent@) };
    let ghost sv = sites_view(sites@);
    let ghost s0 = state_of(taken@, notes@);
    let ord = key_positions(v);
    proof {
        lemma_folder_keys(v@);
        lemma_folders_view(v@);
    }
    let ghost ko = key_order(keys_of(fv));
    let n = v.len();
    let mut j: usize = 0;
    while j < ord.len()
        invariant
            j <= ord@.len(),
            ord@.len() == n,
            n == v0.len(),
            v0 == old(v)@,
            v@.len() == n,
            fv == folders_view(v0),
            fv.len() == n,
            forall|x: int| 0 <= x < n ==> #[trigger] fv[x] == (v0[x].0@, folder_view(v0[x].1)),
            ko == key_order(keys_of(fv)),
            ord@.map_values(|x: usize| x as int) == ko,
            permutation_of(ko, n as nat),
            forall|k: int| j <= k < n ==> #[trigger] v@[ko[k]] == v0[ko[k]],
            par == (if top { None } else { Some(parent@) }),
            sv == sites_view(sites@),
            (folders_view(v@), state_of(taken@, notes@)) == resolve_folders(par, fv, string_views(g@), sv, s0, j as nat),
        decreases ord.len() - j,
    {
        let i = ord[j];
        assert(ko[j as int] == i as int);
        assert(v@[i as int] == v0[i as int]);
        let ghost cur = folders_view(v@);
        let ghost raw = v@;
        proof {
            lemma_folders_view(v@);
        }
        let path = path_exec(parent, top, v[i].0.as_str());
        let (name, f) = v.remove(i);
        proof {
            assert(fv[i as int] == (name@, folder_view(f)));
            assert(decreases_to!(fv => fv[i as int]));
            assert(decreases_to!(fv[i as int] => fv[i as int].1));
        }
        let f2 = resolve_folder_exec(path.as_str(), f, g, sites, taken, notes);
        let ghost f2v = folder_view(f2);
        v.insert(i, (name, f2));
        assert(v@ =~= raw.update(i as int, v@[i as int]));
        proof {
            lemma_folders_view(v@);
        }
        assert(folders_view(v@) =~= cur.update(i as int, (fv[i as int].0, f2v)));
        proof {
            assert forall|k: int| j + 1 <= k < n implies #[trigger] v@[ko[k]] == v0[ko[k]] by {
                assert(ko[k] != ko[j as int]);
                assert(v@[ko[k]] == raw[ko[k]]);
            }
        }
        j = j + 1;
    }
}

fn resolve_folder_exec(path: &str, f: Folder, g: &[String], sites: &Vec<((String, String, String), Vec<String>)>,
    taken: &mut Vec<(String, String)>, notes: &mut Vec<String>) -> (r: Folder)
    ensures
        (folder_view(r), state_of(final(taken)@, final(notes)@)) == resolve_folder(path@, folder_view(f), string_views(g@),
            sites_view(sites@), state_of(old(taken)@, old(notes)@)),
    decreases folder_view(f),
{
    let ghost fv = folder_view(f);
    let ghost gv = string_views(g@);
    let ghost sv = sites_view(sites@);
    let ghost s0 = state_of(taken@, notes@);
    let mut f = f;
    resolve_extra_exec(&mut f.extra, path, g, sites, taken, notes);
    let ghost e2 = typed_view(f.extra@);
    let ghost s1 = state_of(taken@, notes@);
    assert((e2, s1) == resolve_extra(fv.extra, path@, gv, sv, s0, fv.extra.len()));
    let subs = match f.folder {
        Some(v) => {
            let mut v = v;
            let ghost s = folders_view(v@);
            proof {
                assert(fv.folder == Some(s));
                assert(decreases_to!(fv => fv.folder));
                assert(decreases_to!(fv.folder => fv.folder->Some_0));
                lemma_folders_view(v@);
            }
            resolve_folders_exec(path, false, &mut v, g, sites, taken, notes);
            Some(v)
        },
        None => {
            assert(fv.folder is None);
            None
        },
    };
    let ghost s2 = state_of(taken@, notes@);
    let ghost subs_v: Option<Seq<(Seq<char>, FolderV)>> = if subs is Some {
        Some(folders_view(subs->Some_0@))
    } else {
        None
    };
    assert((subs_v, s2) == (match fv.folder {
        Some(s) => {
            let (s2, t2) = resolve_folders(Some(path@), s, gv, sv, s1, s.len());
            (Some(s2), t2)
        },
        None => (None, s1),
    }));
    f.folder = subs;
    let projs = match f.project {
        Some(v) => {
            let mut v = v;
            assert(fv.project == Some(projects_view(v@)));
            resolve_projects_exec(path, false, &mut v, g, sites, taken, notes);
            Some(v)
        },
        None => {
            assert(fv.project is None);
            None
        },
    };
    let ghost projs_v: Option<Seq<(Seq<char>, ProjectV)>> = if projs is Some {
        Some(projects_view(projs->Some_0@))
    } else {
        None
    };
    assert((projs_v, state_of(taken@, notes@)) == (match fv.project {
        Some(s) => {
            let (s3, t3) = resolve_projects(Some(path@), s, gv, sv, s2, s.len());
            (Some(s3), t3)
        },
        None => (None, s2),
    }));
    f.project = projs;
    assert(folder_view(f) == FolderV { extra: e2, folder: subs_v, project: projs_v, ..fv });
    f
}

/// The grant edges that two folders, or two projects, of an imported estate
/// both hold (`grant_maps` names the types whose maps are keyed by member),
/// resolved per `mode`. With none, nothing changes and there is nothing to
/// say. `Error` refuses the estate with every such edge and the nodes that
/// hold it. `Counter` keeps each edge in the map form on the first node that
/// holds it — folders before projects, siblings by key, a folder before its
/// children — and writes it on every other node as a labelled resource with a
/// running number; a member left with no role leaves its map. One note per
/// edge rewritten.
pub fn resolve_grant_collisions(config: &mut Config, mode: OnCollision, grant_maps: &[String]) -> (r: Result<Vec<String>, String>)
    ensures
        !any_colliding(see_config(config_view(*old(config)), string_views(grant_maps@)).sites) ==> r is Ok && r->Ok_0@.len() == 0
            && *final(config) == *old(config),
        any_colliding(see_config(config_view(*old(config)), string_views(grant_maps@)).sites) && mode is Error ==> r is Err
            && r->Err_0@ == collision_report(see_config(config_view(*old(config)), string_views(grant_maps@)).sites)
            && *final(config) == *old(config),
        any_colliding(see_config(config_view(*old(config)), string_views(grant_maps@)).sites) && mode is Counter ==> r is Ok
            && string_views(r->Ok_0@) == resolve_config(config_view(*old(config)), string_views(grant_maps@),
                see_config(config_view(*old(config)), string_views(grant_maps@))).1
            && config_view(*final(config)) == resolve_config(config_view(*old(config)), string_views(grant_maps@),
                see_config(config_view(*old(config)), string_views(grant_maps@))).0,
        final(config).terraform == old(config).terraform,
        final(config).providers == old(config).providers,
        final(config).org_policy_policy == old(config).org_policy_policy,
        final(config).google_organization_policy == old(config).google_organization_policy,
        final(config).organization_iam_member == old(config).organization_iam_member,
        final(config).billing_account_iam_member == old(config).billing_account_iam_member,
        final(config).extra == old(config).extra,
{
    let ghost c0 = config_view(*config);
    let ghost gv = string_views(grant_maps@);
    let (sites, taken) = see_config_exec(config, grant_maps);
    let ghost seen = see_config(c0, gv);
    let ghost sv = sites_view(sites@);
    assert(sv == seen.sites);
    let es = collision_list(&sites);
    if es.len() == 0 {
        proof {
            assert forall|e: Edge| !#[trigger] colliding(sv, e) by {
                if colliding(sv, e) {
                    assert(edges_view(es@).contains(e));
                }
            }
        }
        return Ok(Vec::new());
    }
    proof {
        assert(edges_view(es@).contains(edges_view(es@)[0]));
        assert(colliding(sv, edges_view(es@)[0]));
    }
    match mode {
        OnCollision::Error => {
            return Err(report_exec(&sites));
        },
        OnCollision::Counter => {},
    }
    let mut taken = taken;
    let mut notes: Vec<String> = Vec::new();
    let ghost st0 = state_of(taken@, notes@);
    assert(string_views(notes@) =~= Seq::<Seq<char>>::empty());
    assert(st0 == Resolving { taken: seen.taken, notes: seq![] });
    let folders = config.folder.take();
    match folders {
        Some(v) => {
            let mut v = v;
            let ghost s = folders_view(v@);
            assert(c0.folder == Some(s));
            proof {
                lemma_folders_view(v@);
            }
            resolve_folders_exec("", true, &mut v, grant_maps, &sites, &mut taken, &mut notes);
            config.folder = Some(v);
        },
        None => {
            assert(c0.folder is None);
        },
    }
    let ghost st1 = state_of(taken@, notes@);
    assert((config_view(*config).folder, st1) == (match c0.folder {
        Some(s) => {
            let (s2, t) = resolve_folders(None, s, gv, sv, st0, s.len());
            (Some(s2), t)
        },
        None => (None, st0),
    }));
    let projects = config.project.take();
    match projects {
        Some(v) => {
            let mut v = v;
            assert(c0.project == Some(projects_view(v@)));
            resolve_projects_exec("", true, &mut v, grant_maps, &sites, &mut taken, &mut notes);
            config.project = Some(v);
        },
        None => {
            assert(c0.project is None);
        },
    }
    assert((config_view(*config).project, state_of(taken@, notes@)) == (match c0.project {
        Some(s) => {
            let (s2, t) = resolve_projects(None, s, gv, sv, st1, s.len());
            (Some(s2), t)
        },
        None => (None, st1),
    }));
    Ok(notes)
}

// ---------------------------------------------------------------------------
// Writing a grant into a node's resources
// ---------------------------------------------------------------------------

/// Some entry of `roles` names `role`.
pub open spec fn names_role(roles: Seq<YamlV>, role: Seq<char>) -> bool {
    exists|i: int| 0 <= i < roles.len() && #[trigger] role_of(roles[i]) == Some(role)
}

/// A member's roles with `role` added, unless an entry names it already: in
/// the object form with its import id where it has one, else as the role.
pub open spec fn with_grant(roles: Seq<YamlV>, role: Seq<char>, id: Option<Seq<char>>) -> Seq<YamlV> {
    if names_role(roles, role) {
        roles
    } else {
        roles.push(match id {
            Some(i) => YamlV::Mapping(seq![(skey("role"@), YamlV::Str(role)), (skey("import-id"@), YamlV::Str(i))]),
            None => YamlV::Str(role),
        })
    }
}

pub open spec fn opt_view(o: Option<String>) -> Option<Seq<char>> {
    match o {
        Some(s) => Some(s@),
        None => None,
    }
}

/// Add `role` to a member's roles, unless an entry names it already.
pub fn push_grant(roles: &mut Vec<Yaml>, role: &str, import_id: Option<String>)
    ensures
        seq_view(final(roles)@) == with_grant(seq_view(old(roles)@), role@, opt_view(import_id)),
{
    let ghost rv = seq_view(roles@);
    proof {
        lemma_seq_view(roles@);
    }
    let mut i: usize = 0;
    while i < roles.len()
        invariant
            i <= roles@.len(),
            rv == seq_view(roles@),
            rv.len() == roles@.len(),
            forall|j: int| 0 <= j < roles@.len() ==> #[trigger] rv[j] == yaml_view(roles@[j]),
            forall|j: int| 0 <= j < i ==> #[trigger] role_of(rv[j]) != Some(role@),
        decreases roles.len() - i,
    {
        match role_exec(&roles[i]) {
            Some(r) => {
                if crate::text::str_eq(r.as_str(), role) {
                    assert(role_of(rv[i as int]) == Some(role@));
                    return;
                }
            },
            None => {},
        }
        i = i + 1;
    }
    let entry = match import_id {
        Some(id) => grant_entry(role, id.as_str()),
        None => Yaml::Str(String::from_str(role)),
    };
    let ghost ev = yaml_view(entry);
    roles.push(entry);
    proof {
        lemma_seq_view(roles@);
    }
    assert(seq_view(roles@) =~= rv.push(ev));
}

/// The scope a pinned map names under `pin`.
pub open spec fn scope_of(m: YamlV, pin: Seq<char>) -> Option<Seq<char>> {
    match untagged(m) {
        YamlV::Mapping(mm) => match get(mm, skey(pin)) {
            Some(v) => str_of(untagged(v)),
            None => None,
        },
        _ => None,
    }
}

/// The first of `maps` pinned to `scope`.
pub open spec fn scope_at(maps: Seq<YamlV>, pin: Seq<char>, scope: Seq<char>) -> Option<int>
    decreases maps.len(),
{
    if maps.len() == 0 {
        None
    } else {
        match scope_at(maps.drop_last(), pin, scope) {
            Some(j) => Some(j),
            None => if scope_of(maps.last(), pin) == Some(scope) { Some(maps.len() - 1) } else { None },
        }
    }
}

proof fn lemma_scope_at(maps: Seq<YamlV>, pin: Seq<char>, scope: Seq<char>)
    ensures
        match scope_at(maps, pin, scope) {
            Some(j) => 0 <= j < maps.len() && scope_of(maps[j], pin) == Some(scope)
                && forall|k: int| 0 <= k < j ==> #[trigger] scope_of(maps[k], pin) != Some(scope),
            None => forall|k: int| 0 <= k < maps.len() ==> #[trigger] scope_of(maps[k], pin) != Some(scope),
        },
    decreases maps.len(),
{
    if maps.len() > 0 {
        lemma_scope_at(maps.drop_last(), pin, scope);
        assert forall|k: int| 0 <= k < maps.len() - 1 implies #[trigger] maps[k] == maps.drop_last()[k] by {}
    }
}

/// A member's grant map with `role` granted to `member`.
pub open spec fn member_granted(mm: Seq<(YamlV, YamlV)>, member: Seq<char>, role: Seq<char>, id: Option<Seq<char>>)
    -> Seq<(YamlV, YamlV)> {
    let mm1 = if crate::yaml::find_key(mm, skey(member)) is Some { mm } else { mm.push((skey(member), YamlV::Sequence(seq![]))) };
    match get(mm1, skey(member)) {
        Some(YamlV::Sequence(roles)) => crate::yaml::set_key(mm1, skey(member), YamlV::Sequence(with_grant(roles, role, id))),
        _ => mm1,
    }
}

/// The maps of a pinned grant type with `role` granted to `member` in the
/// map for `scope`; a new scope opens a new map.
pub open spec fn pinned_map(maps: Seq<YamlV>, pin: Seq<char>, scope: Seq<char>, member: Seq<char>, role: Seq<char>,
    id: Option<Seq<char>>) -> Seq<YamlV> {
    let (maps1, j) = match scope_at(maps, pin, scope) {
        Some(j) => (maps, j),
        None => (maps.push(YamlV::Mapping(seq![(skey(pin), YamlV::Str(scope))])), maps.len() as int),
    };
    match untagged(maps1[j]) {
        YamlV::Mapping(mm) => maps1.update(j, with_map(maps1[j], member_granted(mm, member, role, id))),
        _ => maps1,
    }
}

/// A node's resources with a grant on a scope the map form names in the
/// map: the type holds a list of maps, one per scope value.
pub open spec fn pinned(e: Seq<(Seq<char>, YamlV)>, t: Seq<char>, pin: Seq<char>, scope: Seq<char>, member: Seq<char>,
    role: Seq<char>, id: Option<Seq<char>>) -> Seq<(Seq<char>, YamlV)> {
    let e1 = match key_at(e, t) {
        Some(_) => e,
        None => e.push((t, YamlV::Sequence(seq![]))),
    };
    let i = key_at(e1, t)->Some_0;
    match e1[i].1 {
        YamlV::Sequence(maps) => e1.update(i, (t, YamlV::Sequence(pinned_map(maps, pin, scope, member, role, id)))),
        _ => e1,
    }
}

fn scope_position(maps: &Vec<Yaml>, pin: &str, scope: &str) -> (r: Option<usize>)
    ensures
        match r {
            Some(j) => scope_at(seq_view(maps@), pin@, scope@) == Some(j as int),
            None => scope_at(seq_view(maps@), pin@, scope@) is None,
        },
{
    let ghost mv = seq_view(maps@);
    proof {
        lemma_seq_view(maps@);
        lemma_scope_at(mv, pin@, scope@);
    }
    let mut j: usize = 0;
    while j < maps.len()
        invariant
            j <= maps@.len(),
            mv == seq_view(maps@),
            mv.len() == maps@.len(),
            forall|k: int| 0 <= k < maps@.len() ==> #[trigger] mv[k] == yaml_view(maps@[k]),
            forall|k: int| 0 <= k < j ==> #[trigger] scope_of(mv[k], pin@) != Some(scope@),
        decreases maps.len() - j,
    {
        let hit = match crate::yaml::untag(&maps[j]) {
            Yaml::Mapping(mm) => match crate::yaml::get_str(mm, pin) {
                Some(v) => match crate::yaml::as_str(crate::yaml::untag(v)) {
                    Some(s) => crate::text::str_eq(s.as_str(), scope),
                    None => false,
                },
                None => false,
            },
            _ => false,
        };
        if hit {
            assert(scope_of(mv[j as int], pin@) == Some(scope@));
            proof {
                lemma_scope_at(mv, pin@, scope@);
                match scope_at(mv, pin@, scope@) {
                    Some(x) => {
                        if x > j {
                            assert(scope_of(mv[j as int], pin@) != Some(scope@));
                        }
                    },
                    None => {
                        assert(scope_of(mv[j as int], pin@) != Some(scope@));
                    },
                }
            }
            return Some(j);
        }
        j = j + 1;
    }
    proof {
        lemma_scope_at(mv, pin@, scope@);
        match scope_at(mv, pin@, scope@) {
            Some(x) => {
                assert(scope_of(mv[x], pin@) != Some(scope@));
            },
            None => {},
        }
    }
    None
}

fn grant_member(mm: &mut Vec<(Yaml, Yaml)>, member: &str, role: &str, import_id: Option<String>)
    ensures
        entries_view(final(mm)@) == member_granted(entries_view(old(mm)@), member@, role@, opt_view(import_id)),
{
    let ghost m0 = entries_view(mm@);
    match crate::yaml::find_str(mm, member) {
        Some(_) => {},
        None => {
            mm.push((Yaml::Str(String::from_str(member)), Yaml::Sequence(Vec::new())));
            proof {
                lemma_entries_view(mm@);
                lemma_entries_view(old(mm)@);
                lemma_seq_view(Seq::<Yaml>::empty());
            }
            assert(seq_view(Seq::<Yaml>::empty()) =~= Seq::<YamlV>::empty());
            assert(entries_view(mm@) =~= m0.push((skey(member@), YamlV::Sequence(seq![]))));
        },
    }
    let ghost m1 = entries_view(mm@);
    proof {
        crate::yaml::lemma_find_key(m1, skey(member@));
        lemma_entries_view(mm@);
    }
    match crate::yaml::find_str(mm, member) {
        Some(k) => {
            let roles_opt: Option<Vec<Yaml>> = match &mm[k].1 {
                Yaml::Sequence(roles) => {
                    let mut r2 = crate::yaml::clone_seq(roles);
                    push_grant(&mut r2, role, import_id);
                    Some(r2)
                },
                _ => None,
            };
            match roles_opt {
                Some(r2) => {
                    crate::yaml::set_at(mm, k, Yaml::Sequence(r2));
                },
                None => {},
            }
        },
        None => {},
    }
}

/// `v` with `role` granted to `member` in the mapping under its tags.
fn grant_into(v: Yaml, member: &str, role: &str, import_id: Option<String>) -> (r: Yaml)
    ensures
        yaml_view(r) == match untagged(yaml_view(v)) {
            YamlV::Mapping(mm) => with_map(yaml_view(v), member_granted(mm, member@, role@, opt_view(import_id))),
            _ => yaml_view(v),
        },
    decreases v,
{
    match v {
        Yaml::Mapping(mm) => {
            let mut mm = mm;
            grant_member(&mut mm, member, role, import_id);
            Yaml::Mapping(mm)
        },
        Yaml::Tagged(tag, b) => {
            let inner = grant_into(*b, member, role, import_id);
            Yaml::Tagged(tag, Box::new(inner))
        },
        other => other,
    }
}

/// A grant on a scope the map form names in the map (`bucket = …`): one map
/// per scope value under the type key, kept as a list of maps. The member's
/// roles join the map for that scope; a new scope opens a new map.
pub fn push_pinned_grant(extra: &mut Vec<(String, Yaml)>, tf_type: &str, pin: &str, scope_value: &str, member: &str, role: &str,
    import_id: Option<String>)
    ensures
        typed_view(final(extra)@) == pinned(typed_view(old(extra)@), tf_type@, pin@, scope_value@, member@, role@, opt_view(import_id)),
{
    let ghost e0 = typed_view(extra@);
    proof {
        lemma_key_at(e0, tf_type@);
    }
    let pos = match crate::discovery::position_of(extra, tf_type) {
        Some(i) => {
            proof {
                lemma_key_at_is(e0, tf_type@, i as int);
            }
            i
        },
        None => {
            proof {
                lemma_key_at_none(e0, tf_type@);
            }
            extra.push((String::from_str(tf_type), Yaml::Sequence(Vec::new())));
            proof {
                lemma_seq_view(Seq::<Yaml>::empty());
                assert(seq_view(Seq::<Yaml>::empty()) =~= Seq::<YamlV>::empty());
                assert(typed_view(extra@) =~= e0.push((tf_type@, YamlV::Sequence(seq![]))));
                lemma_key_at_push(e0, (tf_type@, YamlV::Sequence(seq![])), tf_type@);
            }
            extra.len() - 1
        },
    };
    let ghost e1 = typed_view(extra@);
    assert(key_at(e1, tf_type@) == Some(pos as int));
    let ghost raw = extra@;
    let (t, v) = extra.remove(pos);
    let v2 = match v {
        Yaml::Sequence(maps) => {
            let mut maps = maps;
            let ghost mv = seq_view(maps@);
            proof {
                lemma_seq_view(maps@);
                lemma_scope_at(mv, pin@, scope_value@);
            }
            let j = match scope_position(&maps, pin, scope_value) {
                Some(j) => j,
                None => {
                    let mut first: Vec<(Yaml, Yaml)> = Vec::new();
                    first.push((Yaml::Str(String::from_str(pin)), Yaml::Str(String::from_str(scope_value))));
                    proof {
                        lemma_entries_view(first@);
                    }
                    assert(entries_view(first@) =~= seq![(skey(pin@), YamlV::Str(scope_value@))]);
                    maps.push(Yaml::Mapping(first));
                    proof {
                        lemma_seq_view(maps@);
                    }
                    assert(seq_view(maps@) =~= mv.push(YamlV::Mapping(seq![(skey(pin@), YamlV::Str(scope_value@))])));
                    maps.len() - 1
                },
            };
            let ghost m1 = seq_view(maps@);
            proof {
                lemma_seq_view(maps@);
            }
            let ghost mraw = maps@;
            let mj = maps.remove(j);
            let mj2 = grant_into(mj, member, role, import_id);
            let ghost mj2v = yaml_view(mj2);
            maps.insert(j, mj2);
            proof {
                lemma_seq_view(maps@);
                assert(maps@ =~= mraw.update(j as int, maps@[j as int]));
                assert(seq_view(maps@) =~= m1.update(j as int, mj2v));
                if !(untagged(m1[j as int]) is Mapping) {
                    assert(seq_view(maps@) =~= m1);
                }
            }
            Yaml::Sequence(maps)
        },
        other => other,
    };
    let ghost v2v = yaml_view(v2);
    extra.insert(pos, (t, v2));
    assert(extra@ =~= raw.update(pos as int, extra@[pos as int]));
    assert(typed_view(extra@) =~= e1.update(pos as int, (tf_type@, v2v)));
    proof {
        if !(e1[pos as int].1 is Sequence) {
            assert(typed_view(extra@) =~= e1);
        }
    }
}

} // verus!
