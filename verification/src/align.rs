//! Schema alignment: the API's vocabulary against Terraform's, computed once
//! per resource type — what each API path becomes in the Terraform shape,
//! how the row was found, and what has no counterpart on either side.

use vstd::prelude::*;
use vstd::string::*;
use crate::text::{ascii_lower, from_chars, is_ascii_upper, to_ascii_lower, to_chars, has_prefix, rfind, str_eq, concat};
use crate::order::{key_order, string_keys, key_positions, permutation_of, string_views, lex_lt, strictly_sorted};
use crate::yaml::{Yaml, YamlV, yaml_view, entries_view, get, skey, str_of, lemma_entries_view};
use crate::discovery::{key_at, lemma_key_at};

verus! {

/// One resource type's alignment.
#[derive(Debug, Clone, Default, PartialEq, Eq)]
pub struct TypeMap {
    /// API path (dotted, camelCase as the API spells it) → Terraform path
    /// (dotted snake_case), in path order. Only the deviations.
    pub map: Vec<(String, String)>,
    /// How each row was found: `flattened` or `renamed` — the ones to review.
    pub how: Vec<(String, String)>,
    /// API fields nothing in the Terraform schema corresponds to.
    pub unmatched: Vec<String>,
    /// Terraform attributes and blocks the API schema has no source for.
    pub tf_only: Vec<String>,
    /// How many matched exactly.
    pub exact: usize,
}

/// What one character of an API name becomes: an ASCII capital starts a new
/// `_`-separated word (except at the very start) and is lowered.
pub open spec fn snake_piece(c: char, first: bool) -> Seq<char> {
    if is_ascii_upper(c) {
        if first {
            seq![ascii_lower(c)]
        } else {
            seq!['_', ascii_lower(c)]
        }
    } else {
        seq![c]
    }
}

/// `snake_case` of an API name: `uniformBucketLevelAccess` → `uniform_bucket_level_access`.
pub open spec fn snake_of(s: Seq<char>) -> Seq<char>
    decreases s.len(),
{
    if s.len() == 0 {
        seq![]
    } else {
        snake_of(s.drop_last()) + snake_piece(s.last(), s.len() == 1)
    }
}

pub fn snake(s: &str) -> (r: String)
    ensures
        r@ == snake_of(s@),
{
    let c = to_chars(s);
    let mut out: Vec<char> = Vec::new();
    let mut i: usize = 0;
    while i < c.len()
        invariant
            i <= c@.len(),
            out@ == snake_of(c@.take(i as int)),
        decreases c.len() - i,
    {
        assert(c@.take(i + 1).drop_last() =~= c@.take(i as int));
        let ch = c[i];
        if 'A' <= ch && ch <= 'Z' {
            if i > 0 {
                out.push('_');
            }
            out.push(to_ascii_lower(ch));
        } else {
            out.push(ch);
        }
        assert(out@ =~= snake_of(c@.take(i as int)) + snake_piece(ch, i == 0));
        i = i + 1;
    }
    assert(c@.take(i as int) =~= c@);
    from_chars(&out)
}

// ---------------------------------------------------------------------------
// The API side: every field of a Discovery schema
// ---------------------------------------------------------------------------

/// What an API field holds.
#[derive(Debug, Clone, Copy, PartialEq, Eq, Structural)]
pub enum ApiKind {
    /// an object with properties
    Object,
    /// an array of objects with properties
    ArrayOfObjects,
    /// anything else
    Leaf,
}

/// A field of the API schema, with its dotted path.
#[derive(Debug)]
pub struct ApiField {
    pub path: String,
    /// the last segment
    pub name: String,
    pub kind: ApiKind,
    /// the property names of an object or of an array's objects
    pub props: Vec<String>,
}

pub struct FieldV {
    pub path: Seq<char>,
    pub name: Seq<char>,
    pub kind: ApiKind,
    pub props: Seq<Seq<char>>,
}

pub open spec fn field_view(f: ApiField) -> FieldV {
    FieldV { path: f.path@, name: f.name@, kind: f.kind, props: string_views(f.props@) }
}

pub open spec fn fields_view(v: Seq<ApiField>) -> Seq<FieldV> {
    v.map_values(|f: ApiField| field_view(f))
}

/// The member `k` of a JSON object (a schema is JSON, which YAML holds).
pub open spec fn member(v: YamlV, k: Seq<char>) -> Option<YamlV> {
    match v {
        YamlV::Mapping(m) => get(m, skey(k)),
        _ => None,
    }
}

/// A schema with its `$ref` followed through `schemas`, one level.
pub open spec fn resolve_ref(v: YamlV, schemas: YamlV) -> YamlV {
    match member(v, "$ref"@) {
        Some(r) => match str_of(r) {
            Some(name) => match member(schemas, name) {
                Some(s) => s,
                None => v,
            },
            None => v,
        },
        None => v,
    }
}

/// The string keys of an object's members.
pub open spec fn member_names(m: Seq<(YamlV, YamlV)>) -> Seq<Seq<char>> {
    m.map_values(|p: (YamlV, YamlV)| match str_of(p.0) {
        Some(s) => s,
        None => Seq::<char>::empty(),
    })
}

/// The names of a schema's `properties`, in key order.
pub open spec fn prop_names(s: YamlV) -> Seq<Seq<char>> {
    match member(s, "properties"@) {
        Some(YamlV::Mapping(p)) => key_order(member_names(p)).map_values(|i: int| member_names(p)[i]),
        _ => seq![],
    }
}

/// A schema whose `type` is the string `t`.
pub open spec fn type_is(v: YamlV, t: Seq<char>) -> bool {
    match member(v, "type"@) {
        Some(x) => str_of(x) == Some(t),
        None => false,
    }
}

pub open spec fn has_props(v: YamlV) -> bool {
    member(v, "properties"@) is Some
}

/// What a property is, and the schema its own fields are read from.
pub open spec fn kind_of(resolved: YamlV, schemas: YamlV) -> (ApiKind, Option<YamlV>) {
    let item = match member(resolved, "items"@) {
        Some(i) => Some(resolve_ref(i, schemas)),
        None => None,
    };
    if type_is(resolved, "object"@) && has_props(resolved) {
        (ApiKind::Object, Some(resolved))
    } else if type_is(resolved, "array"@) && item is Some && has_props(item->Some_0) {
        (ApiKind::ArrayOfObjects, item)
    } else {
        (ApiKind::Leaf, None)
    }
}

pub open spec fn dotted(prefix: Seq<char>, name: Seq<char>) -> Seq<char> {
    if prefix.len() == 0 { name } else { prefix + "."@ + name }
}

pub open spec fn depth_left(depth: nat) -> nat {
    if depth <= 4 { (4 - depth) as nat } else { 0 }
}

/// Every field of a schema, depth first, paths dotted; below depth four the
/// walk stops.
pub open spec fn api_fields(schema: YamlV, schemas: YamlV, prefix: Seq<char>, depth: nat) -> Seq<FieldV>
    decreases depth_left(depth), 1nat, 0nat,
{
    match member(schema, "properties"@) {
        Some(YamlV::Mapping(props)) => props_fields(props, key_order(member_names(props)), schemas, prefix, depth, props.len()),
        _ => seq![],
    }
}

/// The fields of the first `n` properties in key order `ord`.
pub open spec fn props_fields(props: Seq<(YamlV, YamlV)>, ord: Seq<int>, schemas: YamlV, prefix: Seq<char>, depth: nat, n: nat)
    -> Seq<FieldV>
    decreases depth_left(depth), 0nat, n,
{
    if n == 0 || n > ord.len() {
        seq![]
    } else {
        let before = props_fields(props, ord, schemas, prefix, depth, (n - 1) as nat);
        let i = ord[n - 1];
        if 0 <= i < props.len() && str_of(props[i].0) is Some {
            let name = str_of(props[i].0)->Some_0;
            let path = dotted(prefix, name);
            let resolved = resolve_ref(props[i].1, schemas);
            let (kind, sub) = kind_of(resolved, schemas);
            let props_of_sub = match sub {
                Some(s) => prop_names(s),
                None => seq![],
            };
            let here = before.push(FieldV { path, name, kind, props: props_of_sub });
            match sub {
                Some(s) => if depth < 4 { here + api_fields(s, schemas, path, depth + 1) } else { here },
                None => here,
            }
        } else {
            before
        }
    }
}

pub(crate) fn member_exec<'a>(v: &'a Yaml, k: &str) -> (r: Option<&'a Yaml>)
    ensures
        match r {
            Some(x) => member(yaml_view(*v), k@) == Some(yaml_view(*x)),
            None => member(yaml_view(*v), k@) is None,
        },
{
    match v {
        Yaml::Mapping(m) => crate::yaml::get_str(m, k),
        _ => None,
    }
}

fn resolve_ref_exec(v: &Yaml, schemas: &Yaml) -> (r: Yaml)
    ensures
        yaml_view(r) == resolve_ref(yaml_view(*v), yaml_view(*schemas)),
{
    proof {
        reveal_strlit("$ref");
    }
    match member_exec(v, "$ref") {
        Some(r) => match crate::yaml::as_str(r) {
            Some(name) => match member_exec(schemas, name.as_str()) {
                Some(s) => crate::yaml::clone_yaml(s),
                None => crate::yaml::clone_yaml(v),
            },
            None => crate::yaml::clone_yaml(v),
        },
        None => crate::yaml::clone_yaml(v),
    }
}

/// The member names of an object, each with its place.
fn member_names_exec(p: &Vec<(Yaml, Yaml)>) -> (r: Vec<(String, usize)>)
    ensures
        string_keys(r@) == member_names(entries_view(p@)),
{
    proof {
        lemma_entries_view(p@);
    }
    let mut r: Vec<(String, usize)> = Vec::new();
    let mut i: usize = 0;
    while i < p.len()
        invariant
            i <= p@.len(),
            entries_view(p@).len() == p@.len(),
            forall|j: int| 0 <= j < p@.len() ==> #[trigger] entries_view(p@)[j] == (yaml_view(p@[j].0), yaml_view(p@[j].1)),
            string_keys(r@) == member_names(entries_view(p@)).take(i as int),
        decreases p.len() - i,
    {
        let ghost before = string_keys(r@);
        let name = match crate::yaml::as_str(&p[i].0) {
            Some(s) => s.clone(),
            None => String::new(),
        };
        r.push((name, i));
        assert(string_keys(r@) =~= before.push(member_names(entries_view(p@))[i as int]));
        assert(member_names(entries_view(p@)).take(i + 1) =~= member_names(entries_view(p@)).take(i as int).push(
            member_names(entries_view(p@))[i as int]));
        i = i + 1;
    }
    assert(member_names(entries_view(p@)).take(p.len() as int) =~= member_names(entries_view(p@)));
    r
}

fn prop_names_exec(sch: &Yaml) -> (r: Vec<String>)
    ensures
        string_views(r@) == prop_names(yaml_view(*sch)),
{
    proof {
        reveal_strlit("properties");
    }
    match member_exec(sch, "properties") {
        Some(Yaml::Mapping(p)) => {
            let names = member_names_exec(p);
            let ord = key_positions(&names);
            let ghost mn = member_names(entries_view(p@));
            let ghost ko = key_order(mn);
            let mut r: Vec<String> = Vec::new();
            let mut j: usize = 0;
            while j < ord.len()
                invariant
                    j <= ord@.len(),
                    ord@.len() == names@.len(),
                    mn == string_keys(names@),
                    ko == key_order(mn),
                    ord@.map_values(|x: usize| x as int) == ko,
                    permutation_of(ko, names@.len() as nat),
                    string_views(r@) == ko.take(j as int).map_values(|i: int| mn[i]),
                decreases ord.len() - j,
            {
                let i = ord[j];
                assert(ko[j as int] == i as int);
                let ghost before = string_views(r@);
                r.push(names[i].0.clone());
                assert(string_views(r@) =~= before.push(mn[i as int]));
                assert(ko.take(j + 1).map_values(|i: int| mn[i]) =~= ko.take(j as int).map_values(|i: int| mn[i]).push(mn[i as int]));
                j = j + 1;
            }
            assert(ko.take(ord.len() as int) =~= ko);
            r
        },
        _ => Vec::new(),
    }
}

fn type_is_exec(v: &Yaml, t: &str) -> (b: bool)
    ensures
        b == type_is(yaml_view(*v), t@),
{
    proof {
        reveal_strlit("type");
    }
    match member_exec(v, "type") {
        Some(x) => match crate::yaml::as_str(x) {
            Some(s) => str_eq(s.as_str(), t),
            None => false,
        },
        None => false,
    }
}

fn kind_exec(resolved: &Yaml, schemas: &Yaml) -> (r: (ApiKind, Option<Yaml>))
    ensures
        (r.0, match r.1 {
            Some(y) => Some(yaml_view(y)),
            None => None,
        }) == kind_of(yaml_view(*resolved), yaml_view(*schemas)),
{
    proof {
        reveal_strlit("items");
        reveal_strlit("properties");
        reveal_strlit("object");
        reveal_strlit("array");
    }
    let item = match member_exec(resolved, "items") {
        Some(i) => Some(resolve_ref_exec(i, schemas)),
        None => None,
    };
    if type_is_exec(resolved, "object") && member_exec(resolved, "properties").is_some() {
        return (ApiKind::Object, Some(crate::yaml::clone_yaml(resolved)));
    }
    if type_is_exec(resolved, "array") {
        match item {
            Some(it) => {
                if member_exec(&it, "properties").is_some() {
                    return (ApiKind::ArrayOfObjects, Some(it));
                }
            },
            None => {},
        }
    }
    (ApiKind::Leaf, None)
}

fn dotted_exec(prefix: &str, name: &str) -> (r: String)
    ensures
        r@ == dotted(prefix@, name@),
{
    if prefix.unicode_len() == 0 {
        String::from_str(name)
    } else {
        proof {
            reveal_strlit(".");
        }
        let a = concat(prefix, ".");
        concat(a.as_str(), name)
    }
}

/// Every field of a schema, appended to `out`, depth first.
fn api_fields_exec(schema: &Yaml, schemas: &Yaml, prefix: &str, depth: usize, out: &mut Vec<ApiField>)
    ensures
        fields_view(final(out)@) == fields_view(old(out)@) + api_fields(yaml_view(*schema), yaml_view(*schemas), prefix@, depth as nat),
    decreases depth_left(depth as nat),
{
    let ghost o0 = fields_view(out@);
    proof {
        reveal_strlit("properties");
    }
    match member_exec(schema, "properties") {
        Some(Yaml::Mapping(props)) => {
            let ghost pv = entries_view(props@);
            proof {
                lemma_entries_view(props@);
            }
            let names = member_names_exec(props);
            let ord = key_positions(&names);
            let ghost ko = key_order(member_names(pv));
            let mut j: usize = 0;
            while j < ord.len()
                invariant
                    j <= ord@.len(),
                    ord@.len() == props@.len(),
                    pv == entries_view(props@),
                    pv.len() == props@.len(),
                    forall|x: int| 0 <= x < props@.len() ==> #[trigger] pv[x] == (yaml_view(props@[x].0), yaml_view(props@[x].1)),
                    member_names(pv) == string_keys(names@),
                    ko == key_order(member_names(pv)),
                    ord@.map_values(|x: usize| x as int) == ko,
                    permutation_of(ko, props@.len() as nat),
                    fields_view(out@) == o0 + props_fields(pv, ko, yaml_view(*schemas), prefix@, depth as nat, j as nat),
                decreases ord.len() - j,
            {
                let i = ord[j];
                assert(ko[j as int] == i as int);
                let ghost before = fields_view(out@);
                match crate::yaml::as_str(&props[i].0) {
                    Some(name) => {
                        let path = dotted_exec(prefix, name.as_str());
                        let resolved = resolve_ref_exec(&props[i].1, schemas);
                        let (kind, sub) = kind_exec(&resolved, schemas);
                        let sub_props = match &sub {
                            Some(sv) => prop_names_exec(sv),
                            None => Vec::new(),
                        };
                        let ghost spv = string_views(sub_props@);
                        assert(spv == match sub {
                            Some(sv) => prop_names(yaml_view(sv)),
                            None => Seq::<Seq<char>>::empty(),
                        });
                        out.push(ApiField { path: path.clone(), name: name.clone(), kind, props: sub_props });
                        assert(fields_view(out@) =~= before.push(FieldV { path: path@, name: name@, kind, props: spv }));
                        match sub {
                            Some(sv) => {
                                if depth < 4 {
                                    let ghost mid = fields_view(out@);
                                    api_fields_exec(&sv, schemas, path.as_str(), depth + 1, out);
                                    assert(fields_view(out@) =~= o0 + props_fields(pv, ko, yaml_view(*schemas), prefix@, depth as nat,
                                        (j + 1) as nat));
                                }
                            },
                            None => {},
                        }
                    },
                    None => {},
                }
                j = j + 1;
            }
        },
        _ => {
            assert(fields_view(out@) =~= o0 + Seq::<FieldV>::empty());
        },
    }
}

// ---------------------------------------------------------------------------
// The Terraform side: a block of the provider schema
// ---------------------------------------------------------------------------

/// How the provider schema marks an attribute.
#[derive(Debug, Clone, Copy, PartialEq, Eq, Structural)]
pub struct AttrFlags {
    pub computed: bool,
    pub optional: bool,
    pub required: bool,
}

/// A block of the provider schema, as the alignment reads it: its
/// attributes and its nested blocks, by name.
#[derive(Debug)]
pub struct BlockShape {
    pub attributes: Vec<(String, AttrFlags)>,
    pub block_types: Vec<(String, BlockShape)>,
}

pub struct BlockV {
    pub attributes: Seq<(Seq<char>, AttrFlags)>,
    pub block_types: Seq<(Seq<char>, BlockV)>,
}

pub open spec fn block_view(b: BlockShape) -> BlockV
    decreases b,
{
    BlockV {
        attributes: b.attributes@.map_values(|p: (String, AttrFlags)| (p.0@, p.1)),
        block_types: blocks_view(b.block_types@),
    }
}

pub open spec fn blocks_view(s: Seq<(String, BlockShape)>) -> Seq<(Seq<char>, BlockV)>
    decreases s,
{
    if s.len() == 0 {
        seq![]
    } else {
        blocks_view(s.subrange(0, s.len() - 1)).push((s[s.len() - 1].0@, block_view(s[s.len() - 1].1)))
    }
}

pub proof fn lemma_blocks_view(s: Seq<(String, BlockShape)>)
    ensures
        blocks_view(s).len() == s.len(),
        forall|i: int| 0 <= i < s.len() ==> #[trigger] blocks_view(s)[i] == (s[i].0@, block_view(s[i].1)),
    decreases s.len(),
{
    if s.len() > 0 {
        lemma_blocks_view(s.subrange(0, s.len() - 1));
    }
}

/// How many attributes and blocks a block holds, all the way down.
pub open spec fn shape_size(b: BlockV) -> nat
    decreases b, 1nat,
{
    b.attributes.len() + blocks_size(b.block_types, key_order(b.block_types.map_values(|p: (Seq<char>, BlockV)| p.0)),
        b.block_types.len())
}

/// The sizes of the first `n` blocks in order `ord`, each counted with its
/// own name.
pub open spec fn blocks_size(s: Seq<(Seq<char>, BlockV)>, ord: Seq<int>, n: nat) -> nat
    decreases s, n,
{
    if n == 0 || n > ord.len() {
        0
    } else {
        let i = ord[n - 1];
        blocks_size(s, ord, (n - 1) as nat) + if 0 <= i < s.len() { 1 + shape_size(s[i].1) } else { 0 }
    }
}

// ---------------------------------------------------------------------------
// The alignment
// ---------------------------------------------------------------------------

/// What the alignment builds: the rows and how each was found, keyed by API
/// path; the unmatched and Terraform-only names; the exact count; and the
/// API paths used so far.
pub struct AlignV {
    pub map: Map<Seq<char>, Seq<char>>,
    pub how: Map<Seq<char>, Seq<char>>,
    pub unmatched: Seq<Seq<char>>,
    pub tf_only: Seq<Seq<char>>,
    pub exact: nat,
    pub used: Set<Seq<char>>,
}

/// A field at the level of the API subtree `api_prefix`.
pub open spec fn same_level(f: FieldV, api_prefix: Seq<char>) -> bool {
    match rfind(f.path, '.') {
        Some(i) => f.path.take(i) == api_prefix,
        None => api_prefix.len() == 0,
    }
}

/// A field inside the API subtree `api_prefix`.
pub open spec fn under(f: FieldV, api_prefix: Seq<char>) -> bool {
    api_prefix.len() == 0 || has_prefix(f.path, api_prefix + "."@)
}

/// The first field at this level whose name is `name` in snake case; for a
/// block, only an object or an array of objects.
pub open spec fn first_exact(fields: Seq<FieldV>, api_prefix: Seq<char>, name: Seq<char>, block: bool, n: nat) -> Option<int>
    decreases n,
{
    if n == 0 || n > fields.len() {
        None
    } else {
        match first_exact(fields, api_prefix, name, block, (n - 1) as nat) {
            Some(i) => Some(i),
            None => {
                let f = fields[n - 1];
                if same_level(f, api_prefix) && snake_of(f.name) == name && (!block || f.kind != ApiKind::Leaf) {
                    Some(n - 1)
                } else {
                    None
                }
            },
        }
    }
}

/// The leaves of the subtree named `name` in snake case, deeper down.
pub open spec fn leaf_cands(fields: Seq<FieldV>, api_prefix: Seq<char>, name: Seq<char>, n: nat) -> Seq<Seq<char>>
    decreases n,
{
    if n == 0 || n > fields.len() {
        seq![]
    } else {
        let c = leaf_cands(fields, api_prefix, name, (n - 1) as nat);
        let f = fields[n - 1];
        if under(f, api_prefix) && f.kind == ApiKind::Leaf && snake_of(f.name) == name { c.push(f.path) } else { c }
    }
}

/// The first of an object's properties that is `enabled` or `value`.
pub open spec fn switch_of(props: Seq<Seq<char>>) -> Option<Seq<char>>
    decreases props.len(),
{
    if props.len() == 0 {
        None
    } else if props[0] == "enabled"@ || props[0] == "value"@ {
        Some(props[0])
    } else {
        switch_of(props.drop_first())
    }
}

/// The objects of the subtree named `name` that wrap a single
/// `enabled`/`value` leaf (at most two properties), by that leaf's path.
pub open spec fn wrap_cands(fields: Seq<FieldV>, api_prefix: Seq<char>, name: Seq<char>, n: nat) -> Seq<Seq<char>>
    decreases n,
{
    if n == 0 || n > fields.len() {
        seq![]
    } else {
        let c = wrap_cands(fields, api_prefix, name, (n - 1) as nat);
        let f = fields[n - 1];
        if under(f, api_prefix) && f.kind == ApiKind::Object && snake_of(f.name) == name && f.props.len() <= 2
            && switch_of(f.props) is Some {
            c.push(f.path + "."@ + switch_of(f.props)->Some_0)
        } else {
            c
        }
    }
}

pub open spec fn with_used(st: AlignV, p: Seq<char>) -> AlignV {
    AlignV { used: st.used.insert(p), ..st }
}

/// One Terraform attribute: matched exactly, found flattened (a single
/// candidate), an output (skipped), or Terraform-only.
pub open spec fn attr_step(fields: Seq<FieldV>, tf_prefix: Seq<char>, api_prefix: Seq<char>, name: Seq<char>, flags: AttrFlags,
    st: AlignV) -> AlignV {
    match first_exact(fields, api_prefix, name, false, fields.len()) {
        Some(i) => AlignV { exact: st.exact + 1, ..with_used(st, fields[i].path) },
        None => if flags.computed && !flags.optional && !flags.required {
            st
        } else {
            let c = leaf_cands(fields, api_prefix, name, fields.len()) + wrap_cands(fields, api_prefix, name, fields.len());
            if c.len() == 1 {
                AlignV {
                    map: st.map.insert(c[0], dotted(tf_prefix, name)),
                    how: st.how.insert(c[0], "flattened"@),
                    ..with_used(st, c[0])
                }
            } else {
                AlignV { tf_only: st.tf_only.push(dotted(tf_prefix, name)), ..st }
            }
        },
    }
}

/// The first `n` attributes in key order `ord`.
pub open spec fn attr_steps(fields: Seq<FieldV>, attrs: Seq<(Seq<char>, AttrFlags)>, ord: Seq<int>, tf_prefix: Seq<char>,
    api_prefix: Seq<char>, st: AlignV, n: nat) -> AlignV
    decreases n,
{
    if n == 0 || n > ord.len() {
        st
    } else {
        let s1 = attr_steps(fields, attrs, ord, tf_prefix, api_prefix, st, (n - 1) as nat);
        let i = ord[n - 1];
        if 0 <= i < attrs.len() { attr_step(fields, tf_prefix, api_prefix, attrs[i].0, attrs[i].1, s1) } else { s1 }
    }
}

/// The names a block holds: its attributes', then its blocks'.
pub open spec fn names_in(b: BlockV) -> Seq<Seq<char>> {
    b.attributes.map_values(|p: (Seq<char>, AttrFlags)| p.0) + b.block_types.map_values(|p: (Seq<char>, BlockV)| p.0)
}

/// The names a block holds, each once, in order.
pub open spec fn block_names(b: BlockV) -> Seq<Seq<char>> {
    choose|r: Seq<Seq<char>>| #[trigger] crate::order::sorted_set_of(r, names_in(b))
}

/// How many of a field's properties name something of the block.
pub open spec fn score(props: Seq<Seq<char>>, names: Seq<Seq<char>>) -> nat
    decreases props.len(),
{
    if props.len() == 0 {
        0
    } else {
        score(props.drop_last(), names) + if names.contains(snake_of(props.last())) { 1nat } else { 0nat }
    }
}

pub open spec fn min_nat(a: nat, b: nat) -> nat {
    if a <= b { a } else { b }
}

/// A field a block may be renamed from: an unused object or array of
/// objects in the subtree, whose properties cover at least half of the
/// smaller side.
pub open spec fn eligible(f: FieldV, api_prefix: Seq<char>, used: Set<Seq<char>>, names: Seq<Seq<char>>) -> bool {
    let n = score(f.props, names);
    let m = min_nat(names.len(), f.props.len());
    &&& under(f, api_prefix)
    &&& f.kind != ApiKind::Leaf
    &&& !used.contains(f.path)
    &&& n > 0
    &&& n * 2 >= if m == 0 { 1 } else { m }
}

/// The eligible field that scores strictly better than every other.
pub open spec fn best_of(fields: Seq<FieldV>, api_prefix: Seq<char>, used: Set<Seq<char>>, names: Seq<Seq<char>>, i: int) -> bool {
    &&& 0 <= i < fields.len()
    &&& eligible(fields[i], api_prefix, used, names)
    &&& forall|j: int| 0 <= j < fields.len() && j != i && eligible(#[trigger] fields[j], api_prefix, used, names)
        ==> score(fields[j].props, names) < score(fields[i].props, names)
}

pub open spec fn renamed_from(fields: Seq<FieldV>, api_prefix: Seq<char>, used: Set<Seq<char>>, names: Seq<Seq<char>>) -> Option<int> {
    if exists|i: int| best_of(fields, api_prefix, used, names, i) {
        Some(choose|i: int| best_of(fields, api_prefix, used, names, i))
    } else {
        None
    }
}

/// The Terraform block `b` at `tf_prefix` aligned against the API subtree
/// at `api_prefix`: its attributes, then its blocks, each in name order.
pub open spec fn align_block(fields: Seq<FieldV>, b: BlockV, tf_prefix: Seq<char>, api_prefix: Seq<char>, st: AlignV) -> AlignV
    decreases b, 0nat, 0nat,
{
    let s1 = attr_steps(fields, b.attributes, key_order(b.attributes.map_values(|p: (Seq<char>, AttrFlags)| p.0)), tf_prefix,
        api_prefix, st, b.attributes.len());
    block_steps(fields, b.block_types, key_order(b.block_types.map_values(|p: (Seq<char>, BlockV)| p.0)), tf_prefix, api_prefix,
        s1, b.block_types.len())
}

/// The first `n` blocks in key order `ord`: `timeouts` skipped; each matched
/// exactly, or renamed from the one best field, and aligned inside; else
/// Terraform-only.
pub open spec fn block_steps(fields: Seq<FieldV>, bts: Seq<(Seq<char>, BlockV)>, ord: Seq<int>, tf_prefix: Seq<char>,
    api_prefix: Seq<char>, st: AlignV, n: nat) -> AlignV
    decreases bts, n, 0nat,
{
    if n == 0 || n > ord.len() {
        st
    } else {
        let s1 = block_steps(fields, bts, ord, tf_prefix, api_prefix, st, (n - 1) as nat);
        let i = ord[n - 1];
        if !(0 <= i < bts.len()) || bts[i].0 == "timeouts"@ {
            s1
        } else {
            let name = bts[i].0;
            let tp = dotted(tf_prefix, name);
            match first_exact(fields, api_prefix, name, true, fields.len()) {
                Some(k) => align_block(fields, bts[i].1, tp, fields[k].path, AlignV { exact: s1.exact + 1, ..with_used(s1, fields[k].path) }),
                None => match renamed_from(fields, api_prefix, s1.used, block_names(bts[i].1)) {
                    Some(k) => align_block(fields, bts[i].1, tp, fields[k].path, AlignV {
                        map: s1.map.insert(fields[k].path, tp),
                        how: s1.how.insert(fields[k].path, "renamed"@),
                        ..with_used(s1, fields[k].path)
                    }),
                    None => AlignV { tf_only: s1.tf_only.push(tp), ..s1 },
                },
            }
        }
    }
}

/// A top-level API field something below it was used for.
pub open spec fn consumed(used: Set<Seq<char>>, path: Seq<char>) -> bool {
    exists|u: Seq<char>| #[trigger] used.contains(u) && (u == path || has_prefix(u, path + "."@))
}

/// The first `n` fields' top-level ones nothing consumed.
pub open spec fn unmatched_of(fields: Seq<FieldV>, used: Set<Seq<char>>, n: nat) -> Seq<Seq<char>>
    decreases n,
{
    if n == 0 || n > fields.len() {
        seq![]
    } else {
        let u = unmatched_of(fields, used, (n - 1) as nat);
        let p = fields[n - 1].path;
        if rfind(p, '.') is None && !consumed(used, p) { u.push(p) } else { u }
    }
}

/// One resource type's alignment: the API schema's fields against the
/// Terraform block, then the top-level API fields nothing consumed.
pub open spec fn alignment(api_schema: YamlV, schemas: YamlV, tf: BlockV) -> AlignV {
    let fields = api_fields(api_schema, schemas, seq![], 0);
    let st0 = AlignV { map: Map::empty(), how: Map::empty(), unmatched: seq![], tf_only: seq![], exact: 0, used: Set::empty() };
    let st = align_block(fields, tf, seq![], seq![], st0);
    AlignV { unmatched: st.unmatched + unmatched_of(fields, st.used, fields.len()), ..st }
}

// ---------------------------------------------------------------------------
// The alignment, executed
// ---------------------------------------------------------------------------

pub open spec fn pair_views(v: Seq<(String, String)>) -> Seq<(Seq<char>, Seq<char>)> {
    v.map_values(|p: (String, String)| (p.0@, p.1@))
}

/// A list of pairs read as a map, the first pair of a key counting.
pub open spec fn as_map(s: Seq<(Seq<char>, Seq<char>)>) -> Map<Seq<char>, Seq<char>> {
    Map::new(|k: Seq<char>| key_at(s, k) is Some, |k: Seq<char>| s[key_at(s, k)->Some_0].1)
}

/// Keys in strictly increasing order.
pub open spec fn sorted_keys(s: Seq<(Seq<char>, Seq<char>)>) -> bool {
    strictly_sorted(s.map_values(|p: (Seq<char>, Seq<char>)| p.0))
}

proof fn lemma_sorted_key_at(s: Seq<(Seq<char>, Seq<char>)>, i: int)
    requires
        sorted_keys(s),
        0 <= i < s.len(),
    ensures
        key_at(s, s[i].0) == Some(i),
{
    lemma_key_at(s, s[i].0);
    let ks = s.map_values(|p: (Seq<char>, Seq<char>)| p.0);
    match key_at(s, s[i].0) {
        Some(j) => {
            if j < i {
                assert(lex_lt(ks[j], ks[i]));
                crate::order::lemma_lex_irreflexive(s[i].0);
            }
        },
        None => {},
    }
}

/// Put `k → val` into a list kept in key order.
fn put_sorted(v: &mut Vec<(String, String)>, k: String, val: String)
    requires
        sorted_keys(pair_views(old(v)@)),
    ensures
        sorted_keys(pair_views(final(v)@)),
        as_map(pair_views(final(v)@)) == as_map(pair_views(old(v)@)).insert(k@, val@),
{
    let ghost s0 = pair_views(v@);
    let ghost ks0 = s0.map_values(|p: (Seq<char>, Seq<char>)| p.0);
    let ghost kv = k@;
    let ghost vv = val@;
    let mut i: usize = 0;
    while i < v.len()
        invariant
            i <= v@.len(),
            s0 == pair_views(v@),
            ks0 == s0.map_values(|p: (Seq<char>, Seq<char>)| p.0),
            sorted_keys(s0),
            kv == k@,
            forall|j: int| 0 <= j < i ==> lex_lt(#[trigger] ks0[j], kv),
        ensures
            i <= v@.len(),
            s0 == pair_views(v@),
            forall|j: int| 0 <= j < i ==> lex_lt(#[trigger] ks0[j], kv),
            i < v@.len() ==> !lex_lt(ks0[i as int], kv),
        decreases v.len() - i,
    {
        assert(ks0[i as int] == v@[i as int].0@);
        if crate::order::compare_str(v[i].0.as_str(), k.as_str()) != -1 {
            break;
        }
        i = i + 1;
    }
    let ghost at = i as int;
    if i < v.len() && crate::text::str_eq(v[i].0.as_str(), k.as_str()) {
        let (kk, _) = v.remove(i);
        v.insert(i, (kk, val));
        proof {
            let s1 = pair_views(v@);
            assert(s1 =~= s0.update(at, (kv, vv)));
            assert(s1.map_values(|p: (Seq<char>, Seq<char>)| p.0) =~= ks0);
            assert(s0[at].0 == kv);
            assert(s1 =~= s0.update(at, (s0[at].0, vv)));
            assert forall|x: Seq<char>| #[trigger] as_map(s1).contains_key(x) <==> as_map(s0).insert(kv, vv).contains_key(x) by {
                crate::discovery::lemma_key_at_update(s0, at, vv, x);
                lemma_key_at(s0, x);
                if x == kv {
                    lemma_sorted_key_at(s0, at);
                }
            }
            assert forall|x: Seq<char>| as_map(s1).contains_key(x) implies #[trigger] as_map(s1)[x] == as_map(s0).insert(kv, vv)[x] by {
                crate::discovery::lemma_key_at_update(s0, at, vv, x);
                lemma_key_at(s0, x);
                if x == kv {
                    lemma_sorted_key_at(s0, at);
                }
            }
            assert(as_map(s1) =~= as_map(s0).insert(kv, vv));
        }
    } else {
        proof {
            if at < s0.len() {
                crate::order::lemma_lex_total(ks0[at], kv);
            }
        }
        v.insert(i, (k, val));
        proof {
            let s1 = pair_views(v@);
            let ks1 = s1.map_values(|p: (Seq<char>, Seq<char>)| p.0);
            assert(s1 =~= s0.insert(at, (kv, vv)));
            assert(ks1 =~= ks0.insert(at, kv));
            assert forall|p: int, q: int| 0 <= p < q < ks1.len() implies lex_lt(#[trigger] ks1[p], #[trigger] ks1[q]) by {
                if q < at {
                } else if q == at {
                } else if p < at {
                    if at < ks0.len() {
                        if q - 1 > at {
                            assert(lex_lt(ks0[at], ks0[q - 1]));
                            crate::order::lemma_lex_trans(kv, ks0[at], ks0[q - 1]);
                        }
                        crate::order::lemma_lex_trans(ks0[p], kv, ks0[q - 1]);
                    }
                } else if p == at {
                    if at < ks0.len() {
                        if q - 1 > at {
                            assert(lex_lt(ks0[at], ks0[q - 1]));
                            crate::order::lemma_lex_trans(kv, ks0[at], ks0[q - 1]);
                        }
                    }
                } else {
                    assert(ks1[p] == ks0[p - 1] && ks1[q] == ks0[q - 1]);
                }
            }
            assert forall|x: Seq<char>| #[trigger] as_map(s1).contains_key(x) <==> as_map(s0).insert(kv, vv).contains_key(x) by {
                lemma_key_at(s0, x);
                lemma_key_at(s1, x);
                match key_at(s0, x) {
                    Some(j) => {
                        if j < at {
                            assert(s1[j] == s0[j]);
                        } else {
                            assert(s1[j + 1] == s0[j]);
                        }
                    },
                    None => {},
                }
                if x == kv {
                    assert(s1[at] == (kv, vv));
                }
                match key_at(s1, x) {
                    Some(j) => {
                        if j < at {
                            assert(s0[j] == s1[j]);
                        } else if j > at {
                            assert(s0[j - 1] == s1[j]);
                        }
                    },
                    None => {},
                }
            }
            assert forall|x: Seq<char>| as_map(s1).contains_key(x) implies #[trigger] as_map(s1)[x] == as_map(s0).insert(kv, vv)[x] by {
                lemma_key_at(s1, x);
                let j = key_at(s1, x)->Some_0;
                lemma_sorted_key_at(s1, j);
                if j < at {
                    assert(s0[j] == s1[j]);
                    lemma_sorted_key_at(s0, j);
                    assert(lex_lt(ks0[j], kv));
                    crate::order::lemma_lex_asym(ks0[j], kv);
                } else if j > at {
                    assert(s0[j - 1] == s1[j]);
                    lemma_sorted_key_at(s0, j - 1);
                    assert(ks1[at] == kv);
                    assert(lex_lt(ks1[at], ks1[j]));
                    crate::order::lemma_lex_asym(kv, ks1[j]);
                }
            }
            assert(as_map(s1) =~= as_map(s0).insert(kv, vv));
        }
    }
}

pub open spec fn state_view(tm: TypeMap, used: Seq<String>) -> AlignV {
    AlignV {
        map: as_map(pair_views(tm.map@)),
        how: as_map(pair_views(tm.how@)),
        unmatched: string_views(tm.unmatched@),
        tf_only: string_views(tm.tf_only@),
        exact: tm.exact as nat,
        used: string_views(used).to_set(),
    }
}

/// The rows and their reasons are kept in path order.
pub open spec fn tm_wf(tm: TypeMap) -> bool {
    sorted_keys(pair_views(tm.map@)) && sorted_keys(pair_views(tm.how@))
}

fn same_level_exec(f: &ApiField, api_prefix: &str) -> (b: bool)
    ensures
        b == same_level(field_view(*f), api_prefix@),
{
    let pc = to_chars(f.path.as_str());
    match crate::text::rfind_char(&pc, '.') {
        Some(i) => {
            let head = crate::text::slice_chars(&pc, 0, i);
            assert(pc@.subrange(0, i as int) =~= pc@.take(i as int));
            crate::text::chars_eq(&head, &to_chars(api_prefix))
        },
        None => api_prefix.unicode_len() == 0,
    }
}

fn under_exec(f: &ApiField, api_prefix: &str) -> (b: bool)
    ensures
        b == under(field_view(*f), api_prefix@),
{
    if api_prefix.unicode_len() == 0 {
        true
    } else {
        let mut p = to_chars(api_prefix);
        p.push('.');
        proof {
            reveal_strlit(".");
        }
        assert(p@ =~= api_prefix@ + "."@);
        crate::text::starts_with(&to_chars(f.path.as_str()), &p)
    }
}

fn first_exact_exec(fields: &Vec<ApiField>, api_prefix: &str, name: &str, block: bool) -> (r: Option<usize>)
    ensures
        match r {
            Some(i) => first_exact(fields_view(fields@), api_prefix@, name@, block, fields@.len() as nat) == Some(i as int)
                && i < fields@.len(),
            None => first_exact(fields_view(fields@), api_prefix@, name@, block, fields@.len() as nat) is None,
        },
{
    let ghost fv = fields_view(fields@);
    let mut i: usize = 0;
    while i < fields.len()
        invariant
            i <= fields@.len(),
            fv == fields_view(fields@),
            first_exact(fv, api_prefix@, name@, block, i as nat) is None,
        decreases fields.len() - i,
    {
        assert(fv[i as int] == field_view(fields@[i as int]));
        let hit = same_level_exec(&fields[i], api_prefix) && str_eq(snake(fields[i].name.as_str()).as_str(), name)
            && (!block || fields[i].kind != ApiKind::Leaf);
        if hit {
            proof {
                lemma_first_exact_stays(fv, api_prefix@, name@, block, (i + 1) as nat, fields@.len() as nat);
            }
            return Some(i);
        }
        i = i + 1;
    }
    None
}

proof fn lemma_first_exact_stays(fields: Seq<FieldV>, api_prefix: Seq<char>, name: Seq<char>, block: bool, n: nat, m: nat)
    requires
        n <= m <= fields.len(),
        first_exact(fields, api_prefix, name, block, n) is Some,
    ensures
        first_exact(fields, api_prefix, name, block, m) == first_exact(fields, api_prefix, name, block, n),
    decreases m - n,
{
    if m > n {
        lemma_first_exact_stays(fields, api_prefix, name, block, n, (m - 1) as nat);
    }
}

fn switch_exec(props: &Vec<String>) -> (r: Option<String>)
    ensures
        match r {
            Some(x) => switch_of(string_views(props@)) == Some(x@),
            None => switch_of(string_views(props@)) is None,
        },
{
    let ghost pv = string_views(props@);
    proof {
        reveal_strlit("enabled");
        reveal_strlit("value");
    }
    let mut i: usize = 0;
    assert(pv.skip(0) =~= pv);
    while i < props.len()
        invariant
            i <= props@.len(),
            pv == string_views(props@),
            switch_of(pv) == switch_of(pv.skip(i as int)),
        decreases props.len() - i,
    {
        assert(pv.skip(i as int)[0] == props@[i as int]@);
        assert(pv.skip(i as int).drop_first() =~= pv.skip(i + 1));
        if str_eq(props[i].as_str(), "enabled") || str_eq(props[i].as_str(), "value") {
            return Some(props[i].clone());
        }
        i = i + 1;
    }
    None
}

/// The single-candidate test's candidates: deeper leaves named `name`, then
/// wrappers of a single `enabled`/`value` leaf.
fn cands_exec(fields: &Vec<ApiField>, api_prefix: &str, name: &str) -> (r: Vec<String>)
    ensures
        string_views(r@) == leaf_cands(fields_view(fields@), api_prefix@, name@, fields@.len() as nat)
            + wrap_cands(fields_view(fields@), api_prefix@, name@, fields@.len() as nat),
{
    let ghost fv = fields_view(fields@);
    let mut leaf: Vec<String> = Vec::new();
    let mut wrap: Vec<String> = Vec::new();
    let mut i: usize = 0;
    while i < fields.len()
        invariant
            i <= fields@.len(),
            fv == fields_view(fields@),
            string_views(leaf@) == leaf_cands(fv, api_prefix@, name@, i as nat),
            string_views(wrap@) == wrap_cands(fv, api_prefix@, name@, i as nat),
        decreases fields.len() - i,
    {
        assert(fv[i as int] == field_view(fields@[i as int]));
        let u = under_exec(&fields[i], api_prefix);
        let same = str_eq(snake(fields[i].name.as_str()).as_str(), name);
        if u && fields[i].kind == ApiKind::Leaf && same {
            let ghost before = string_views(leaf@);
            leaf.push(fields[i].path.clone());
            assert(string_views(leaf@) =~= before.push(fv[i as int].path));
        }
        if u && fields[i].kind == ApiKind::Object && same && fields[i].props.len() <= 2 {
            match switch_exec(&fields[i].props) {
                Some(p) => {
                    let ghost before = string_views(wrap@);
                    let mut c = to_chars(fields[i].path.as_str());
                    c.push('.');
                    crate::text::push_str_chars(&mut c, p.as_str());
                    proof {
                        reveal_strlit(".");
                    }
                    assert(c@ =~= fv[i as int].path + "."@ + p@);
                    let w = from_chars(&c);
                    wrap.push(w);
                    assert(string_views(wrap@) =~= before.push(fv[i as int].path + "."@ + p@));
                },
                None => {},
            }
        }
        i = i + 1;
    }
    let mut r = leaf;
    let ghost lv = string_views(r@);
    let mut j: usize = 0;
    while j < wrap.len()
        invariant
            j <= wrap@.len(),
            string_views(r@) == lv + string_views(wrap@).take(j as int),
        decreases wrap.len() - j,
    {
        let ghost before = string_views(r@);
        r.push(wrap[j].clone());
        assert(string_views(r@) =~= before.push(wrap@[j as int]@));
        assert(string_views(wrap@).take(j + 1) =~= string_views(wrap@).take(j as int).push(wrap@[j as int]@));
        j = j + 1;
    }
    assert(string_views(wrap@).take(wrap.len() as int) =~= string_views(wrap@));
    r
}

proof fn lemma_push_used(used: Seq<String>, x: String)
    ensures
        string_views(used.push(x)).to_set() == string_views(used).to_set().insert(x@),
{
    assert(string_views(used.push(x)) =~= string_views(used).push(x@));
    let s = string_views(used);
    assert forall|y: Seq<char>| s.push(x@).to_set().contains(y) <==> s.to_set().insert(x@).contains(y) by {
        if s.push(x@).contains(y) {
            let i = choose|i: int| 0 <= i < s.len() + 1 && s.push(x@)[i] == y;
            if i < s.len() {
                assert(s[i] == y);
            }
        }
        if s.contains(y) {
            let i = choose|i: int| 0 <= i < s.len() && s[i] == y;
            assert(s.push(x@)[i] == y);
        }
        if y == x@ {
            assert(s.push(x@)[s.len() as int] == x@);
        }
    }
    assert(s.push(x@).to_set() =~= s.to_set().insert(x@));
}

fn attr_step_exec(fields: &Vec<ApiField>, tf_prefix: &str, api_prefix: &str, name: &str, flags: AttrFlags,
    tm: &mut TypeMap, used: &mut Vec<String>)
    requires
        tm_wf(*old(tm)),
        old(tm).exact < usize::MAX,
    ensures
        tm_wf(*final(tm)),
        state_view(*final(tm), final(used)@) == attr_step(fields_view(fields@), tf_prefix@, api_prefix@, name@, flags,
            state_view(*old(tm), old(used)@)),
        final(tm).exact <= old(tm).exact + 1,
{
    let ghost fv = fields_view(fields@);
    let ghost st = state_view(*tm, used@);
    match first_exact_exec(fields, api_prefix, name, false) {
        Some(i) => {
            assert(fv[i as int] == field_view(fields@[i as int]));
            let ghost u0 = used@;
            used.push(fields[i].path.clone());
            proof {
                lemma_push_used(u0, fields@[i as int].path);
            }
            tm.exact = tm.exact + 1;
        },
        None => {
            if flags.computed && !flags.optional && !flags.required {
                return;
            }
            let c = cands_exec(fields, api_prefix, name);
            let tp = dotted_exec(tf_prefix, name);
            if c.len() == 1 {
                proof {
                    reveal_strlit("flattened");
                }
                put_sorted(&mut tm.map, c[0].clone(), tp);
                put_sorted(&mut tm.how, c[0].clone(), String::from_str("flattened"));
                let ghost u0 = used@;
                used.push(c[0].clone());
                proof {
                    lemma_push_used(u0, c@[0]);
                }
            } else {
                let ghost t0 = tm.tf_only@;
                tm.tf_only.push(tp);
                assert(string_views(tm.tf_only@) =~= string_views(t0).push(dotted(tf_prefix@, name@)));
            }
        },
    }
}

fn block_names_exec(b: &BlockShape) -> (r: Vec<String>)
    ensures
        string_views(r@) == block_names(block_view(*b)),
{
    let ghost bv = block_view(*b);
    proof {
        lemma_blocks_view(b.block_types@);
    }
    let mut items: Vec<String> = Vec::new();
    let mut i: usize = 0;
    while i < b.attributes.len()
        invariant
            i <= b.attributes@.len(),
            bv == block_view(*b),
            string_views(items@) == bv.attributes.map_values(|p: (Seq<char>, AttrFlags)| p.0).take(i as int),
        decreases b.attributes.len() - i,
    {
        let ghost before = string_views(items@);
        items.push(b.attributes[i].0.clone());
        assert(string_views(items@) =~= before.push(b.attributes@[i as int].0@));
        assert(bv.attributes.map_values(|p: (Seq<char>, AttrFlags)| p.0).take(i + 1) =~= bv.attributes.map_values(
            |p: (Seq<char>, AttrFlags)| p.0).take(i as int).push(b.attributes@[i as int].0@));
        i = i + 1;
    }
    assert(bv.attributes.map_values(|p: (Seq<char>, AttrFlags)| p.0).take(b.attributes.len() as int) =~= bv.attributes.map_values(
        |p: (Seq<char>, AttrFlags)| p.0));
    let ghost av = string_views(items@);
    let mut j: usize = 0;
    while j < b.block_types.len()
        invariant
            j <= b.block_types@.len(),
            bv == block_view(*b),
            bv.block_types.len() == b.block_types@.len(),
            forall|x: int| 0 <= x < b.block_types@.len() ==> #[trigger] bv.block_types[x] == (b.block_types@[x].0@,
                block_view(b.block_types@[x].1)),
            string_views(items@) == av + bv.block_types.map_values(|p: (Seq<char>, BlockV)| p.0).take(j as int),
        decreases b.block_types.len() - j,
    {
        let ghost before = string_views(items@);
        items.push(b.block_types[j].0.clone());
        assert(bv.block_types[j as int].0 == b.block_types@[j as int].0@);
        assert(string_views(items@) =~= before.push(b.block_types@[j as int].0@));
        assert(bv.block_types.map_values(|p: (Seq<char>, BlockV)| p.0).take(j + 1) =~= bv.block_types.map_values(
            |p: (Seq<char>, BlockV)| p.0).take(j as int).push(b.block_types@[j as int].0@));
        j = j + 1;
    }
    assert(bv.block_types.map_values(|p: (Seq<char>, BlockV)| p.0).take(b.block_types.len() as int) =~= bv.block_types.map_values(
        |p: (Seq<char>, BlockV)| p.0));
    assert(string_views(items@) == names_in(bv));
    let r = crate::order::sorted_dedup(&items);
    proof {
        let rv = string_views(r@);
        assert(crate::order::sorted_set_of(rv, names_in(bv)));
        let c = block_names(bv);
        assert(crate::order::sorted_set_of(c, names_in(bv)));
        crate::order::lemma_sorted_set_unique(rv, c);
    }
    r
}

fn score_exec(props: &Vec<String>, names: &Vec<String>) -> (r: usize)
    ensures
        r as nat == score(string_views(props@), string_views(names@)),
        r <= props@.len(),
{
    let ghost pv = string_views(props@);
    let mut n: usize = 0;
    let mut i: usize = 0;
    while i < props.len()
        invariant
            i <= props@.len(),
            pv == string_views(props@),
            n as nat == score(pv.take(i as int), string_views(names@)),
            n <= i,
        decreases props.len() - i,
    {
        assert(pv.take(i + 1).drop_last() =~= pv.take(i as int));
        assert(pv.take(i + 1).last() == props@[i as int]@);
        let sn = snake(props[i].as_str());
        if crate::discovery::listed(names.as_slice(), sn.as_str()) {
            n = n + 1;
        }
        i = i + 1;
    }
    assert(pv.take(props.len() as int) =~= pv);
    n
}

fn eligible_exec(f: &ApiField, api_prefix: &str, used: &Vec<String>, names: &Vec<String>) -> (r: Option<usize>)
    ensures
        match r {
            Some(n) => eligible(field_view(*f), api_prefix@, string_views(used@).to_set(), string_views(names@))
                && n as nat == score(field_view(*f).props, string_views(names@)),
            None => !eligible(field_view(*f), api_prefix@, string_views(used@).to_set(), string_views(names@)),
        },
{
    if !under_exec(f, api_prefix) || f.kind == ApiKind::Leaf {
        return None;
    }
    let taken = crate::discovery::listed(used.as_slice(), f.path.as_str());
    proof {
        if string_views(used@).to_set().contains(f.path@) {
            assert(string_views(used@).contains(f.path@));
        }
    }
    if taken {
        return None;
    }
    let n = score_exec(&f.props, names);
    let m = if names.len() <= f.props.len() { names.len() } else { f.props.len() };
    let m1: u128 = if m == 0 { 1 } else { m as u128 };
    if n > 0 && (n as u128) * 2 >= m1 {
        Some(n)
    } else {
        None
    }
}

/// The field a block is renamed from: the one eligible field that scores
/// strictly best.
fn renamed_exec(fields: &Vec<ApiField>, api_prefix: &str, used: &Vec<String>, names: &Vec<String>) -> (r: Option<usize>)
    ensures
        match r {
            Some(k) => renamed_from(fields_view(fields@), api_prefix@, string_views(used@).to_set(), string_views(names@)) == Some(k as int)
                && k < fields@.len(),
            None => renamed_from(fields_view(fields@), api_prefix@, string_views(used@).to_set(), string_views(names@)) is None,
        },
{
    let ghost fv = fields_view(fields@);
    let ghost us = string_views(used@).to_set();
    let ghost nv = string_views(names@);
    let mut best: Option<usize> = None;
    let mut mx: usize = 0;
    let mut ties = false;
    let ghost mut witness: int = 0;
    let mut i: usize = 0;
    while i < fields.len()
        invariant
            i <= fields@.len(),
            fv == fields_view(fields@),
            us == string_views(used@).to_set(),
            nv == string_views(names@),
            match best {
                None => forall|j: int| 0 <= j < i ==> !eligible(#[trigger] fv[j], api_prefix@, us, nv),
                Some(k) => {
                    &&& k < i
                    &&& eligible(fv[k as int], api_prefix@, us, nv)
                    &&& score(fv[k as int].props, nv) == mx as nat
                    &&& forall|j: int| 0 <= j < i && eligible(#[trigger] fv[j], api_prefix@, us, nv) ==> score(fv[j].props, nv) <= mx
                    &&& ties ==> (0 <= witness < i && witness != k && eligible(fv[witness], api_prefix@, us, nv)
                        && score(fv[witness].props, nv) == mx as nat)
                    &&& !ties ==> forall|j: int| 0 <= j < i && j != k && eligible(#[trigger] fv[j], api_prefix@, us, nv)
                        ==> score(fv[j].props, nv) < mx
                },
            },
        decreases fields.len() - i,
    {
        assert(fv[i as int] == field_view(fields@[i as int]));
        match eligible_exec(&fields[i], api_prefix, used, names) {
            Some(n) => {
                match best {
                    None => {
                        best = Some(i);
                        mx = n;
                        ties = false;
                    },
                    Some(k) => {
                        if n > mx {
                            best = Some(i);
                            mx = n;
                            ties = false;
                        } else if n == mx {
                            ties = true;
                            proof {
                                witness = i as int;
                            }
                        }
                    },
                }
            },
            None => {},
        }
        i = i + 1;
    }
    match best {
        Some(k) => {
            if !ties {
                proof {
                    assert(best_of(fv, api_prefix@, us, nv, k as int));
                    let c = choose|x: int| best_of(fv, api_prefix@, us, nv, x);
                    if c != k as int {
                        assert(score(fv[k as int].props, nv) < score(fv[c].props, nv));
                        assert(score(fv[c].props, nv) < score(fv[k as int].props, nv));
                    }
                }
                Some(k)
            } else {
                proof {
                    assert forall|x: int| !best_of(fv, api_prefix@, us, nv, x) by {
                        if best_of(fv, api_prefix@, us, nv, x) {
                            if x != k as int {
                                assert(score(fv[k as int].props, nv) < score(fv[x].props, nv));
                                assert(score(fv[x].props, nv) <= mx);
                            } else {
                                assert(score(fv[witness].props, nv) < score(fv[x].props, nv));
                            }
                        }
                    }
                }
                None
            }
        },
        None => {
            proof {
                assert forall|x: int| !best_of(fv, api_prefix@, us, nv, x) by {
                    if best_of(fv, api_prefix@, us, nv, x) {
                        assert(eligible(fv[x], api_prefix@, us, nv));
                    }
                }
            }
            None
        },
    }
}

/// The Terraform block `b` at `tf_prefix` aligned against the API subtree
/// at `api_prefix`.
fn align_block_exec(fields: &Vec<ApiField>, b: &BlockShape, tf_prefix: &str, api_prefix: &str, tm: &mut TypeMap,
    used: &mut Vec<String>)
    requires
        tm_wf(*old(tm)),
        old(tm).exact + shape_size(block_view(*b)) <= usize::MAX,
    ensures
        tm_wf(*final(tm)),
        state_view(*final(tm), final(used)@) == align_block(fields_view(fields@), block_view(*b), tf_prefix@, api_prefix@,
            state_view(*old(tm), old(used)@)),
        final(tm).exact <= old(tm).exact + shape_size(block_view(*b)),
    decreases block_view(*b),
{
    let ghost fv = fields_view(fields@);
    let ghost bv = block_view(*b);
    let ghost s0 = state_view(*tm, used@);
    let ghost e0 = tm.exact;
    proof {
        lemma_blocks_view(b.block_types@);
    }
    let aord = key_positions(&b.attributes);
    let ghost akeys = bv.attributes.map_values(|p: (Seq<char>, AttrFlags)| p.0);
    assert(string_keys(b.attributes@) =~= akeys);
    let ghost ako = key_order(akeys);
    let mut j: usize = 0;
    while j < aord.len()
        invariant
            j <= aord@.len(),
            aord@.len() == b.attributes@.len(),
            bv == block_view(*b),
            fv == fields_view(fields@),
            ako == key_order(bv.attributes.map_values(|p: (Seq<char>, AttrFlags)| p.0)),
            aord@.map_values(|x: usize| x as int) == ako,
            permutation_of(ako, b.attributes@.len() as nat),
            tm_wf(*tm),
            tm.exact <= e0 + j,
            e0 + shape_size(bv) <= usize::MAX,
            state_view(*tm, used@) == attr_steps(fv, bv.attributes, ako, tf_prefix@, api_prefix@, s0, j as nat),
        decreases aord.len() - j,
    {
        let i = aord[j];
        assert(ako[j as int] == i as int);
        assert(bv.attributes[i as int] == (b.attributes@[i as int].0@, b.attributes@[i as int].1));
        attr_step_exec(fields, tf_prefix, api_prefix, b.attributes[i].0.as_str(), b.attributes[i].1, tm, used);
        j = j + 1;
    }
    let ghost s1 = state_view(*tm, used@);
    let bord = key_positions(&b.block_types);
    let ghost bkeys = bv.block_types.map_values(|p: (Seq<char>, BlockV)| p.0);
    assert(string_keys(b.block_types@) =~= bkeys);
    let ghost bko = key_order(bkeys);
    let mut j: usize = 0;
    while j < bord.len()
        invariant
            j <= bord@.len(),
            bord@.len() == b.block_types@.len(),
            bv == block_view(*b),
            bv.block_types.len() == b.block_types@.len(),
            forall|x: int| 0 <= x < b.block_types@.len() ==> #[trigger] bv.block_types[x] == (b.block_types@[x].0@,
                block_view(b.block_types@[x].1)),
            fv == fields_view(fields@),
            bko == key_order(bv.block_types.map_values(|p: (Seq<char>, BlockV)| p.0)),
            bord@.map_values(|x: usize| x as int) == bko,
            permutation_of(bko, b.block_types@.len() as nat),
            tm_wf(*tm),
            tm.exact <= e0 + bv.attributes.len() + blocks_size(bv.block_types, bko, j as nat),
            e0 + shape_size(bv) <= usize::MAX,
            state_view(*tm, used@) == block_steps(fv, bv.block_types, bko, tf_prefix@, api_prefix@, s1, j as nat),
        decreases bord.len() - j,
    {
        let i = bord[j];
        assert(bko[j as int] == i as int);
        let ghost bi = bv.block_types[i as int];
        proof {
            reveal_strlit("timeouts");
            lemma_blocks_size_mono(bv.block_types, bko, (j + 1) as nat, bv.block_types.len());
        }
        let name = b.block_types[i].0.as_str();
        if !str_eq(name, "timeouts") {
            let tp = dotted_exec(tf_prefix, name);
            proof {
                assert(decreases_to!(bv => bv.block_types));
                assert(decreases_to!(bv.block_types => bv.block_types[i as int]));
                assert(decreases_to!(bv.block_types[i as int] => bv.block_types[i as int].1));
            }
            match first_exact_exec(fields, api_prefix, name, true) {
                Some(k) => {
                    assert(fv[k as int] == field_view(fields@[k as int]));
                    let ghost u0 = used@;
                    used.push(fields[k].path.clone());
                    proof {
                        lemma_push_used(u0, fields@[k as int].path);
                    }
                    tm.exact = tm.exact + 1;
                    align_block_exec(fields, &b.block_types[i].1, tp.as_str(), fields[k].path.as_str(), tm, used);
                },
                None => {
                    let names = block_names_exec(&b.block_types[i].1);
                    match renamed_exec(fields, api_prefix, used, &names) {
                        Some(k) => {
                            assert(fv[k as int] == field_view(fields@[k as int]));
                            proof {
                                reveal_strlit("renamed");
                            }
                            put_sorted(&mut tm.map, fields[k].path.clone(), tp.clone());
                            put_sorted(&mut tm.how, fields[k].path.clone(), String::from_str("renamed"));
                            let ghost u0 = used@;
                            used.push(fields[k].path.clone());
                            proof {
                                lemma_push_used(u0, fields@[k as int].path);
                            }
                            align_block_exec(fields, &b.block_types[i].1, tp.as_str(), fields[k].path.as_str(), tm, used);
                        },
                        None => {
                            let ghost t0 = tm.tf_only@;
                            tm.tf_only.push(tp);
                            assert(string_views(tm.tf_only@) =~= string_views(t0).push(dotted(tf_prefix@, bi.0)));
                        },
                    }
                },
            }
        }
        j = j + 1;
    }
}

proof fn lemma_blocks_size_mono(s: Seq<(Seq<char>, BlockV)>, ord: Seq<int>, n: nat, m: nat)
    requires
        n <= m <= ord.len(),
    ensures
        blocks_size(s, ord, n) <= blocks_size(s, ord, m),
    decreases m - n,
{
    if m > n {
        lemma_blocks_size_mono(s, ord, n, (m - 1) as nat);
    }
}

/// A top-level API field something below it was used for.
fn consumed_exec(used: &Vec<String>, path: &str) -> (b: bool)
    ensures
        b == consumed(string_views(used@).to_set(), path@),
{
    let ghost uv = string_views(used@);
    let mut p = to_chars(path);
    p.push('.');
    proof {
        reveal_strlit(".");
    }
    assert(p@ =~= path@ + "."@);
    let mut i: usize = 0;
    while i < used.len()
        invariant
            i <= used@.len(),
            uv == string_views(used@),
            p@ == path@ + "."@,
            forall|j: int| 0 <= j < i ==> !(#[trigger] uv[j] == path@ || has_prefix(uv[j], path@ + "."@)),
        decreases used.len() - i,
    {
        assert(uv[i as int] == used@[i as int]@);
        if str_eq(used[i].as_str(), path) || crate::text::starts_with(&to_chars(used[i].as_str()), &p) {
            assert(uv.to_set().contains(uv[i as int]));
            return true;
        }
        i = i + 1;
    }
    proof {
        if consumed(uv.to_set(), path@) {
            let u = choose|u: Seq<char>| #[trigger] uv.to_set().contains(u) && (u == path@ || has_prefix(u, path@ + "."@));
            let j = choose|j: int| 0 <= j < uv.len() && uv[j] == u;
            assert(!(uv[j] == path@ || has_prefix(uv[j], path@ + "."@)));
        }
    }
    false
}

/// Align one API schema (a Discovery `schemas.<Name>` object, with the
/// document's `schemas` for its `$ref`s) against one Terraform block: the
/// exact matches counted, the flattened and renamed rows written, the
/// Terraform-only names and the unconsumed top-level API fields listed.
pub fn align(api_schema: &Yaml, schemas: &Yaml, tf: &BlockShape) -> (r: TypeMap)
    requires
        shape_size(block_view(*tf)) <= usize::MAX,
    ensures
        tm_wf(r),
        state_view(r, seq![]).map == alignment(yaml_view(*api_schema), yaml_view(*schemas), block_view(*tf)).map,
        state_view(r, seq![]).how == alignment(yaml_view(*api_schema), yaml_view(*schemas), block_view(*tf)).how,
        state_view(r, seq![]).unmatched == alignment(yaml_view(*api_schema), yaml_view(*schemas), block_view(*tf)).unmatched,
        state_view(r, seq![]).tf_only == alignment(yaml_view(*api_schema), yaml_view(*schemas), block_view(*tf)).tf_only,
        state_view(r, seq![]).exact == alignment(yaml_view(*api_schema), yaml_view(*schemas), block_view(*tf)).exact,
{
    let mut fields: Vec<ApiField> = Vec::new();
    assert(fields_view(fields@) =~= Seq::<FieldV>::empty());
    proof {
        reveal_strlit("");
    }
    assert(""@ =~= Seq::<char>::empty());
    api_fields_exec(api_schema, schemas, "", 0, &mut fields);
    let ghost fv = fields_view(fields@);
    assert(fv =~= api_fields(yaml_view(*api_schema), yaml_view(*schemas), seq![], 0));
    let mut tm = TypeMap { map: Vec::new(), how: Vec::new(), unmatched: Vec::new(), tf_only: Vec::new(), exact: 0 };
    let mut used: Vec<String> = Vec::new();
    proof {
        let st0 = state_view(tm, used@);
        assert(st0.map =~= Map::<Seq<char>, Seq<char>>::empty());
        assert(st0.how =~= Map::<Seq<char>, Seq<char>>::empty());
        assert(st0.unmatched =~= Seq::<Seq<char>>::empty());
        assert(st0.tf_only =~= Seq::<Seq<char>>::empty());
        assert(st0.used =~= Set::<Seq<char>>::empty());
        assert(pair_views(tm.map@).map_values(|p: (Seq<char>, Seq<char>)| p.0) =~= Seq::<Seq<char>>::empty());
        assert(pair_views(tm.how@).map_values(|p: (Seq<char>, Seq<char>)| p.0) =~= Seq::<Seq<char>>::empty());
    }
    let ghost st_init = state_view(tm, used@);
    assert(st_init == AlignV { map: Map::empty(), how: Map::empty(), unmatched: seq![], tf_only: seq![], exact: 0,
        used: Set::empty() });
    align_block_exec(&fields, tf, "", "", &mut tm, &mut used);
    let ghost st = state_view(tm, used@);
    let ghost u0 = string_views(tm.unmatched@);
    let ghost tm1 = tm;
    let mut i: usize = 0;
    while i < fields.len()
        invariant
            i <= fields@.len(),
            tm.map == tm1.map,
            tm.how == tm1.how,
            tm.tf_only == tm1.tf_only,
            tm.exact == tm1.exact,
            tm_wf(tm1),
            fv == fields_view(fields@),
            st.used == string_views(used@).to_set(),
            string_views(tm.unmatched@) == u0 + unmatched_of(fv, st.used, i as nat),
        decreases fields.len() - i,
    {
        assert(fv[i as int] == field_view(fields@[i as int]));
        let pc = to_chars(fields[i].path.as_str());
        if crate::text::rfind_char(&pc, '.').is_none() && !consumed_exec(&used, fields[i].path.as_str()) {
            let ghost before = string_views(tm.unmatched@);
            tm.unmatched.push(fields[i].path.clone());
            assert(string_views(tm.unmatched@) =~= before.push(fv[i as int].path));
        }
        i = i + 1;
    }
    tm
}

// ---------------------------------------------------------------------------
// Applying a map to API-shaped data
// ---------------------------------------------------------------------------

/// The value at dotted `path` taken out of a mapping, and the mapping left.
pub open spec fn take_path(m: Seq<(YamlV, YamlV)>, path: Seq<char>) -> (Seq<(YamlV, YamlV)>, Option<YamlV>)
    decreases path.len(),
{
    match crate::text::find(path, '.') {
        None => (crate::yaml::swap_remove_key(m, skey(path)), get(m, skey(path))),
        Some(i) => {
            if 0 <= i < path.len() {
                let head = path.take(i);
                match get(m, skey(head)) {
                    Some(YamlV::Mapping(sub)) => {
                        let (sub2, v) = take_path(sub, path.skip(i + 1));
                        (crate::yaml::set_key(m, skey(head), YamlV::Mapping(sub2)), v)
                    },
                    _ => (m, None),
                }
            } else {
                (m, None)
            }
        },
    }
}

/// A mapping with `v` put at dotted `path`, missing levels made mappings.
pub open spec fn put_path(m: Seq<(YamlV, YamlV)>, path: Seq<char>, v: YamlV) -> Seq<(YamlV, YamlV)>
    decreases path.len(),
{
    match crate::text::find(path, '.') {
        None => crate::yaml::insert_key(m, skey(path), v),
        Some(i) => {
            if 0 <= i < path.len() {
                let head = path.take(i);
                let m1 = if crate::yaml::find_key(m, skey(head)) is Some {
                    m
                } else {
                    m.push((skey(head), YamlV::Mapping(seq![])))
                };
                match get(m1, skey(head)) {
                    Some(YamlV::Mapping(sub)) => crate::yaml::set_key(m1, skey(head), YamlV::Mapping(put_path(sub, path.skip(i + 1), v))),
                    _ => m1,
                }
            } else {
                m
            }
        },
    }
}

/// A mapping with every mapping inside it emptied by the moves removed, all
/// the way down.
pub open spec fn prune(m: Seq<(YamlV, YamlV)>) -> Seq<(YamlV, YamlV)>
    decreases m, 1nat, 0nat,
{
    prune_entries(m, m.len())
}

/// `orig` with its first `n` entries' mappings pruned, an emptied one
/// removed as `remove` does.
pub open spec fn prune_entries(orig: Seq<(YamlV, YamlV)>, n: nat) -> Seq<(YamlV, YamlV)>
    decreases orig, 0nat, n,
{
    if n == 0 || n > orig.len() {
        orig
    } else {
        let c = prune_entries(orig, (n - 1) as nat);
        let k = orig[n - 1].0;
        match orig[n - 1].1 {
            YamlV::Mapping(sub) => {
                let sub2 = prune(sub);
                if sub2.len() == 0 {
                    crate::yaml::swap_remove_key(c, k)
                } else {
                    crate::yaml::set_key(c, k, YamlV::Mapping(sub2))
                }
            },
            _ => c,
        }
    }
}

/// How many `.` a path holds.
pub open spec fn dots(s: Seq<char>) -> nat
    decreases s.len(),
{
    if s.len() == 0 {
        0
    } else {
        dots(s.drop_last()) + if s.last() == '.' { 1nat } else { 0nat }
    }
}

/// Where a stable sort by depth, deepest first, puts an entry of depth `x`
/// into `s`: before the first shallower one.
pub open spec fn first_shallower(s: Seq<int>, d: Seq<nat>, x: nat) -> int
    decreases s.len(),
{
    if s.len() == 0 {
        0
    } else if d[s[0]] < x {
        0
    } else {
        1 + first_shallower(s.drop_first(), d, x)
    }
}

/// The first `n` positions of `ko` stably sorted by depth, deepest first.
pub open spec fn by_depth(ko: Seq<int>, d: Seq<nat>, n: nat) -> Seq<int>
    decreases n,
{
    if n == 0 || n > ko.len() {
        seq![]
    } else {
        let s = by_depth(ko, d, (n - 1) as nat);
        s.insert(first_shallower(s, d, d[ko[n - 1]]), ko[n - 1])
    }
}

/// The rows in the order they are applied: by source path, then the deepest
/// sources first, so that a moved parent does not hide its children.
pub open spec fn row_order(rows: Seq<(Seq<char>, Seq<char>)>) -> Seq<int> {
    let keys = rows.map_values(|p: (Seq<char>, Seq<char>)| p.0);
    by_depth(key_order(keys), keys.map_values(|k: Seq<char>| dots(k)), rows.len())
}

/// The first `n` rows in `ord` applied: each source present moved to its
/// Terraform path.
pub open spec fn apply_rows(m: Seq<(YamlV, YamlV)>, rows: Seq<(Seq<char>, Seq<char>)>, ord: Seq<int>, n: nat) -> Seq<(YamlV, YamlV)>
    decreases n,
{
    if n == 0 || n > ord.len() {
        m
    } else {
        let d = apply_rows(m, rows, ord, (n - 1) as nat);
        let i = ord[n - 1];
        if 0 <= i < rows.len() {
            let (d2, v) = take_path(d, rows[i].0);
            match v {
                Some(x) => put_path(d2, rows[i].1, x),
                None => d2,
            }
        } else {
            d
        }
    }
}

/// API-shaped data with a map applied: every source path present moved to
/// its Terraform path, then the mappings the moves emptied pruned.
pub open spec fn applied(m: Seq<(YamlV, YamlV)>, rows: Seq<(Seq<char>, Seq<char>)>) -> Seq<(YamlV, YamlV)> {
    let ord = row_order(rows);
    prune(apply_rows(m, rows, ord, ord.len()))
}

fn take_path_exec(m: &mut Vec<(Yaml, Yaml)>, path: &[char]) -> (r: Option<Yaml>)
    ensures
        (entries_view(final(m)@), match r {
            Some(v) => Some(yaml_view(v)),
            None => None,
        }) == take_path(entries_view(old(m)@), path@),
    decreases path@.len(),
{
    proof {
        crate::text::lemma_find(path@, '.');
        lemma_entries_view(m@);
    }
    match crate::text::find_char(path, '.') {
        None => {
            let key = from_chars(path);
            proof {
                crate::yaml::lemma_find_key(entries_view(m@), skey(path@));
            }
            match crate::yaml::find_str(m, key.as_str()) {
                Some(j) => {
                    let v = crate::yaml::clone_yaml(&m[j].1);
                    crate::yaml::swap_remove_at(m, j);
                    Some(v)
                },
                None => None,
            }
        },
        Some(i) => {
            proof {
                crate::text::lemma_find(path@, '.');
            }
            assert(i < path@.len());
            assert(i < path.len());
            let head = crate::text::slice_chars(path, 0, i);
            let rest = crate::text::slice_chars(path, i + 1, path.len());
            assert(head@ =~= path@.take(i as int));
            assert(rest@ =~= path@.skip(i + 1));
            let hk = from_chars(&head);
            proof {
                crate::yaml::lemma_find_key(entries_view(m@), skey(head@));
            }
            match crate::yaml::find_str(m, hk.as_str()) {
                Some(j) => {
                    let sub_opt = match &m[j].1 {
                        Yaml::Mapping(sub) => Some(crate::yaml::clone_entries(sub)),
                        _ => None,
                    };
                    match sub_opt {
                        Some(sub) => {
                            let mut sub = sub;
                            let v = take_path_exec(&mut sub, &rest);
                            crate::yaml::set_at(m, j, Yaml::Mapping(sub));
                            v
                        },
                        None => None,
                    }
                },
                None => None,
            }
        },
    }
}

fn put_path_exec(m: &mut Vec<(Yaml, Yaml)>, path: &[char], v: Yaml)
    ensures
        entries_view(final(m)@) == put_path(entries_view(old(m)@), path@, yaml_view(v)),
    decreases path@.len(),
{
    proof {
        crate::text::lemma_find(path@, '.');
    }
    match crate::text::find_char(path, '.') {
        None => {
            let key = from_chars(path);
            crate::yaml::insert_at_key(m, Yaml::Str(key), v);
        },
        Some(i) => {
            proof {
                crate::text::lemma_find(path@, '.');
            }
            assert(i < path@.len());
            assert(i < path.len());
            let head = crate::text::slice_chars(path, 0, i);
            let rest = crate::text::slice_chars(path, i + 1, path.len());
            assert(head@ =~= path@.take(i as int));
            assert(rest@ =~= path@.skip(i + 1));
            let hk = from_chars(&head);
            let ghost m0 = entries_view(m@);
            match crate::yaml::find_str(m, hk.as_str()) {
                Some(_) => {},
                None => {
                    m.push((Yaml::Str(hk.clone()), Yaml::Mapping(Vec::new())));
                    proof {
                        lemma_entries_view(m@);
                        lemma_entries_view(old(m)@);
                        lemma_entries_view(Seq::<(Yaml, Yaml)>::empty());
                    }
                    assert(entries_view(Seq::<(Yaml, Yaml)>::empty()) =~= Seq::<(YamlV, YamlV)>::empty());
                    assert(entries_view(m@) =~= m0.push((skey(head@), YamlV::Mapping(seq![]))));
                },
            }
            proof {
                lemma_entries_view(m@);
                crate::yaml::lemma_find_key(entries_view(m@), skey(head@));
            }
            match crate::yaml::find_str(m, hk.as_str()) {
                Some(j) => {
                    let sub_opt = match &m[j].1 {
                        Yaml::Mapping(sub) => Some(crate::yaml::clone_entries(sub)),
                        _ => None,
                    };
                    match sub_opt {
                        Some(sub) => {
                            let mut sub = sub;
                            put_path_exec(&mut sub, &rest, v);
                            crate::yaml::set_at(m, j, Yaml::Mapping(sub));
                        },
                        None => {},
                    }
                },
                None => {},
            }
        },
    }
}

fn prune_exec(m: &mut Vec<(Yaml, Yaml)>)
    ensures
        entries_view(final(m)@) == prune(entries_view(old(m)@)),
    decreases entries_view(old(m)@),
{
    let orig = crate::yaml::clone_entries(m);
    let ghost ov = entries_view(orig@);
    proof {
        lemma_entries_view(orig@);
    }
    let mut i: usize = 0;
    while i < orig.len()
        invariant
            i <= orig@.len(),
            ov == entries_view(orig@),
            ov == entries_view(old(m)@),
            ov.len() == orig@.len(),
            forall|j: int| 0 <= j < orig@.len() ==> #[trigger] ov[j] == (yaml_view(orig@[j].0), yaml_view(orig@[j].1)),
            entries_view(m@) == prune_entries(ov, i as nat),
        decreases orig.len() - i,
    {
        match &orig[i].1 {
            Yaml::Mapping(sub) => {
                let mut s2 = crate::yaml::clone_entries(sub);
                proof {
                    assert(ov[i as int].1 == YamlV::Mapping(entries_view(sub@)));
                    assert(decreases_to!(ov => ov[i as int]));
                    assert(decreases_to!(ov[i as int] => ov[i as int].1));
                    assert(decreases_to!(ov[i as int].1 => ov[i as int].1->Mapping_0));
                }
                prune_exec(&mut s2);
                proof {
                    lemma_entries_view(m@);
                    crate::yaml::lemma_find_key(entries_view(m@), ov[i as int].0);
                }
                if s2.len() == 0 {
                    proof {
                        lemma_entries_view(s2@);
                    }
                    match crate::yaml::find_yaml(m, &orig[i].0) {
                        Some(j) => {
                            crate::yaml::swap_remove_at(m, j);
                        },
                        None => {},
                    }
                } else {
                    proof {
                        lemma_entries_view(s2@);
                    }
                    match crate::yaml::find_yaml(m, &orig[i].0) {
                        Some(j) => {
                            crate::yaml::set_at(m, j, Yaml::Mapping(s2));
                        },
                        None => {},
                    }
                }
            },
            _ => {},
        }
        i = i + 1;
    }
}

fn dots_exec(s: &str) -> (r: usize)
    ensures
        r as nat == dots(s@),
{
    let c = to_chars(s);
    let mut n: usize = 0;
    let mut i: usize = 0;
    while i < c.len()
        invariant
            i <= c@.len(),
            n as nat == dots(c@.take(i as int)),
            n <= i,
        decreases c.len() - i,
    {
        assert(c@.take(i + 1).drop_last() =~= c@.take(i as int));
        if c[i] == '.' {
            n = n + 1;
        }
        i = i + 1;
    }
    assert(c@.take(c.len() as int) =~= c@);
    n
}

/// The rows' positions in the order they are applied.
fn row_order_exec(rows: &Vec<(String, String)>) -> (r: Vec<usize>)
    ensures
        r@.map_values(|x: usize| x as int) == row_order(pair_views(rows@)),
{
    let ghost keys = pair_views(rows@).map_values(|p: (Seq<char>, Seq<char>)| p.0);
    let ko = key_positions(rows);
    assert(string_keys(rows@) =~= keys);
    let ghost kov = key_order(keys);
    let ghost d = keys.map_values(|k: Seq<char>| dots(k));
    let mut depth: Vec<usize> = Vec::new();
    let mut i: usize = 0;
    while i < rows.len()
        invariant
            i <= rows@.len(),
            keys == pair_views(rows@).map_values(|p: (Seq<char>, Seq<char>)| p.0),
            d == keys.map_values(|k: Seq<char>| dots(k)),
            depth@.len() == i,
            forall|j: int| 0 <= j < i ==> #[trigger] depth@[j] as nat == d[j],
        decreases rows.len() - i,
    {
        depth.push(dots_exec(rows[i].0.as_str()));
        i = i + 1;
    }
    let mut r: Vec<usize> = Vec::new();
    let mut n: usize = 0;
    while n < ko.len()
        invariant
            n <= ko@.len(),
            ko@.len() == rows@.len(),
            ko@.map_values(|x: usize| x as int) == kov,
            kov == key_order(keys),
            permutation_of(kov, rows@.len() as nat),
            d.len() == rows@.len(),
            depth@.len() == rows@.len(),
            forall|j: int| 0 <= j < rows@.len() ==> #[trigger] depth@[j] as nat == d[j],
            r@.map_values(|x: usize| x as int) == by_depth(kov, d, n as nat),
            forall|j: int| 0 <= j < r@.len() ==> #[trigger] r@[j] < rows@.len(),
        decreases ko.len() - n,
    {
        let ghost s = by_depth(kov, d, n as nat);
        let x = ko[n];
        assert(kov[n as int] == x as int);
        let mut p: usize = 0;
        assert(s.skip(0) =~= s);
        while p < r.len() && !(depth[r[p]] < depth[x])
            invariant
                p <= r@.len(),
                s == r@.map_values(|y: usize| y as int),
                x < rows@.len(),
                depth@.len() == rows@.len(),
                forall|j: int| 0 <= j < rows@.len() ==> #[trigger] depth@[j] as nat == d[j],
                forall|j: int| 0 <= j < r@.len() ==> #[trigger] r@[j] < rows@.len(),
                first_shallower(s, d, d[x as int]) == p + first_shallower(s.skip(p as int), d, d[x as int]),
            decreases r.len() - p,
        {
            proof {
                assert(s.skip(p as int)[0] == s[p as int]);
                assert(s.skip(p as int).drop_first() =~= s.skip(p + 1));
                assert(d[r@[p as int] as int] == depth@[r@[p as int] as int] as nat);
            }
            p = p + 1;
        }
        proof {
            if p < r.len() {
                assert(s.skip(p as int)[0] == s[p as int]);
                assert(d[r@[p as int] as int] == depth@[r@[p as int] as int] as nat);
            } else {
                assert(s.skip(p as int).len() == 0);
            }
            assert(first_shallower(s, d, d[x as int]) == p);
        }
        r.insert(p, x);
        assert(r@.map_values(|y: usize| y as int) =~= s.insert(p as int, x as int));
        n = n + 1;
    }
    r
}

/// Apply a map to API-shaped data: every source path present moved to its
/// Terraform path (dotted; missing levels made mappings), deepest sources
/// first so that a moved parent does not hide its children; then the
/// mappings the moves emptied are removed.
pub fn apply_map(data: &mut Vec<(Yaml, Yaml)>, map: &Vec<(String, String)>)
    ensures
        entries_view(final(data)@) == applied(entries_view(old(data)@), pair_views(map@)),
{
    let ghost rv = pair_views(map@);
    let ghost d0 = entries_view(data@);
    let ord = row_order_exec(map);
    let ghost ov = row_order(rv);
    let mut j: usize = 0;
    while j < ord.len()
        invariant
            j <= ord@.len(),
            rv == pair_views(map@),
            ord@.map_values(|x: usize| x as int) == ov,
            ov == row_order(rv),
            entries_view(data@) == apply_rows(d0, rv, ov, j as nat),
        decreases ord.len() - j,
    {
        let i = ord[j];
        assert(ov[j as int] == i as int);
        if i < map.len() {
            assert(rv[i as int] == (map@[i as int].0@, map@[i as int].1@));
            let src = to_chars(map[i].0.as_str());
            let dst = to_chars(map[i].1.as_str());
            match take_path_exec(data, &src) {
                Some(v) => {
                    put_path_exec(data, &dst, v);
                },
                None => {},
            }
        }
        j = j + 1;
    }
    prune_exec(data);
}

} // verus!
