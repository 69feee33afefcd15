use satz::adopt::{
    attention, declared_condition, derived_entry, grant_in_policy, grant_parent, match_scope, move_conflicts, moved_from,
    parent_not_live, ref_target, render_table, render_template, rewrite_list_entry, rows, same_member, summary, unanswered,
    value_of, AdoptRow, DeclaredCondition, EmittedResource, GrantLive, Known, Manifest, Missing, Outcome, PolicyApi,
    Resolution, RowAction, StateIndex,
};
use satz::adopt::{
    adoptable, ordered, outcome_debug, project_verdict_for_children, record_resolution, render_rule, resolve_step,
    rule_for, Lookup, Rule, Step,
};
use satz::config::{DiscoveryConfig, DiscoveryResourceConfig};
use satz::yaml::Yaml;

fn resource(tf_type: &str, name: &str, attrs: &[(&str, &str)], refs: &[(&str, &str)]) -> EmittedResource {
    EmittedResource {
        tf_type: tf_type.into(),
        name: name.into(),
        attrs: attrs.iter().map(|(k, v)| (k.to_string(), v.to_string())).collect(),
        refs: refs.iter().map(|(k, v)| (k.to_string(), v.to_string())).collect(),
        nested: vec![],
        import_id: None,
        origin: None,
        reset: false,
        enforce: None,
    }
}

#[test]
fn derived_ids_rewrite_the_list_entry_in_place() {
    let src = "google_organization_iam_member {\n  \"group:a@example.com\" = [\n    \"roles/viewer\",\n    \"roles/browser\",\n  ]\n}\n\ngoogle_cloud_identity_group {\n  auditors {\n    display_name = \"A\"\n    member = [\n      \"user:b@example.com\",\n    ]\n  }\n}\n";
    let mut lines: Vec<String> = src.lines().map(String::from).collect();
    let (key, needles) = derived_entry("google_organization_iam_member", "1 roles/browser group:a@example.com", "").unwrap();
    let at = rewrite_list_entry(&mut lines, 1, &needles, key, "1 roles/browser group:a@example.com").unwrap();
    assert_eq!(lines[at], "    { role = \"roles/browser\" \"import-id\" = \"1 roles/browser group:a@example.com\" },");
    assert_eq!(lines[2], "    \"roles/viewer\",", "the other entry is untouched");
    // a needle outside the block is not found
    assert!(rewrite_list_entry(&mut lines, 1, &["user:b@example.com".to_string()], "id", "x").is_none());
    let (key, needles) = derived_entry("google_cloud_identity_group_membership", "groups/g/memberships/m", "b@example.com in groups/g").unwrap();
    let at = rewrite_list_entry(&mut lines, 8, &needles, key, "groups/g/memberships/m").unwrap();
    assert_eq!(lines[at], "      { id = \"user:b@example.com\" \"import-id\" = \"groups/g/memberships/m\" },");
    let (key, needles) = derived_entry("google_project_service", "p/storage.googleapis.com", "").unwrap();
    assert_eq!((key, needles), ("service", vec!["storage.googleapis.com".to_string()]));
}

#[test]
fn a_reference_resolves_through_its_target_and_an_embedded_one_says_it_cannot() {
    let manifest = Manifest {
        resources: vec![
            resource("google_project", "mgmt", &[("project_id", "acme-mdc-mgmt")], &[]),
            resource("google_storage_bucket", "b", &[("name", "acme-audit")], &[("project", "google_project.mgmt.project_id")]),
            resource(
                "google_service_account_iam_member",
                "a",
                &[
                    ("role", "roles/iam.workloadIdentityUser"),
                    (
                        "member",
                        "principalSet://iam.googleapis.com/projects/${google_project.mgmt.number}/locations/global/workloadIdentityPools/p/*",
                    ),
                ],
                &[],
            ),
        ],
    };
    let known = Known::default();
    // whole-value reference: followed to the target's own attribute
    let bucket = manifest.get("google_storage_bucket.b").unwrap();
    assert_eq!(value_of(bucket, "project", &manifest, &known).unwrap(), "acme-mdc-mgmt");
    // embedded reference: not a literal, and not silently searched for
    let grant = manifest.get("google_service_account_iam_member.a").unwrap();
    let err = value_of(grant, "member", &manifest, &known).unwrap_err().text();
    assert!(err.contains("only known after apply"), "{}", err);
    assert!(!err.contains("has no `member`"), "{}", err);
}

#[test]
fn a_reference_to_a_live_id_reads_what_the_run_resolved() {
    let manifest = Manifest {
        resources: vec![
            resource("google_folder", "team", &[("display_name", "Team")], &[]),
            resource("google_folder_iam_member", "g", &[("role", "r")], &[("folder", "google_folder.team.name")]),
            resource("google_widget", "w", &[], &[("parent", "not a reference"), ("other", "google_gone.x.id")]),
        ],
    };
    let grant = manifest.get("google_folder_iam_member.g").unwrap();
    let mut known = Known::default();
    let e = value_of(grant, "folder", &manifest, &known).unwrap_err().text();
    assert_eq!(e, "google_folder.team is not resolved yet (folder on it must be adopted or pinned first)");
    known.record("google_folder.team", &Outcome::OnApply);
    let e = value_of(grant, "folder", &manifest, &known).unwrap_err();
    assert_eq!(e.clone().outcome(), Outcome::ParentOnApply("google_folder.team is not live — created with it".into()));
    known.record("google_folder.team", &Outcome::Resolved { id: "folders/222".into(), verified: true });
    assert_eq!(value_of(grant, "folder", &manifest, &known).unwrap(), "folders/222");
    let w = manifest.get("google_widget.w").unwrap();
    assert_eq!(value_of(w, "nope", &manifest, &known).unwrap_err().text(), "google_widget.w has no `nope`");
    assert_eq!(
        value_of(w, "parent", &manifest, &known).unwrap_err().text(),
        "google_widget.w: `parent` = not a reference is not a resource reference"
    );
    assert_eq!(
        value_of(w, "other", &manifest, &known).unwrap_err().text(),
        "google_widget.w: `other` references google_gone.x, which is not emitted"
    );
    assert_eq!(ref_target("google_folder.team.name"), Some(("google_folder.team".to_string(), "name".to_string())));
    assert_eq!(ref_target("module.x.google_folder.team.name"), None);
}

fn res(address: &str, outcome: Outcome) -> Resolution {
    Resolution {
        address: address.to_string(),
        tf_type: "google_org_policy_policy".into(),
        natural_key: String::new(),
        outcome,
        origin: None,
        org_policy: None,
        note: None,
    }
}

fn three() -> Vec<Resolution> {
    vec![
        res("google_org_policy_policy.a", Outcome::Resolved { id: "a".into(), verified: true }),
        res("google_org_policy_policy.b", Outcome::Resolved { id: "b".into(), verified: true }),
        res("google_org_policy_policy.c", Outcome::Resolved { id: "c".into(), verified: true }),
    ]
}

fn managed(addresses: &[&str]) -> StateIndex {
    let objects: Vec<(&str, &str, &str)> = addresses.iter().map(|a| (*a, "", "")).collect();
    StateIndex::from_objects(&objects)
}

#[test]
fn a_managed_address_is_reported_as_skipped_not_as_an_import() {
    let rs = three();
    let table = render_table(&rs, &managed(&["google_org_policy_policy.a"]), &Manifest::default());
    let a = table.lines().find(|l| l.contains(".a ")).unwrap_or_default();
    assert!(a.contains("already managed in the state"), "{}", table);
    assert!(!a.contains("IMPORT"), "{}", table);
    assert!(table.lines().any(|l| l.contains(".b") && l.contains("IMPORT")), "{}", table);
}

#[test]
fn the_summary_counts_only_what_adopt_would_act_on() {
    let rs = three();
    let out = summary(&rs, &managed(&["google_org_policy_policy.a", "google_org_policy_policy.b"]));
    assert!(out.starts_with("adopt: 1 to import"), "{}", out);
    assert!(out.contains("2 already managed in the state"), "{}", out);

    let out = summary(&rs, &managed(&[]));
    assert!(out.starts_with("adopt: 3 to import"), "{}", out);
    assert!(out.contains("0 already managed in the state"), "{}", out);
}

#[test]
fn an_unresolved_row_the_state_already_manages_is_not_a_failure() {
    let rs = vec![res("google_org_policy_policy.a", Outcome::NoRule), res("google_org_policy_policy.b", Outcome::NoRule)];
    assert_eq!(unanswered(&rs, &managed(&[])), 2);
    assert_eq!(unanswered(&rs, &managed(&["google_org_policy_policy.a"])), 1);
    assert_eq!(
        unanswered(&rs, &managed(&["google_org_policy_policy.a", "google_org_policy_policy.b"])),
        0,
        "every unresolved row is already managed — there is nothing to refuse"
    );
}

const LIVE_ID: &str = "organizations/1/policies/compute.restrictProtocolForwardingCreationForTypes";
const OLD: &str = "google_org_policy_policy.compute_restrictProtocolForwarding";
const NEW: &str = "google_org_policy_policy.compute_restrictProtocolForwarding_superseded";

fn renamed() -> (Vec<Resolution>, StateIndex) {
    let rs = vec![res(NEW, Outcome::Resolved { id: LIVE_ID.into(), verified: true })];
    let state = StateIndex::from_objects(&[(OLD, "google_org_policy_policy", LIVE_ID)]);
    (rs, state)
}

#[test]
fn a_renamed_block_is_a_move_not_an_import() {
    let (rs, state) = renamed();
    assert_eq!(moved_from(&rs[0], &state), Some(OLD));

    let table = render_table(&rs, &state, &Manifest::default());
    assert!(table.contains("MOVE"), "{}", table);
    assert!(table.contains(OLD), "the row names the address to move FROM: {}", table);
    assert!(!table.contains("IMPORT"), "importing it is the defect: {}", table);
    assert!(!table.contains("declared reset"), "{}", table);
    let r = rows(&rs, &state, &Manifest::default());
    assert_eq!((r[0].verdict.as_str(), r[0].move_from.as_deref()), ("MOVE", Some(OLD)));
    assert_eq!(r[0].matched_on, None);
    assert_eq!(r[0].action, RowAction::Move);
}

#[test]
fn a_move_onto_a_reset_declaration_says_it_will_be_replaced() {
    let (rs, state) = renamed();
    let state = state.with_rules(&[OLD]);
    let mut declared = resource("google_org_policy_policy", "compute_restrictProtocolForwarding_superseded", &[("name", "x")], &[]);
    declared.reset = true;
    let manifest = Manifest { resources: vec![declared] };
    let table = render_table(&rs, &state, &manifest);
    assert!(table.contains("holds rules and is declared reset"), "{}", table);
}

#[test]
fn the_summary_counts_a_move_apart_from_an_import() {
    let (rs, state) = renamed();
    let out = summary(&rs, &state);
    assert!(out.starts_with("adopt: 0 to import"), "{}", out);
    assert!(out.contains("1 to move (already in state under another address)"), "{}", out);
}

#[test]
fn an_object_already_at_its_own_address_is_managed_not_moved() {
    let rs = vec![res(NEW, Outcome::Resolved { id: LIVE_ID.into(), verified: true })];
    let state = StateIndex::from_objects(&[(NEW, "google_org_policy_policy", LIVE_ID)]);
    assert_eq!(moved_from(&rs[0], &state), None);
    assert!(render_table(&rs, &state, &Manifest::default()).contains("already managed in the state"));
}

#[test]
fn only_an_exact_object_match_is_a_move() {
    let rs = [res(NEW, Outcome::Resolved { id: LIVE_ID.into(), verified: true })];
    let other_id = StateIndex::from_objects(&[(OLD, "google_org_policy_policy", "organizations/1/policies/compute.somethingElse")]);
    assert_eq!(moved_from(&rs[0], &other_id), None, "a different live id is a different object");
    let other_type = StateIndex::from_objects(&[(OLD, "google_folder", LIVE_ID)]);
    assert_eq!(moved_from(&rs[0], &other_type), None, "an id is only unique within its type");
}

#[test]
fn an_outcome_without_an_id_never_moves() {
    let state = StateIndex::from_objects(&[(OLD, "google_org_policy_policy", LIVE_ID)]);
    for outcome in [
        Outcome::OnApply,
        Outcome::NoRule,
        Outcome::Ambiguous(vec![LIVE_ID.into()]),
        Outcome::ParentOnApply("project is not live".into()),
    ] {
        let r = res(NEW, outcome);
        assert_eq!(moved_from(&r, &state), None, "{:?} carries no id", r.outcome);
    }
}

#[test]
fn a_derived_id_moves_too() {
    let r = res(NEW, Outcome::Resolved { id: LIVE_ID.into(), verified: false });
    let state = StateIndex::from_objects(&[(OLD, "google_org_policy_policy", LIVE_ID)]);
    assert_eq!(moved_from(&r, &state), Some(OLD));
}

#[test]
fn declaring_both_ends_of_a_move_is_a_conflict() {
    let (mut rs, state) = renamed();
    assert!(move_conflicts(&rs, &state).is_empty(), "the old address is not declared");

    rs.push(res(OLD, Outcome::OnApply));
    let conflicts = move_conflicts(&rs, &state);
    assert_eq!(conflicts, vec![(NEW.to_string(), OLD.to_string())]);
}

#[test]
fn the_table_pads_the_columns_and_lists_every_verdict() {
    let mut a = res("google_folder.x", Outcome::Ambiguous(vec!["folders/1".into(), "folders/2".into()]));
    a.tf_type = "google_folder".into();
    a.natural_key = "X under organizations/1".into();
    a.origin = Some(("e.satz".into(), 7));
    let b = res("google_widget.w", Outcome::NoRule);
    let c = res("google_org_policy_policy.s", Outcome::Skipped);
    let rs = vec![a, b, c];
    let table = render_table(&rs, &StateIndex::default(), &Manifest::default());
    // the widest address is the skipped one's: 26 characters
    let mut want = String::new();
    want.push_str(&format!("  {:26}  {:30}  {}\n", "google_folder.x", "AMBIGUOUS", "2 candidates: folders/1, folders/2 — pin \"import-id\" by hand"));
    want.push_str(&format!("  {:26}  {:30}  matched on: {}\n", "", "", "X under organizations/1"));
    want.push_str(&format!(
        "  {:26}  {:30}  {}\n",
        "google_widget.w", "no rule", "add import_id or match_on for google_org_policy_policy to import-config.yaml"
    ));
    assert_eq!(table, want);
    let r = rows(&rs, &StateIndex::default(), &Manifest::default());
    assert_eq!(r.len(), 2, "a resource --only left out has no row");
    assert_eq!(r[0].declared_at.as_deref(), Some("e.satz:7"));
    assert_eq!(r[0].action, RowAction::Unresolved);
}

#[test]
fn a_template_renders_every_placeholder_and_an_open_one_is_unresolvable() {
    let r = resource("google_project_iam_member", "g", &[("project", "p1"), ("role", "roles/viewer")], &[]);
    let m = Manifest::default();
    let k = Known::default();
    let (id, o) = render_template("projects/{project} {role}", &r, &m, &k);
    assert_eq!(id, "projects/p1 roles/viewer");
    assert_eq!(o, Outcome::Resolved { id: "projects/p1 roles/viewer".into(), verified: false });
    let (id, o) = render_template("x/{project", &r, &m, &k);
    assert_eq!(id, "x/{project");
    assert_eq!(o, Outcome::Unresolvable("unterminated placeholder in rule `x/{project`".into()));
    let (id, o) = render_template("{member}", &r, &m, &k);
    assert_eq!(id, "{member}");
    assert!(matches!(o, Outcome::Unresolvable(_)));
}

#[test]
fn the_first_scope_attribute_the_resource_has_decides() {
    let m = Manifest::default();
    let k = Known::default();
    let r = resource("google_folder", "f", &[("parent", "organizations/1"), ("project", "p")], &[]);
    assert_eq!(match_scope(&r, &m, &k), Ok("organizations/1".to_string()));
    let r = resource("google_x", "x", &[("project", "projects/projects/p")], &[]);
    assert_eq!(match_scope(&r, &m, &k), Ok("projects/p".to_string()));
    let r = resource("google_x", "x", &[("folder", "7")], &[]);
    assert_eq!(match_scope(&r, &m, &k), Ok("folders/7".to_string()));
    let r = resource("google_x", "x", &[("org_id", "9")], &[]);
    assert_eq!(match_scope(&r, &m, &k), Ok("organizations/9".to_string()));
    let r = resource("google_x", "x", &[], &[]);
    assert_eq!(
        match_scope(&r, &m, &k),
        Err(Missing::Unresolvable("google_x.x has no parent, project, folder or org_id to scope the lookup".into()))
    );
}

#[test]
fn members_compare_as_iam_compares_them() {
    assert!(same_member("user:Ann@Example.com", "user:ann@example.COM"));
    assert!(same_member("serviceAccount:A@p.iam.gserviceaccount.com", "serviceAccount:a@p.iam.gserviceaccount.com"));
    assert!(!same_member("principal://X", "principal://x"));
    assert!(same_member("principal://X", "principal://X"));
    assert!(!same_member("user:ann@example.com", "group:ann@example.com"));
}

fn grant(nested: &[(&str, &str)]) -> EmittedResource {
    let mut r = resource("google_project_iam_member", "g", &[], &[]);
    r.nested = nested.iter().map(|(k, v)| (k.to_string(), v.to_string())).collect();
    r
}

#[test]
fn a_declared_condition_is_literal_absent_or_undecidable() {
    assert_eq!(declared_condition(&grant(&[])), DeclaredCondition::Unconditional);
    assert_eq!(
        declared_condition(&grant(&[("condition.title", "t"), ("condition.expression", "e")])),
        DeclaredCondition::Literal { title: "t".into(), expression: "e".into() }
    );
    assert_eq!(
        declared_condition(&grant(&[("condition.title", "${var.t}"), ("condition.expression", "e")])),
        DeclaredCondition::Undecidable
    );
    assert_eq!(declared_condition(&grant(&[("condition.description", "d")])), DeclaredCondition::Undecidable);
}

fn s(x: &str) -> Yaml {
    Yaml::Str(x.into())
}

fn binding(role: &str, members: &[&str], condition: Option<(&str, &str)>) -> Yaml {
    let mut b = vec![(s("role"), s(role)), (s("members"), Yaml::Sequence(members.iter().map(|m| s(m)).collect()))];
    if let Some((t, e)) = condition {
        b.push((s("condition"), Yaml::Mapping(vec![(s("title"), s(t)), (s("expression"), s(e))])));
    }
    Yaml::Mapping(b)
}

fn policy(bindings: Vec<Yaml>) -> Yaml {
    Yaml::Mapping(vec![(s("version"), Yaml::Number("3".into())), (s("bindings"), Yaml::Sequence(bindings))])
}

#[test]
fn a_live_policy_holds_a_grant_only_under_the_declared_condition() {
    let p = policy(vec![
        binding("roles/viewer", &["user:Ann@example.com"], None),
        binding("roles/editor", &["user:ann@example.com"], Some(("weekdays", "request.time < x"))),
    ]);
    let un = DeclaredCondition::Unconditional;
    assert_eq!(grant_in_policy(&p, "roles/viewer", "user:ann@example.com", &un), GrantLive::Held(None));
    assert_eq!(grant_in_policy(&p, "roles/owner", "user:ann@example.com", &un), GrantLive::Absent);
    assert_eq!(grant_in_policy(&p, "roles/editor", "user:ann@example.com", &un), GrantLive::Absent);
    let lit = DeclaredCondition::Literal { title: "weekdays".into(), expression: " request.time < x ".into() };
    assert_eq!(grant_in_policy(&p, "roles/editor", "user:ann@example.com", &lit), GrantLive::Held(Some("weekdays".into())));
    let other = DeclaredCondition::Literal { title: "weekends".into(), expression: "y".into() };
    assert_eq!(
        grant_in_policy(&p, "roles/editor", "user:ann@example.com", &other),
        GrantLive::Unclear(vec!["weekdays: request.time < x".into()])
    );
    assert_eq!(grant_in_policy(&p, "roles/viewer", "user:ann@example.com", &other), GrantLive::Absent);
    assert_eq!(
        grant_in_policy(&p, "roles/editor", "user:ann@example.com", &DeclaredCondition::Undecidable),
        GrantLive::Unclear(vec!["weekdays: request.time < x".into()])
    );
    assert_eq!(grant_in_policy(&Yaml::Null, "roles/viewer", "user:ann@example.com", &un), GrantLive::Absent);
}

#[test]
fn a_grant_parent_is_named_as_its_policy_api_names_it() {
    assert_eq!(grant_parent("google_folder_iam_member", "123"), Some((PolicyApi::ResourceManager, "folders/123".into())));
    assert_eq!(grant_parent("google_folder_iam_member", "folders/123"), Some((PolicyApi::ResourceManager, "folders/123".into())));
    assert_eq!(grant_parent("google_storage_bucket_iam_member", "b/bkt"), Some((PolicyApi::Storage, "b/bkt".into())));
    assert_eq!(
        grant_parent("google_service_account_iam_member", "sa@p.iam.gserviceaccount.com"),
        Some((PolicyApi::ServiceAccount, "projects/-/serviceAccounts/sa@p.iam.gserviceaccount.com".into()))
    );
    assert_eq!(
        grant_parent("google_service_account_iam_member", "projects/p/serviceAccounts/sa"),
        Some((PolicyApi::ServiceAccount, "projects/p/serviceAccounts/sa".into()))
    );
    assert_eq!(grant_parent("google_pubsub_subscription_iam_member", "s"), Some((PolicyApi::PubSub, "s".into())));
    assert_eq!(grant_parent("google_project_iam_binding", "p"), None);
}

fn arow(address: &str, action: RowAction) -> AdoptRow {
    AdoptRow {
        address: address.into(),
        verdict: String::new(),
        detail: String::new(),
        action,
        matched_on: None,
        move_from: None,
        note: None,
        declared_at: None,
    }
}

#[test]
fn attention_lists_the_most_urgent_rows_first_and_counts_the_rest() {
    let all = vec![
        arow("z.import", RowAction::Import),
        arow("a.nothing", RowAction::Nothing),
        arow("m.unresolved", RowAction::Unresolved),
        arow("b.move", RowAction::Move),
        arow("c.unresolved", RowAction::Unresolved),
    ];
    let (rows, omitted) = attention(&all, 3);
    let addresses: Vec<&str> = rows.iter().map(|r| r.address.as_str()).collect();
    assert_eq!(addresses, vec!["c.unresolved", "m.unresolved", "b.move"]);
    assert_eq!(omitted, 2);
    let (rows, omitted) = attention(&all, 10);
    assert_eq!(rows.len(), 4);
    assert_eq!(omitted, 1);
}

#[test]
fn a_resource_in_a_project_that_is_not_live_inherits_its_verdict() {
    let project = resource("google_project", "p", &[("project_id", "pid")], &[]);
    let manifest = Manifest { resources: vec![project.clone()] };
    let not_live = vec![
        ("google_project.p".to_string(), Outcome::OnApply),
        ("other".to_string(), Outcome::Failed("denied".into())),
    ];
    let by_ref = resource("google_storage_bucket", "b", &[], &[("project", "google_project.p.project_id")]);
    assert_eq!(parent_not_live(&by_ref, &manifest, &not_live), Some(&Outcome::OnApply));
    let by_literal = resource("google_storage_bucket", "b", &[("project", "projects/other")], &[]);
    assert_eq!(parent_not_live(&by_literal, &manifest, &not_live), Some(&Outcome::Failed("denied".into())));
    let live = resource("google_storage_bucket", "b", &[("project", "live")], &[]);
    assert_eq!(parent_not_live(&live, &manifest, &not_live), None);
    assert_eq!(parent_not_live(&project, &manifest, &not_live), None);
    assert_eq!(parent_not_live(&by_ref, &manifest, &vec![]), None);
}

fn row_cfg(import_id: Option<&str>, match_on: Option<&[&str]>, asset_type: Option<&str>) -> DiscoveryResourceConfig {
    DiscoveryResourceConfig {
        description: String::new(),
        import: true,
        asset_type: asset_type.map(|a| a.to_string()),
        content_type: None,
        exclude: None,
        includes: None,
        derive_yaml_key_from: None,
        deprecated: None,
        import_id: import_id.map(|t| t.to_string()),
        match_on: match_on.map(|m| m.iter().map(|x| x.to_string()).collect()),
        activate: None,
    }
}

fn rules() -> DiscoveryConfig {
    DiscoveryConfig {
        resource_types: vec![
            ("google_project_iam_member".into(), row_cfg(Some("{project} {role} {member}"), None, None)),
            ("google_storage_bucket".into(), row_cfg(Some("{project}/{name}"), None, None)),
            ("google_logging_metric".into(), row_cfg(None, Some(&["name"]), Some("logging.googleapis.com/LogMetric"))),
            ("google_widget".into(), row_cfg(None, None, None)),
        ],
    }
}

#[test]
fn a_rule_is_a_template_before_a_match_and_native_types_need_none() {
    let r = rules();
    assert!(matches!(rule_for(&r, "google_storage_bucket"), Rule::Template(t) if t == "{project}/{name}"));
    match rule_for(&r, "google_logging_metric") {
        Rule::Match(on, a) => {
            assert_eq!(on, vec!["name".to_string()]);
            assert_eq!(a.as_deref(), Some("logging.googleapis.com/LogMetric"));
        }
        other => panic!("{other:?}"),
    }
    assert!(matches!(rule_for(&r, "google_widget"), Rule::Absent));
    assert!(matches!(rule_for(&r, "google_nothing"), Rule::Absent));
    assert!(adoptable(&r, "google_folder"));
    assert!(adoptable(&r, "google_logging_metric"));
    assert!(!adoptable(&r, "google_widget"));
}

#[test]
fn a_template_rule_renders_offline_or_says_why_not() {
    let r = rules();
    let m = Manifest::default();
    let b = resource("google_storage_bucket", "b", &[("project", "p1"), ("name", "bkt")], &[]);
    assert_eq!(render_rule(&r, &b, &m), Some(Ok("p1/bkt".to_string())));
    let no_name = resource("google_storage_bucket", "b", &[("project", "p1")], &[]);
    assert_eq!(render_rule(&r, &no_name, &m), Some(Err("google_storage_bucket.b has no `name`".to_string())));
    let metric = resource("google_logging_metric", "m", &[("name", "x")], &[]);
    assert_eq!(render_rule(&r, &metric, &m), None);
}

#[test]
fn an_outcome_is_written_as_debug_writes_it() {
    let cases = vec![
        Outcome::AlreadyAdopted("a".into()),
        Outcome::Resolved { id: "x".into(), verified: true },
        Outcome::NeedsActivation { id: "c".into(), enforce: Some(false) },
        Outcome::NeedsActivation { id: "c".into(), enforce: None },
        Outcome::OnApply,
        Outcome::ParentOnApply("p \"q\"".into()),
        Outcome::Ambiguous(vec!["f/1".into(), "f/2".into()]),
        Outcome::Ambiguous(vec![]),
        Outcome::NeedsLookup("l".into()),
        Outcome::NoRule,
        Outcome::Unresolvable("u".into()),
        Outcome::Failed("e".into()),
        Outcome::Skipped,
    ];
    for o in cases {
        assert_eq!(outcome_debug(&o), format!("{o:?}"));
    }
}

#[test]
fn a_project_that_is_not_live_hands_its_children_a_verdict() {
    let p = resource("google_project", "p", &[("project_id", "pid")], &[]);
    assert_eq!(
        project_verdict_for_children(&p, &Outcome::OnApply),
        Some(Outcome::ParentOnApply("google_project.p is not live — created with it".into()))
    );
    assert_eq!(
        project_verdict_for_children(&p, &Outcome::Failed("denied".into())),
        Some(Outcome::Failed("google_project.p: denied".into()))
    );
    assert_eq!(
        project_verdict_for_children(&p, &Outcome::NoRule),
        Some(Outcome::Unresolvable("google_project.p: NoRule".into()))
    );
    assert_eq!(project_verdict_for_children(&p, &Outcome::Resolved { id: "pid".into(), verified: true }), None);
    assert_eq!(project_verdict_for_children(&p, &Outcome::Skipped), None);
}

#[test]
fn folders_come_first_by_depth_then_projects_then_the_rest_and_grants_last() {
    let top = resource("google_folder", "z_top", &[], &[]);
    let mid = resource("google_folder", "a_mid", &[], &[("parent", "google_folder.z_top.name")]);
    let low = resource("google_folder", "b_low", &[], &[("parent", "google_folder.a_mid.name")]);
    let proj = resource("google_project", "p", &[], &[]);
    let grant = resource("google_project_iam_member", "a_grant", &[], &[]);
    let bucket = resource("google_storage_bucket", "z_b", &[], &[]);
    let m = Manifest { resources: vec![grant, bucket, low, proj, mid, top] };
    let order: Vec<String> = ordered(&m).iter().map(|&i| m.resources[i].address()).collect();
    assert_eq!(
        order,
        vec![
            "google_folder.z_top",
            "google_folder.a_mid",
            "google_folder.b_low",
            "google_project.p",
            "google_storage_bucket.z_b",
            "google_project_iam_member.a_grant"
        ]
    );
}

#[test]
fn each_resource_takes_the_step_its_estate_and_rules_call_for() {
    let r = rules();
    let m = Manifest::default();
    let k = Known::default();
    let none: Vec<String> = vec![];
    let nl: Vec<(String, Outcome)> = vec![];
    let mut adopted = resource("google_storage_bucket", "b", &[], &[]);
    adopted.import_id = Some("p/b".into());
    assert!(matches!(resolve_step(&adopted, &m, &r, &none, &k, &nl), Step::Adopted(id) if id == "p/b"));
    let b = resource("google_storage_bucket", "b", &[("project", "p1"), ("name", "bkt")], &[]);
    assert!(matches!(resolve_step(&b, &m, &r, &vec!["google_folder".to_string()], &k, &nl), Step::Skipped));
    match resolve_step(&b, &m, &r, &none, &k, &nl) {
        Step::Rendered(key, o) => {
            assert_eq!(key, "p1/bkt");
            assert_eq!(o, Outcome::Resolved { id: "p1/bkt".into(), verified: false });
        }
        other => panic!("{other:?}"),
    }
    let f = resource("google_folder", "f", &[], &[]);
    assert!(matches!(resolve_step(&f, &m, &r, &none, &k, &nl), Step::Ask(Lookup::Folder)));
    let g = resource("google_project_iam_member", "g", &[("project", "p1"), ("role", "roles/viewer"), ("member", "user:a@b.c")], &[]);
    assert!(matches!(resolve_step(&g, &m, &r, &none, &k, &nl), Step::Ask(Lookup::Grant(id)) if id == "p1 roles/viewer user:a@b.c"));
    let metric = resource("google_logging_metric", "m", &[("name", "x")], &[]);
    assert!(matches!(resolve_step(&metric, &m, &r, &none, &k, &nl), Step::Ask(Lookup::Match(on, _)) if on == vec!["name".to_string()]));
    let w = resource("google_widget", "w", &[], &[]);
    assert!(matches!(resolve_step(&w, &m, &r, &none, &k, &nl), Step::NoRule));
}

#[test]
fn a_missing_project_is_recorded_and_its_children_inherit_the_verdict() {
    let r = rules();
    let p = resource("google_project", "p", &[("project_id", "pid")], &[]);
    let m = Manifest { resources: vec![p.clone()] };
    let mut known = Known::default();
    let mut nl: Vec<(String, Outcome)> = vec![];
    record_resolution(&p, &Outcome::OnApply, &mut known, &mut nl);
    let want = Outcome::ParentOnApply("google_project.p is not live — created with it".into());
    assert_eq!(nl, vec![("google_project.p".to_string(), want.clone()), ("pid".to_string(), want.clone())]);
    let child = resource("google_storage_bucket", "b", &[("name", "bkt")], &[("project", "google_project.p.project_id")]);
    match resolve_step(&child, &m, &r, &vec![], &known, &nl) {
        Step::Inherited(i) => assert_eq!(nl[i].1, want),
        other => panic!("{other:?}"),
    }
    let live = resource("google_project", "q", &[("project_id", "qid")], &[]);
    record_resolution(&live, &Outcome::Resolved { id: "qid".into(), verified: true }, &mut known, &mut nl);
    assert_eq!(nl.len(), 2);
}
