use satz::adopt::{Outcome, Resolution};
use satz::delta::{
    add_use, declared_from, from_imported_pack, is_container_key, is_grant_map_key, live_ids, pack_name, remove_use,
    subtract, Declared,
};
use satz::yaml::Yaml;

fn to_model(v: &serde_yaml::Value) -> Yaml {
    match v {
        serde_yaml::Value::Null => Yaml::Null,
        serde_yaml::Value::Bool(b) => Yaml::Bool(*b),
        serde_yaml::Value::Number(n) => Yaml::Number(n.to_string()),
        serde_yaml::Value::String(s) => Yaml::Str(s.clone()),
        serde_yaml::Value::Sequence(s) => Yaml::Sequence(s.iter().map(to_model).collect()),
        serde_yaml::Value::Mapping(m) => Yaml::Mapping(m.iter().map(|(k, v)| (to_model(k), to_model(v))).collect()),
        serde_yaml::Value::Tagged(t) => Yaml::Tagged(t.tag.to_string(), Box::new(to_model(&t.value))),
    }
}

fn from_model(v: &Yaml) -> serde_yaml::Value {
    match v {
        Yaml::Null => serde_yaml::Value::Null,
        Yaml::Bool(b) => serde_yaml::Value::Bool(*b),
        Yaml::Number(n) => serde_yaml::from_str(n).unwrap(),
        Yaml::Str(s) => serde_yaml::Value::String(s.clone()),
        Yaml::Sequence(s) => serde_yaml::Value::Sequence(s.iter().map(from_model).collect()),
        Yaml::Mapping(m) => serde_yaml::Value::Mapping(mapping(m)),
        Yaml::Tagged(t, b) => serde_yaml::Value::Tagged(Box::new(serde_yaml::value::TaggedValue {
            tag: serde_yaml::value::Tag::new(t.clone()),
            value: from_model(b),
        })),
    }
}

fn mapping(m: &[(Yaml, Yaml)]) -> serde_yaml::Mapping {
    m.iter().map(|(k, v)| (from_model(k), from_model(v))).collect()
}

fn y(s: &str) -> Vec<(Yaml, Yaml)> {
    let m: serde_yaml::Mapping = serde_yaml::from_str(s).unwrap();
    m.iter().map(|(k, v)| (to_model(k), to_model(v))).collect()
}

fn declared(ids: &[(&str, &str)], containers: &[(&str, &str, u32)]) -> Declared {
    let mut d = Declared { ids: vec![], containers: vec![], not_live: vec![] };
    for (id, a) in ids {
        d.ids.push((id.to_string(), a.to_string()));
    }
    for (id, a, line) in containers {
        d.ids.push((id.to_string(), a.to_string()));
        d.containers.push((id.to_string(), (a.to_string(), Some(("main.satz".into(), *line)))));
    }
    d
}

#[test]
fn declared_things_are_subtracted_by_id_not_label() {
    let top = y(r#"
org_policy_policy:
  compute-x: { import-id: "organizations/1/policies/compute.x", name: compute.x }
  compute-y: { import-id: "organizations/1/policies/compute.y", name: compute.y }
organization_iam_member:
  "group:a@example.com":
    - { role: roles/viewer, import-id: "1 roles/viewer group:a@example.com" }
    - { role: roles/browser, import-id: "1 roles/browser group:a@example.com" }
folder:
  folder-368:
    import-id: folders/368
    display_name: Infra
    project:
      p1:
        import-id: p1
        project_id: p1
        project_service: [a.googleapis.com, b.googleapis.com]
        google_storage_bucket:
          bkt: { import-id: bkt, name: bkt }
      p2:
        import-id: p2
        project_id: p2
"#);
    let d = declared(
        &[
            ("organizations/1/policies/compute.x", "google_org_policy_policy.x"),
            ("1 roles/viewer group:a@example.com", "google_organization_iam_member.g_a"),
            ("p1/a.googleapis.com", "google_project_service.p1_a"),
        ],
        &[("folders/368", "google_folder.infra_folder", 10), ("p1", "google_project.infra", 14)],
    );
    let delta = subtract(top, &d);
    let top = serde_yaml::to_string(&mapping(&delta.top)).unwrap();
    assert!(top.contains("compute-y") && !top.contains("compute-x"), "{}", top);
    assert!(top.contains("roles/browser") && !top.contains("roles/viewer"), "{}", top);
    assert!(!top.contains("folder-368"), "declared folder is not re-declared:\n{}", top);
    // residue under the declared folder: p2; under the declared project: b.googleapis.com and the bucket
    let under_folder = serde_yaml::to_string(&mapping(delta.under_at("google_folder.infra_folder").unwrap())).unwrap();
    assert!(under_folder.contains("p2") && !under_folder.contains("p1:"), "{}", under_folder);
    let under_project = serde_yaml::to_string(&mapping(delta.under_at("google_project.infra").unwrap())).unwrap();
    assert!(
        under_project.contains("google_project_service")
            && under_project.contains("p1/b.googleapis.com")
            && !under_project.contains("a.googleapis.com"),
        "{}",
        under_project
    );
    assert!(under_project.contains("bkt"), "{}", under_project);
    assert_eq!(delta.already.len(), 5);
}

#[test]
fn a_subtraction_counts_what_it_keeps_and_empties_drop_out() {
    let top = y(r#"
google_storage_bucket:
  a: { import-id: a }
  b: { import-id: b }
  c: { name: c }
settings:
  plain: value
organization_iam_member:
  "user:x@example.com":
    - { role: roles/owner, import-id: "1 roles/owner user:x@example.com" }
"#);
    let d = declared(&[("a", "google_storage_bucket.a"), ("1 roles/owner user:x@example.com", "g.x")], &[]);
    let delta = subtract(top, &d);
    // `b` and `c` stay and are counted; the emptied grant map leaves; a map without ids is no type map
    assert_eq!(delta.new, 2);
    assert_eq!(
        delta.already,
        vec![
            ("a".to_string(), "google_storage_bucket.a".to_string()),
            ("1 roles/owner user:x@example.com".to_string(), "g.x".to_string())
        ]
    );
    let out = serde_yaml::to_string(&mapping(&delta.top)).unwrap();
    assert!(!out.contains("organization_iam_member"), "{}", out);
    assert!(out.contains("plain: value"), "{}", out);
    // `a` left by swapping the last entry into its place
    let buckets: Vec<String> = match &delta.top[0].1 {
        Yaml::Mapping(m) => m.iter().map(|(k, _)| format!("{:?}", k)).collect(),
        _ => vec![],
    };
    assert_eq!(buckets, vec!["Str(\"c\")".to_string(), "Str(\"b\")".to_string()]);
    assert!(delta.under.is_empty());
}

#[test]
fn declared_ids_come_from_the_resolutions_that_name_one() {
    let r = |address: &str, tf_type: &str, outcome: Outcome| Resolution {
        address: address.into(),
        tf_type: tf_type.into(),
        natural_key: String::new(),
        outcome,
        origin: Some(("main.satz".into(), 3)),
        org_policy: None,
        note: None,
    };
    let d = declared_from(&[
        r("google_folder.f", "google_folder", Outcome::AlreadyAdopted("folders/1".into())),
        r("google_project.p", "google_project", Outcome::Resolved { id: "p".into(), verified: true }),
        r("google_storage_bucket.b", "google_storage_bucket", Outcome::OnApply),
        r("google_org_policy_policy.x", "google_org_policy_policy", Outcome::NeedsActivation { id: "organizations/1/policies/x".into(), enforce: None }),
        r("google_x.y", "google_x", Outcome::NoRule),
    ]);
    assert_eq!(
        d.ids,
        vec![
            ("folders/1".to_string(), "google_folder.f".to_string()),
            ("p".to_string(), "google_project.p".to_string()),
            ("organizations/1/policies/x".to_string(), "google_org_policy_policy.x".to_string()),
        ]
    );
    assert_eq!(d.containers.len(), 2);
    let (_, (address, _)) = &d.containers[1];
    assert_eq!(address, "google_project.p");
    assert_eq!(d.not_live, vec!["google_storage_bucket.b".to_string()]);
}

#[test]
fn live_ids_are_every_import_id_once_in_order() {
    let top = y(r#"
folder:
  f: { import-id: folders/2, project: { p: { import-id: p, x: [ { import-id: folders/2 } ] } } }
extra: { import-id: a }
"#);
    assert_eq!(live_ids(&top), vec!["a".to_string(), "folders/2".to_string(), "p".to_string()]);
}


#[test]
fn use_lines_are_inserted_once_and_at_the_right_place() {
    let estate = "estate e\n\ngoogle_folder {\n  infra_folder {\n    display_name = \"Infra\"\n  }\n}\n";
    let with_top = add_use(estate, "imported-org.satz", None).unwrap().unwrap();
    assert!(with_top.ends_with("}\n\nuse \"imported-org.satz\"\n"), "{}", with_top);
    assert!(add_use(&with_top, "imported-org.satz", None).unwrap().is_none(), "idempotent");
    let with_inner = add_use(&with_top, "imported-org-infra_folder.satz", Some(4)).unwrap().unwrap();
    assert!(with_inner.contains("  infra_folder {\n    use \"imported-org-infra_folder.satz\"\n"), "{}", with_inner);
    assert!(add_use(&with_inner, "x.satz", Some(5)).is_err(), "not a block line");
}

#[test]
fn use_lines_come_out_again_and_imported_packs_are_recognised() {
    let estate = "estate e\n\ngoogle_folder {\n  infra_folder {\n    use \"imported-org-x.satz\"\n  }\n}\n\nuse \"imported-org.satz\"\n";
    let without_top = remove_use(estate, "imported-org.satz").unwrap();
    assert!(!without_top.contains("imported-org.satz\""), "{}", without_top);
    assert!(without_top.contains("imported-org-x.satz"), "{}", without_top);
    assert!(remove_use(&without_top, "imported-org.satz").is_none(), "idempotent");
    assert!(from_imported_pack(&Some(("./yaml/imported-organizations-1.satz".into(), 3))));
    assert!(!from_imported_pack(&Some(("./yaml/C0example.satz".into(), 3))));
    assert!(!from_imported_pack(&None));
}

#[test]
fn pack_names_are_stable_slugs() {
    assert_eq!(pack_name("organizations/123", None), "imported-organizations-123.satz");
    assert_eq!(pack_name("folders/4", Some("google_folder.infra-x")), "imported-folders-4-google_folder_infra_x.satz");
}

#[test]
fn a_line_past_the_end_and_a_line_that_opens_nothing_are_named() {
    let estate = "a {\n  b = 1\n}\n";
    assert_eq!(add_use(estate, "p.satz", Some(9)).unwrap_err(), "line 9 is past the end of the estate");
    assert_eq!(add_use(estate, "p.satz", Some(2)).unwrap_err(), "line 2 does not open a block: b = 1");
    assert_eq!(add_use(estate, "p.satz", Some(1)).unwrap().unwrap(), "a {\n  use \"p.satz\"\n  b = 1\n}\n");
    // a text without a final blank line gets one before the top-level `use`
    assert_eq!(add_use("x", "p.satz", None).unwrap().unwrap(), "x\n\nuse \"p.satz\"\n");
    assert_eq!(add_use("", "p.satz", None).unwrap().unwrap(), "use \"p.satz\"\n");
}

#[test]
fn keys_of_the_discovered_document() {
    assert!(is_container_key("google_folder") && is_container_key("project"));
    assert!(!is_container_key("google_storage_bucket"));
    assert!(is_grant_map_key("google_project_iam_member"));
    assert!(!is_grant_map_key("google_storage_bucket_iam_member"));
    assert!(!is_grant_map_key("google_project"));
}

#[test]
fn adding_then_removing_a_use_line_gives_the_text_back() {
    let estate = "estate e\n\ngoogle_folder {\n  f {\n  }\n}\n";
    let with = add_use(estate, "imported-x.satz", Some(4)).unwrap().unwrap();
    assert_eq!(remove_use(&with, "imported-x.satz").unwrap(), estate);
    assert!(from_imported_pack(&Some(("imported-x.satz".into(), 1))));
    assert!(!from_imported_pack(&Some(("imported-x.satz/..".into(), 1))));
}
