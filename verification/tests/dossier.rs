use satz::compliance::{Bucket, Catalog, Control, Goal, TriageRow};
use satz::dossier::{
    build, column_names, csv, csv_escape, describe_goal, hash_of_json, item_id_string, normalize_severity, severity_rank,
    summarize, tally, CheckovFinding, Dossier, Inputs, Source,
};

fn catalog() -> Catalog {
    Catalog {
        catalog: "cis-gcp".into(),
        version: "4.0".into(),
        controls: vec![
            (
                "2.11".to_string(),
                Control {
                    title: "SQL change alerts".into(),
                    paraphrase: "Alert on SQL config changes.".into(),
                    automatability: "technical".into(),
                },
            ),
            (
                "5.1".to_string(),
                Control {
                    title: "Buckets not public".into(),
                    paraphrase: "Public access prevention enforced.".into(),
                    automatability: "technical".into(),
                },
            ),
        ],
    }
}

fn row(bucket: Bucket, control: &str, severity: &str, resource: &str, declared: Option<&str>) -> TriageRow {
    let title = catalog().controls.iter().find(|(id, _)| id == control).map(|(_, c)| c.title.clone()).unwrap_or_default();
    TriageRow {
        bucket,
        control: control.into(),
        title,
        check: format!("check_{}", control.replace('.', "_")),
        status: "FAIL".into(),
        severity: severity.into(),
        resource: resource.into(),
        project: "acme-infra-001".into(),
        declared: declared.map(str::to_string),
        plan: "do the thing".into(),
    }
}

fn checkov(resource: &str, id: &str) -> CheckovFinding {
    CheckovFinding {
        check_id: id.into(),
        check_name: format!("{} name", id),
        resource: resource.into(),
        file: "/main.tf".into(),
        line: Some(10),
        guideline: None,
    }
}

fn count(t: &[(String, usize)], key: &str) -> usize {
    t.iter().find(|(k, _)| k == key).map(|(_, n)| *n).unwrap_or(0)
}

#[test]
fn items_are_joined_ordered_counted_and_stable() {
    let cat = catalog();
    let goals = vec![
        ("2.11".to_string(), Goal::Unmet { providers: vec!["monitoring/organization-cis-log-alerts-central.satz".into()] }),
        ("5.1".to_string(), Goal::Satisfied { witnesses: vec!["google_org_policy_policy.pap".into()] }),
    ];
    let rows = vec![
        row(Bucket::A, "2.11", "Medium", "//sqladmin.googleapis.com/projects/p/instances/db1", None),
        row(Bucket::B, "5.1", "High", "//storage.googleapis.com/acme-state", Some("google_storage_bucket.state")),
    ];
    let text = vec![(
        "check_5_1".to_string(),
        ("Bucket is public".to_string(), "Enable PAP".to_string(), "Data exposure".to_string()),
    )];
    let ck = vec![checkov("google_storage_bucket.state", "CKV_GCP_62"), checkov("google_folder.x", "CKV_GCP_1")];
    let at = vec![("google_storage_bucket.state".to_string(), "yaml/x.satz:40".to_string())];

    let inp = Inputs {
        framework: "cis-gcp-4.0",
        catalog: &cat,
        goals: &goals,
        estate: "x.satz",
        triage_rows: &rows,
        prowler_text: &text,
        checkov: &ck,
        declared_at: &at,
    };
    let d = build(&inp);

    // order: bucket first (A before B), ids assigned in that order
    assert_eq!(d.items[0].id, "F-0001");
    assert_eq!(d.items[0].bucket, Bucket::A);
    assert_eq!(d.items[0].providers, vec!["monitoring/organization-cis-log-alerts-central.satz".to_string()]);
    // the bucket-B Prowler row is corroborated by Checkov on the same declared address
    let b = &d.items[1];
    assert_eq!(b.control, "5.1");
    assert_eq!(b.sources.len(), 2, "{:?}", b.sources);
    assert_eq!(b.scanner_remediation, "Enable PAP");
    assert_eq!(b.declared_at.as_deref(), Some("yaml/x.satz:40"));
    // the Checkov-only finding becomes its own bucket-B item
    let only = d.items.iter().find(|i| i.resource == "google_folder.x").expect("checkov-only item");
    assert_eq!(only.bucket, Bucket::B);
    assert!(only.plan.contains("Checkov"));
    // counts
    assert_eq!(d.summary.items, 3);
    assert_eq!(d.summary.corroborated, 1);
    assert_eq!(d.summary.declared_apply_fixes, 1);
    assert_eq!(count(&d.summary.by_bucket, "A"), 1);
    assert_eq!(count(&d.summary.by_bucket, "B"), 2);
    // deterministic: same inputs, same rendering and the same name
    let d2 = build(&inp);
    assert_eq!(csv(&d), csv(&d2));
    assert_eq!(hash_of_json(&csv(&d)), hash_of_json(&csv(&d2)));
    assert_eq!(d.framework, "cis-gcp-4.0");
}

#[test]
fn csv_has_every_column_and_escapes() {
    let cat = catalog();
    let goals: Vec<(String, Goal)> = Vec::new();
    let rows = vec![row(Bucket::D, "5.1", "Low", "//storage.googleapis.com/b,with\"quote", None)];
    let (empty_text, empty_at): (Vec<(String, (String, String, String))>, Vec<(String, String)>) = (Vec::new(), Vec::new());
    let d = build(&Inputs {
        framework: "cis-gcp-4.0",
        catalog: &cat,
        goals: &goals,
        estate: "x.satz",
        triage_rows: &rows,
        prowler_text: &empty_text,
        checkov: &[],
        declared_at: &empty_at,
    });
    let csv = csv(&d);
    let header = csv.lines().next().unwrap();
    assert_eq!(header.split(',').count(), column_names().len());
    assert!(csv.contains("\"//storage.googleapis.com/b,with\"\"quote\""), "{}", csv);
    // every row has exactly the column count (quoted commas do not split)
    assert!(csv.lines().nth(1).unwrap().ends_with(",,,,,,,,,,,"), "AI + review columns are empty: {}", csv);
}

#[test]
fn items_sort_by_severity_within_a_bucket_and_keep_ties_in_order() {
    let cat = catalog();
    let goals: Vec<(String, Goal)> = Vec::new();
    let mut low = row(Bucket::D, "5.1", "low", "//r/b", None);
    low.project = String::new();
    let rows = vec![
        low,
        row(Bucket::D, "5.1", "CRITICAL", "//r/b", None),
        row(Bucket::D, "5.1", "CRITICAL", "//r/a", None),
        row(Bucket::C, "2.11", "", "//r/z", None),
    ];
    let (text, at): (Vec<(String, (String, String, String))>, Vec<(String, String)>) = (Vec::new(), Vec::new());
    let d = build(&Inputs {
        framework: "",
        catalog: &cat,
        goals: &goals,
        estate: "x.satz",
        triage_rows: &rows,
        prowler_text: &text,
        checkov: &[],
        declared_at: &at,
    });
    let order: Vec<(&str, &str, &str)> =
        d.items.iter().map(|i| (i.id.as_str(), i.severity.as_str(), i.resource.as_str())).collect();
    assert_eq!(
        order,
        vec![
            ("F-0001", "", "//r/z"),
            ("F-0002", "Critical", "//r/a"),
            ("F-0003", "Critical", "//r/b"),
            ("F-0004", "Low", "//r/b"),
        ]
    );
    // without an id the catalog names the framework
    assert_eq!(d.framework, "cis-gcp");
    assert_eq!(d.framework_version, "4.0");
    assert_eq!(d.items[0].goal, "not in the goal view");
    assert_eq!(d.items[1].paraphrase, "Public access prevention enforced.");
    assert_eq!(count(&d.summary.by_severity, "(none)"), 1);
    assert_eq!(count(&d.summary.by_severity, "Critical"), 2);
    assert_eq!(d.summary.by_control, vec![("2.11".to_string(), 1), ("5.1".to_string(), 3)]);
    assert_eq!(d.summary.by_project, vec![("acme-infra-001".to_string(), 3)]);
    assert_eq!(d.summary.corroborated, 0);
    assert_eq!(d.summary.declared_apply_fixes, 0);
}

#[test]
fn checkov_only_addresses_are_grouped_and_ordered() {
    let cat = catalog();
    let goals: Vec<(String, Goal)> = Vec::new();
    let rows: Vec<TriageRow> = Vec::new();
    let ck = vec![checkov("google_b.y", "CKV_2"), checkov("google_a.x", "CKV_1"), checkov("google_b.y", "CKV_3")];
    let at = vec![("google_b.y".to_string(), "yaml/e.satz:7".to_string())];
    let text: Vec<(String, (String, String, String))> = Vec::new();
    let d = build(&Inputs {
        framework: "f",
        catalog: &cat,
        goals: &goals,
        estate: "e",
        triage_rows: &rows,
        prowler_text: &text,
        checkov: &ck,
        declared_at: &at,
    });
    assert_eq!(d.items.len(), 2);
    assert_eq!(d.items[0].resource, "google_a.x");
    assert_eq!(d.items[0].declared_at, None);
    assert_eq!(d.items[1].resource, "google_b.y");
    assert_eq!(d.items[1].declared_address.as_deref(), Some("google_b.y"));
    assert_eq!(d.items[1].declared_at.as_deref(), Some("yaml/e.satz:7"));
    assert_eq!(d.items[1].scanner_title, "CKV_2 name");
    assert_eq!(
        d.items[1].sources,
        vec![
            Source::Checkov { check_id: "CKV_2".into(), check_name: "CKV_2 name".into(), guideline: None },
            Source::Checkov { check_id: "CKV_3".into(), check_name: "CKV_3 name".into(), guideline: None },
        ]
    );
    assert_eq!(d.items[1].goal, "declared by the estate (Checkov, plan-time)");
    assert_eq!(d.summary.corroborated, 1);
    // Checkov-only items are B but no Prowler row: `apply` is not what fixes them
    assert_eq!(d.summary.declared_apply_fixes, 0);
    assert_eq!(d.summary.by_bucket, vec![("B".to_string(), 2)]);
}

#[test]
fn severities_rank_and_normalize_whatever_their_case() {
    assert_eq!(severity_rank("Critical"), 0);
    assert_eq!(severity_rank("HIGH"), 1);
    assert_eq!(severity_rank("medium"), 2);
    assert_eq!(severity_rank("Low"), 3);
    assert_eq!(severity_rank("info"), 4);
    assert_eq!(severity_rank("whatever"), 5);
    assert_eq!(normalize_severity("informational"), "Informational");
    assert_eq!(normalize_severity("hIgH"), "High");
    assert_eq!(normalize_severity(""), "");
    assert_eq!(normalize_severity("Severe"), "Severe");
}

#[test]
fn ids_have_at_least_four_digits() {
    assert_eq!(item_id_string(1), "F-0001");
    assert_eq!(item_id_string(42), "F-0042");
    assert_eq!(item_id_string(9999), "F-9999");
    assert_eq!(item_id_string(12345), "F-12345");
}

#[test]
fn a_tally_counts_each_key_once_in_order() {
    let keys: Vec<String> = vec!["b".into(), "a".into(), "b".into(), "c".into(), "b".into()];
    assert_eq!(tally(&keys), vec![("a".to_string(), 1), ("b".to_string(), 3), ("c".to_string(), 1)]);
    assert_eq!(tally(&Vec::new()), Vec::<(String, usize)>::new());
}

#[test]
fn the_goal_view_is_described_per_state() {
    let (t, p, r, o) = describe_goal(Some(&Goal::Partial {
        witnesses: vec!["a".into(), "b".into()],
        open_duties: vec!["d1".into()],
        contributes_only: true,
    }));
    assert_eq!(t, "partial (contributes only) — witnesses a, b");
    assert!(p.is_empty() && r.is_empty());
    assert_eq!(o, vec!["d1".to_string()]);
    let (t, _, r, _) = describe_goal(Some(&Goal::Deviation {
        reasons: vec![("pack".into(), "accepted risk".into())],
        witnesses: vec![],
        open_duties: vec![],
    }));
    assert_eq!(t, "declared deviation");
    assert_eq!(r, vec!["accepted risk".to_string()]);
    let (t, _, _, _) = describe_goal(Some(&Goal::ClaimBroken { missing: vec!["x.y".into()], pack: "p".into() }));
    assert_eq!(t, "CLAIM BROKEN: p declares witnesses not emitted: x.y");
    let (t, _, _, _) = describe_goal(None);
    assert_eq!(t, "not in the goal view");
}

#[test]
fn csv_cells_are_quoted_only_when_they_must_be() {
    assert_eq!(csv_escape("plain"), "plain");
    assert_eq!(csv_escape("a,b"), "\"a,b\"");
    assert_eq!(csv_escape("say \"hi\""), "\"say \"\"hi\"\"\"");
    assert_eq!(csv_escape("two\nlines"), "\"two\nlines\"");
}

#[test]
fn a_run_is_named_by_the_sha256_of_its_json() {
    assert_eq!(hash_of_json("abc"), "ba7816bf8f01cfea414140de5dae2223b00361a396177a9cb410ff61f20015ad");
    assert_eq!(hash_of_json(""), "e3b0c44298fc1c149afbf4c8996fb92427ae41e4649b934ca495991b7852b855");
}

#[test]
fn summarize_an_empty_dossier() {
    let s = summarize(&Vec::new());
    assert_eq!(s.items, 0);
    assert!(s.by_bucket.is_empty() && s.by_severity.is_empty());
    let d = Dossier { framework: "f".into(), framework_version: "v".into(), estate: "e".into(), summary: s, items: vec![] };
    assert_eq!(d.with_framework_id("").framework, "f");
}
