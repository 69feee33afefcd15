use satz::compliance::{
    bucket_for, declared_address, prowler_verdict, resolve_goals, Bucket, Catalog, Claim, Control, Goal, ManualDuty,
    ProwlerFinding,
};

fn control(title: &str, automatability: &str) -> Control {
    Control { title: title.into(), paraphrase: String::new(), automatability: automatability.into() }
}

fn catalog() -> Catalog {
    Catalog {
        catalog: "cis-gcp".into(),
        version: "4.0".into(),
        controls: vec![
            ("2.1".into(), control("audit logging", "technical")),
            ("2.2".into(), control("org sink", "technical")),
            ("2.3".into(), control("retention", "partial")),
            ("9.9".into(), control("policy doc", "organizational")),
        ],
    }
}

fn claim(pack: &str, control: &str, coverage: &str, resources: &[&str], duties: &[&str]) -> (String, Claim) {
    (
        pack.to_string(),
        Claim {
            framework: "cis-gcp".into(),
            framework_version: "4.0".into(),
            control: control.into(),
            coverage: coverage.into(),
            resources: resources.iter().map(|s| s.to_string()).collect(),
            reason: String::new(),
            manual_duties: duties.iter().map(|d| ManualDuty { id: d.to_string(), duty: String::new() }).collect(),
            interpretation: String::new(),
        },
    )
}

fn goal<'a>(goals: &'a [(String, Goal)], id: &str) -> &'a Goal {
    &goals.iter().find(|(c, _)| c == id).expect("every catalog control has a goal").1
}

#[test]
fn goal_view_classifies_all_five_states() {
    let lib = vec![
        claim("logsink", "2.1", "implements", &["a.b"], &[]),
        claim("logsink", "2.3", "contributes", &["a.b"], &["lock-it"]),
        claim("alerts", "2.2", "implements", &["x.y"], &[]),
    ];
    // The estate used the logsink pack only — so only its claims are in.
    let included: Vec<(String, Claim)> = lib.iter().filter(|(p, _)| p == "logsink").cloned().collect();
    let emitted = vec!["a.b".to_string()];

    let goals = resolve_goals(&catalog(), &lib, &included, &emitted);
    assert!(matches!(goal(&goals, "2.1"), Goal::Satisfied { .. }));
    // 2.3: included, witnesses present, but contributes-only with an open duty
    assert!(matches!(goal(&goals, "2.3"), Goal::Partial { .. }));
    // 2.2: not included, but the library knows a provider — the tactic suggestion
    match goal(&goals, "2.2") {
        Goal::Unmet { providers } => assert_eq!(providers, &vec!["alerts".to_string()]),
        g => panic!("expected Unmet with provider, got {:?}", g),
    }
    assert!(matches!(goal(&goals, "9.9"), Goal::Organizational));
}

#[test]
fn a_declared_deviation_is_a_finding_not_a_gap() {
    let mut dev = claim("cis_fork", "2.1", "deviates", &["audit.policy"], &["review"]);
    dev.1.reason = "service X needs metadata SSH keys".into();
    let lib = vec![dev.clone()];
    let emitted = vec!["audit.policy".to_string()];

    let goals = resolve_goals(&catalog(), &lib, &[dev], &emitted);
    match goal(&goals, "2.1") {
        Goal::Deviation { reasons, witnesses, open_duties } => {
            assert_eq!(reasons[0].1, "service X needs metadata SSH keys");
            assert_eq!(witnesses, &vec!["audit.policy".to_string()]);
            assert_eq!(open_duties, &vec!["review".to_string()]);
        }
        g => panic!("expected Deviation, got {:?}", g),
    }
}

#[test]
fn a_deviation_outranks_a_broken_positive_claim() {
    let packclaim = claim("cis", "2.1", "implements", &["audit.policy"], &[]);
    let mut dev = claim("acme", "2.1", "deviates", &[], &[]);
    dev.1.reason = "suppressed on purpose".into();
    let included = vec![packclaim.clone(), dev];
    let emitted: Vec<String> = Vec::new(); // suppressed → not emitted

    let goals = resolve_goals(&catalog(), &[packclaim], &included, &emitted);
    assert!(
        matches!(goal(&goals, "2.1"), Goal::Deviation { .. }),
        "a reasoned deviation must not report as a broken claim, got {:?}",
        goal(&goals, "2.1")
    );
}

#[test]
fn a_deviation_whose_declared_witness_vanished_breaks() {
    let mut dev = claim("cis_fork", "2.1", "deviates", &["audit.policy"], &[]);
    dev.1.reason = "not enforcing on purpose".into();
    let goals = resolve_goals(&catalog(), &[dev.clone()], &[dev], &[]);
    assert!(matches!(goal(&goals, "2.1"), Goal::ClaimBroken { .. }), "got {:?}", goal(&goals, "2.1"));
}

#[test]
fn a_fork_claims_for_itself_not_for_its_pristine_twin() {
    let pristine = claim("cis", "2.1", "implements", &["audit.pristine"], &[]);
    let fork = claim("cis", "2.1", "implements", &["audit.fork"], &[]);
    let lib = vec![pristine, fork.clone()];
    let included = vec![fork];
    let emitted = vec!["audit.fork".to_string()];

    let goals = resolve_goals(&catalog(), &lib, &included, &emitted);
    match goal(&goals, "2.1") {
        Goal::Satisfied { witnesses } => assert_eq!(witnesses, &vec!["audit.fork".to_string()]),
        g => panic!("expected Satisfied by the fork's own witness, got {:?}", g),
    }
}

#[test]
fn missing_witnesses_are_a_broken_claim() {
    let lib = vec![claim("logsink", "2.1", "implements", &["gone.away"], &[])];
    let included = lib.clone();
    let goals = resolve_goals(&catalog(), &lib, &included, &[]);
    match goal(&goals, "2.1") {
        Goal::ClaimBroken { missing, pack } => {
            assert_eq!(missing, &vec!["gone.away".to_string()]);
            assert_eq!(pack, "logsink");
        }
        g => panic!("expected ClaimBroken, got {:?}", g),
    }
}

#[test]
fn goals_come_in_catalog_order_one_per_control() {
    let goals = resolve_goals(&catalog(), &[], &[], &[]);
    let ids: Vec<&str> = goals.iter().map(|(c, _)| c.as_str()).collect();
    assert_eq!(ids, vec!["2.1", "2.2", "2.3", "9.9"]);
    assert_eq!(goal(&goals, "2.1"), &Goal::Unmet { providers: vec![] });
}

#[test]
fn buckets_follow_the_estate_s_word_on_the_control() {
    let unmet_with = Goal::Unmet { providers: vec!["CIS".into()] };
    let unmet_without = Goal::Unmet { providers: vec![] };
    let dev = Goal::Deviation { reasons: vec![("p".into(), "we know".into())], witnesses: vec![], open_duties: vec![] };
    let sat = Goal::Satisfied { witnesses: vec!["google_storage_bucket.b".into()] };
    assert_eq!(bucket_for(Some(&unmet_with), "FAIL", true), Bucket::A);
    assert_eq!(bucket_for(Some(&sat), "FAIL", true), Bucket::B);
    assert_eq!(bucket_for(Some(&dev), "FAIL", true), Bucket::C);
    assert_eq!(bucket_for(Some(&unmet_without), "FAIL", true), Bucket::D);
    assert_eq!(bucket_for(Some(&unmet_without), "FAIL", false), Bucket::E);
    assert_eq!(bucket_for(Some(&sat), "MANUAL", true), Bucket::E);
    assert_eq!(bucket_for(Some(&Goal::Organizational), "FAIL", true), Bucket::E);
    assert_eq!(bucket_for(None, "FAIL", true), Bucket::D);
}

#[test]
fn the_reverse_index_finds_the_declaring_block_by_suffix() {
    let attrs: Vec<(String, Vec<(String, String)>)> = vec![
        ("google_folder.x".into(), vec![("display_name".to_string(), "X".to_string())]),
        ("google_storage_bucket.logs".into(), vec![("name".to_string(), "corp-audit-logs".to_string())]),
    ];
    assert_eq!(
        declared_address("//storage.googleapis.com/corp-audit-logs", &attrs).as_deref(),
        Some("google_storage_bucket.logs")
    );
    assert_eq!(declared_address("//storage.googleapis.com/other", &attrs), None);
    assert_eq!(declared_address("", &attrs), None);
}

#[test]
fn of_two_declaring_blocks_the_least_address_is_named() {
    let attrs: Vec<(String, Vec<(String, String)>)> = vec![
        ("google_storage_bucket.z".into(), vec![("name".to_string(), "logs".to_string())]),
        ("google_storage_bucket.a".into(), vec![("name".to_string(), "logs".to_string())]),
    ];
    assert_eq!(declared_address("//storage.googleapis.com/logs", &attrs).as_deref(), Some("google_storage_bucket.a"));
}

fn finding(status: &str, resource: &str) -> ProwlerFinding {
    ProwlerFinding {
        check: "storage_bucket_public_access".into(),
        status: status.into(),
        severity: "High".into(),
        resource: resource.into(),
        project: "corp-log-infra-001".into(),
    }
}

#[test]
fn a_fail_on_a_verified_witness_is_contested_elsewhere_it_is_unmanaged() {
    let fs = vec![finding("FAIL", "//storage.googleapis.com/corp-audit-logs")];
    let on_witness = prowler_verdict(&fs, &["storage.googleapis.com/corp-audit-logs".to_string()], true);
    assert_eq!(on_witness, "0 PASS / 1 FAIL · **CONTESTED** (1 FAIL on a verified witness)");
    let elsewhere = prowler_verdict(&fs, &["storage.googleapis.com/other-bucket".to_string()], true);
    assert_eq!(elsewhere, "0 PASS / 1 FAIL · 1 unmanaged finding(s) outside the estate");
    assert_eq!(prowler_verdict(&fs, &[], false), "0 PASS / 1 FAIL");
    let manual = vec![finding("MANUAL", "")];
    assert_eq!(prowler_verdict(&manual, &[], false), "0 PASS / 0 FAIL / 1 MANUAL");
    let passes = vec![finding("PASS", "x"), finding("PASS", "y"), finding("FAIL", "")];
    assert_eq!(prowler_verdict(&passes, &["x".to_string()], true), "2 PASS / 1 FAIL · 1 unmanaged finding(s) outside the estate");
}

#[test]
fn each_bucket_has_its_title_and_rank() {
    assert_eq!(Bucket::A.title(), "A · a pack already covers it — adopt it");
    assert_eq!(Bucket::E.title(), "E · not IaC — a manual duty");
    assert!(Bucket::A.rank() < Bucket::B.rank() && Bucket::D.rank() < Bucket::E.rank());
    assert_eq!(Bucket::C.letter(), "C");
}
