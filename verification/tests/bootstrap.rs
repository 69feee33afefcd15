use satz::bootstrap::{
    billing_step, check_identity, email_from_adc, email_from_identity, expected_admin, identity_matches,
    import_accepted, plan, render_summary, BillingStep, ErrorClass, IdentityCheck, PrincipalSource, RunSummary,
    StepOutcome, StepStatus,
};

#[test]
fn identity_matches_exactly_and_ignoring_case() {
    assert!(identity_matches("admin@example.com", "admin@example.com"));
    assert!(identity_matches("Admin@Example.com", "admin@example.com"));
    assert!(identity_matches(" admin@example.com ", "admin@example.com"));
}

#[test]
fn identity_mismatch_is_rejected() {
    // The reported bug: bootstrap ran as one identity while the config named another.
    assert!(!identity_matches("admin@example.com", "someone.else@example.com"));
    assert!(!identity_matches("admin@example.com", "admin@example.org"));
    assert!(!identity_matches("admin@example.com", ""));
}

fn outcome(label: &str, status: StepStatus) -> StepOutcome {
    StepOutcome { label: label.to_string(), status }
}

#[test]
fn summary_groups_outcomes_and_counts_failures() {
    let steps = vec![
        outcome("Folder \"Infrastructure\"", StepStatus::Created),
        outcome("Project acme-iac-infra", StepStatus::AlreadyExisted),
        outcome("Billing link", StepStatus::Skipped("project was not created".into())),
        outcome("API storage.googleapis.com", StepStatus::Failed(ErrorClass::QuotaProject, "SERVICE_DISABLED".into())),
        outcome("State bucket acme", StepStatus::Failed(ErrorClass::PermissionDenied, "PERMISSION_DENIED".into())),
    ];
    let out = render_summary(&steps);

    assert!(out.contains("Applied:"), "{out}");
    assert!(out.contains("Folder \"Infrastructure\""), "{out}");
    assert!(out.contains("Project acme-iac-infra"), "{out}");
    assert!(out.contains("Skipped:"), "{out}");
    assert!(out.contains("project was not created"), "{out}");
    assert!(out.contains("Errors:"), "{out}");
    // The API's own message must survive verbatim — it is the actionable part.
    assert!(out.contains("SERVICE_DISABLED"), "{out}");
    // A quota-class failure carries its hint — the raw 403 alone reads like a denial.
    assert!(out.contains("set-quota-project"), "{out}");
    assert!(out.contains("2 step(s) failed"), "{out}");
}

#[test]
fn summary_omits_empty_sections() {
    let steps = vec![outcome("Project p", StepStatus::Created)];
    let out = render_summary(&steps);
    assert!(out.contains("Applied:"), "{out}");
    assert!(!out.contains("Errors:"), "{out}");
    assert!(!out.contains("Skipped:"), "{out}");
    assert!(out.contains("All steps completed."), "{out}");
}

#[test]
fn failed_count_drives_the_exit_code() {
    let mut s = RunSummary::default();
    s.record("Folder", StepStatus::Created);
    s.record("Project", StepStatus::AlreadyExisted);
    s.record("Billing", StepStatus::Skipped("no project".into()));
    assert_eq!(s.failed(), 0, "non-failures must not make bootstrap exit non-zero");

    s.record("Bucket", StepStatus::Failed(ErrorClass::Other, "boom".into()));
    s.record("API x", StepStatus::Failed(ErrorClass::Other, "boom".into()));
    assert_eq!(s.failed(), 2);
}

#[test]
fn permission_failure_is_detected_only_for_permission_denials() {
    let mut s = RunSummary::default();
    s.record("Project", StepStatus::Failed(ErrorClass::Conflict, "ALREADY_EXISTS".into()));
    assert!(!s.has_permission_failure());

    // A quota-class 403 is not a permission problem and must not stop the run.
    s.record("API x", StepStatus::Failed(ErrorClass::QuotaProject, "SERVICE_DISABLED".into()));
    assert!(!s.has_permission_failure());

    s.record("Folder", StepStatus::Failed(ErrorClass::PermissionDenied, "PERMISSION_DENIED on folders.create".into()));
    assert!(s.has_permission_failure(), "a real denial must stop the run");
}

#[test]
fn the_whole_summary_reads_exactly() {
    let steps = vec![
        outcome("Project p", StepStatus::Created),
        outcome("Bucket b", StepStatus::AlreadyExisted),
        outcome("API x", StepStatus::Failed(ErrorClass::Other, "boom".into())),
    ];
    assert_eq!(
        render_summary(&steps),
        "\n=== Bootstrap summary ===\nApplied:\n  created Project p\n  exists  Bucket b\nErrors:\n  API x: boom\n\
         1 step(s) failed. Bootstrap is idempotent — fix the causes and re-run.\n"
    );
    assert_eq!(render_summary(&[]), "\n=== Bootstrap summary ===\nAll steps completed.\n");
}

#[test]
fn progress_lines_echo_each_step_on_its_stream() {
    let created = outcome("Project p", StepStatus::Created);
    assert_eq!(created.progress(), "  created  Project p");
    assert!(!created.progress_to_stderr());
    let failed = outcome("API x", StepStatus::Failed(ErrorClass::QuotaProject, "403".into()));
    assert!(failed.progress().starts_with("  FAILED   API x: 403\n           hint: this 403 is about the billed"));
    assert!(failed.progress_to_stderr());
    let skipped = outcome("Billing", StepStatus::Skipped("no project".into()));
    assert_eq!(skipped.progress(), "  skipped  Billing: no project");
}

#[test]
fn email_from_tokeninfo_and_userinfo_fields() {
    assert_eq!(email_from_identity(Some("admin@example.com")).as_deref(), Some("admin@example.com"));
    assert_eq!(email_from_identity(Some("  admin@example.com ")).as_deref(), Some("admin@example.com"));
    assert_eq!(email_from_identity(None), None);
    assert_eq!(email_from_identity(Some("")), None);
    assert_eq!(email_from_identity(Some("   ")), None);
}

#[test]
fn email_from_adc_key_file_or_impersonation_url() {
    assert_eq!(email_from_adc(Some("svc@p.iam.gserviceaccount.com"), None).as_deref(), Some("svc@p.iam.gserviceaccount.com"));
    let url = "https://iamcredentials.googleapis.com/v1/projects/-/serviceAccounts/target@p.iam.gserviceaccount.com:generateAccessToken";
    assert_eq!(email_from_adc(None, Some(url)).as_deref(), Some("target@p.iam.gserviceaccount.com"));
    assert_eq!(email_from_adc(Some(" "), Some(url)).as_deref(), Some("target@p.iam.gserviceaccount.com"));
    // authorized_user ADC carries no identity in the file
    assert_eq!(email_from_adc(None, None), None);
    assert_eq!(email_from_adc(None, Some("https://example.com/v1/:x")), None);
    assert_eq!(email_from_adc(None, Some("https://x/serviceAccounts/:generateAccessToken")), None);
}

#[test]
fn the_expected_admin_is_the_local_part_at_the_domain() {
    assert_eq!(expected_admin(Some("admin"), Some("example.com")).as_deref(), Some("admin@example.com"));
    assert_eq!(expected_admin(Some("admin@corp.example"), Some("example.com")).as_deref(), Some("admin@corp.example"));
    assert_eq!(expected_admin(Some(""), Some("example.com")), None);
    assert_eq!(expected_admin(Some("admin"), None), None);
}

#[test]
fn the_identity_check_stops_on_a_mismatch_or_an_unknown_identity() {
    assert_eq!(check_identity(None, Some("x@example.com")), IdentityCheck::NotConfigured);
    assert_eq!(check_identity(Some("a@example.com"), None), IdentityCheck::Unverifiable);
    assert_eq!(check_identity(Some("a@example.com"), Some("b@example.com")), IdentityCheck::Mismatch);
    assert_eq!(check_identity(Some("A@example.com"), Some("a@example.com ")), IdentityCheck::Matches);
    assert_eq!(PrincipalSource::AdcFile.label(), "ADC credentials file");
}

#[test]
fn the_plan_defaults_project_bucket_and_region() {
    let p = plan("e.satz", Some("acme"), Some("012345-6789AB-CDEF01"), Some("123"), None, None, None).unwrap();
    assert_eq!(p.project_id, "acme-iac-infra");
    assert_eq!(p.bucket_name, "acme-iac-infra");
    assert_eq!(p.region, "europe-west3");
    let q = plan("e.satz", Some("acme"), Some("b"), Some("1"), Some("us-east1"), Some("acme-infra-001"), Some("acme-state"))
        .unwrap();
    assert_eq!((q.project_id.as_str(), q.bucket_name.as_str(), q.region.as_str()), ("acme-infra-001", "acme-state", "us-east1"));
    assert_eq!(plan("e.satz", None, Some("b"), Some("1"), None, None, None).unwrap_err(), "Missing 'customer-shortname' in e.satz");
    assert_eq!(plan("e.satz", Some("a"), None, Some("1"), None, None, None).unwrap_err(), "Missing 'billing-account-infra' in e.satz");
    assert_eq!(
        plan("e.satz", Some("a"), Some("b"), None, None, None, None).unwrap_err(),
        "Missing org_id in configuration (required for bootstrap)"
    );
}

#[test]
fn billing_is_linked_only_when_it_is_not_already() {
    assert_eq!(billing_step(false, Some("b"), "b"), BillingStep::Skip);
    assert_eq!(billing_step(true, Some("b"), "b"), BillingStep::AlreadyLinked);
    assert_eq!(billing_step(true, Some("c"), "b"), BillingStep::Link);
    assert_eq!(billing_step(true, None, "b"), BillingStep::Link);
}

#[test]
fn an_import_of_a_managed_resource_counts_as_done() {
    assert!(import_accepted(true, ""));
    assert!(import_accepted(false, "Error: Resource already managed by OpenTofu"));
    assert!(!import_accepted(false, "Error: Cannot import non-existent remote object"));
}

fn jv(s: &str) -> serde_json::Value {
    serde_json::from_str(s).expect("valid test JSON")
}

fn field<'a>(v: &'a serde_json::Value, key: &str) -> Option<&'a str> {
    v.get(key).and_then(|e| e.as_str())
}

fn email_from_identity_json(v: &serde_json::Value) -> Option<String> {
    email_from_identity(field(v, "email"))
}

fn email_from_adc_json(v: &serde_json::Value) -> Option<String> {
    email_from_adc(field(v, "client_email"), field(v, "service_account_impersonation_url"))
}

#[test]
fn email_from_tokeninfo_body() {
    let v = jv(r#"{"azp":"1.apps.googleusercontent.com","scope":"...cloud-platform","email":"admin@example.com","email_verified":"true"}"#);
    assert_eq!(email_from_identity_json(&v).as_deref(), Some("admin@example.com"));
}

#[test]
fn email_from_userinfo_body() {
    let v = jv(r#"{"sub":"117","email":"admin@example.com","email_verified":true}"#);
    assert_eq!(email_from_identity_json(&v).as_deref(), Some("admin@example.com"));
}

#[test]
fn email_absent_empty_or_null_is_none() {
    assert_eq!(email_from_identity_json(&jv(r#"{"scope":"x"}"#)), None);
    assert_eq!(email_from_identity_json(&jv(r#"{"email":""}"#)), None);
    assert_eq!(email_from_identity_json(&jv(r#"{"email":"   "}"#)), None);
    assert_eq!(email_from_identity_json(&jv(r#"{"email":null}"#)), None);
}

#[test]
fn email_from_service_account_key_file() {
    let v = jv(r#"{"type":"service_account","client_email":"svc@p.iam.gserviceaccount.com"}"#);
    assert_eq!(email_from_adc_json(&v).as_deref(), Some("svc@p.iam.gserviceaccount.com"));
}

#[test]
fn email_from_impersonation_url() {
    let v = jv(r#"{"type":"impersonated_service_account","service_account_impersonation_url":"https://iamcredentials.googleapis.com/v1/projects/-/serviceAccounts/target@p.iam.gserviceaccount.com:generateAccessToken"}"#);
    assert_eq!(email_from_adc_json(&v).as_deref(), Some("target@p.iam.gserviceaccount.com"));
}

#[test]
fn authorized_user_adc_carries_no_email() {
    // gcloud user ADC has no identity in the file; that is why the REST probes exist.
    let v = jv(r#"{"type":"authorized_user","client_id":"x","refresh_token":"y"}"#);
    assert_eq!(email_from_adc_json(&v), None);
}
