use satz::day_zero::{billing_account, bucket_name, check, gate, organization_id, project_id, DayZero, Problem};

fn ok() -> DayZero<'static> {
    DayZero {
        shortname: "acme",
        organization_id: "123456789012",
        greenfield: false,
        billing_account: "012345-6789AB-CDEF01",
        project_id: Some("acme-infra-001"),
        bucket_name: Some("acme-infra-001-state"),
    }
}

#[test]
fn a_complete_estate_passes_and_says_nothing() {
    assert_eq!(check(&ok()), Vec::<Problem>::new());
    assert!(gate(&ok()).is_ok());
}

#[test]
fn an_empty_billing_account_is_caught_before_it_reaches_a_url() {
    let d = DayZero { billing_account: "", ..ok() };
    let err = gate(&d).unwrap_err();
    assert!(err.contains("billing_account_infra — is empty"), "{}", err);
    assert!(err.contains("satz init --billing-account-infra"), "the flag that sets it:\n{}", err);
    assert!(err.contains("nothing was called"), "{}", err);
}

#[test]
fn a_domain_in_the_organisation_id_is_named_for_what_it_is() {
    let d = DayZero { organization_id: "example.com", ..ok() };
    let err = gate(&d).unwrap_err();
    assert!(err.contains("not a number") && err.contains("customer_domain"), "{}", err);
}

#[test]
fn greenfield_has_no_organisation_yet_and_that_is_allowed() {
    let d = DayZero { organization_id: "", greenfield: true, ..ok() };
    assert!(gate(&d).is_ok());
    let d = DayZero { organization_id: "", greenfield: true, billing_account: "nope", ..ok() };
    assert!(gate(&d).unwrap_err().contains("billing_account_infra"));
}

#[test]
fn every_shape_is_judged_and_each_problem_is_reported_once() {
    let d = DayZero {
        shortname: "",
        organization_id: "12-34",
        greenfield: false,
        billing_account: "012345-6789AB",
        project_id: Some("Acme_Infra"),
        bucket_name: Some("-nope-"),
    };
    let problems = check(&d);
    assert_eq!(problems.len(), 5, "{:?}", problems);
    let params: Vec<&str> = problems.iter().map(|p| p.param.as_str()).collect();
    assert_eq!(
        params,
        ["customer_shortname", "customer_organization_id", "billing_account_infra", "infra_project_name", "infra_bucket_name"]
    );
}

#[test]
fn a_project_id_the_estate_does_not_set_is_refused_by_name() {
    let d = DayZero { project_id: None, bucket_name: None, ..ok() };
    let err = gate(&d).unwrap_err();
    assert!(err.contains("infra_project_name — is not set"), "{}", err);
    assert!(err.contains("satz init --infra-project-name"), "the flag that sets it:\n{}", err);
    assert!(err.contains("infra_bucket_name — is not set"), "{}", err);
}

#[test]
fn a_bucket_the_estate_does_not_set_is_refused_although_the_project_is_set() {
    let d = DayZero { bucket_name: None, ..ok() };
    let err = gate(&d).unwrap_err();
    assert!(err.contains("infra_bucket_name — is not set"), "{}", err);
    assert!(!err.contains("infra_project_name"), "the project is set and is not the bucket's default:\n{}", err);
}

#[test]
fn the_shapes_themselves() {
    assert!(organization_id("123456789012").is_ok());
    assert!(organization_id("1").is_ok(), "length is not a documented guarantee");
    assert!(organization_id("organizations/123").is_err());
    assert!(billing_account("012345-6789AB-CDEF01").is_ok());
    assert!(billing_account("012345-6789ab-CDEF01").is_err(), "lower case is not how Google writes them");
    assert!(billing_account("012345-6789AB-CDEF01-X").is_err());
    assert!(project_id("acme-infra-001").is_ok());
    assert!(project_id("acme").is_err(), "under six characters");
    assert!(project_id("1acme-infra").is_err(), "must start with a letter");
    assert!(project_id("acme-infra-").is_err(), "no trailing hyphen");
    assert!(project_id("ACME-INFRA").is_err());
    assert!(bucket_name("acme-infra-001-state").is_ok());
    assert!(bucket_name("acme.infra_001").is_ok());
    assert!(bucket_name("ab").is_err());
    assert!(bucket_name("-acme").is_err());
}

#[test]
fn a_malformed_value_is_quoted_in_the_refusal_and_counted() {
    let d = DayZero { organization_id: "12-34", billing_account: "x", ..ok() };
    let err = gate(&d).unwrap_err();
    assert!(err.starts_with("the estate is not ready to bootstrap — 2 param(s)"), "{}", err);
    assert!(err.contains("  customer_organization_id — is \"12-34\", which is not a number"), "{}", err);
    assert_eq!(organization_id("").unwrap_err(), "is empty");
    assert_eq!(
        bucket_name("AB").unwrap_err(),
        "is \"AB\", which is not a bucket name — 3 to 63 characters of lower-case letters, digits, `-`, `_` and `.`, starting and ending with a letter or digit"
    );
    assert_eq!(check(&d)[0].render(), "  customer_organization_id — is \"12-34\", which is not a number — an organisation id is all digits, and the DOMAIN is `customer_domain`\n      set it with `satz init --customer-organization-id`");
}
