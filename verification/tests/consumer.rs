use satz::compliance::live_matcher;
use satz::consumer::{hashed, same};

#[test]
fn a_value_is_hashed_as_an_interface_file_carries_it() {
    assert_eq!(hashed("abc"), "sha256:ba7816bf8f01cfea414140de5dae2223b00361a396177a9cb410ff61f20015ad");
}

#[test]
fn a_fact_compares_as_text_or_by_its_hash() {
    assert!(same("my-project", "my-project"));
    assert!(!same("my-project", "other"));
    let h = hashed("my-project");
    assert!(same(&h, "my-project"));
    assert!(!same(&h, "other"));
    assert!(!same("sha256:nothex", "sha256:nothex"));
}

#[test]
fn a_witness_is_matched_by_name_or_by_display_name() {
    assert_eq!(live_matcher("google_storage_bucket"), Some(("storage.googleapis.com/Bucket", "name")));
    assert_eq!(
        live_matcher("google_monitoring_alert_policy"),
        Some(("monitoring.googleapis.com/AlertPolicy", "display_name"))
    );
    assert_eq!(live_matcher("google_compute_network"), None);
}
