use satz::config::{Config, Folder, Project};
use satz::discovery::{report_skipped, Discovered, DropReason, DroppedAttr};
use satz::discovery::{
    asset_resource_name, folder_identifier_exec, grant_import_id, grant_label_base, label_folders_by_display_name,
    link_folders_to_parents, link_projects_to_folders, organization_from_ancestors, parent_type_of, parents_left_out,
    grant_entry, push_grant, push_pinned_grant, qualify_duplicate_keys, resolve_grant_collisions, OnCollision, SkipReason, Skipped,
};
use satz::yaml::Yaml;

fn folder(name: &str) -> Folder {
    Folder {
        import_id: None,
        import_id_comment: None,
        display_name: name.into(),
        parent: None,
        folder: None,
        project: None,
        extra: Vec::new(),
    }
}

fn folder_with_parent(name: &str, parent: &str) -> Folder {
    Folder { parent: Some(parent.into()), ..folder(name) }
}

fn project(id: &str) -> Project {
    Project {
        import_id: None,
        import_id_comment: None,
        name: None,
        project_id: id.into(),
        billing_account: None,
        labels: None,
        tags: None,
        deletion_policy: None,
        project_service: None,
        extra: Vec::new(),
    }
}

fn pairs(v: &[(&str, &str)]) -> Vec<(String, String)> {
    v.iter().map(|(a, b)| (a.to_string(), b.to_string())).collect()
}

fn get<'a, V>(m: &'a [(String, V)], k: &str) -> &'a V {
    &m.iter().find(|(key, _)| key == k).expect("key present").1
}

fn keys<V>(m: &[(String, V)]) -> Vec<String> {
    let mut k: Vec<String> = m.iter().map(|(key, _)| key.clone()).collect();
    k.sort();
    k
}

#[test]
fn a_child_dropped_for_a_filtered_parent_names_the_type_to_add() {
    let skip = |t: &str, reason: SkipReason| Skipped { tf_type: t.into(), what: "x".into(), reason };
    let skipped = vec![
        skip("google_monitoring_alert_policy", SkipReason::ParentNotFound("project acme-infra-001".into())),
        skip("google_monitoring_alert_policy", SkipReason::ParentNotFound("projects/acme-infra-001".into())),
        skip("google_bigquery_dataset", SkipReason::ParentNotFound("project acme-infra-001".into())),
        skip("google_folder_iam_member", SkipReason::ParentNotFound("folders/111".into())),
    ];
    let filtered: Vec<String> = vec!["google_project".to_string()];
    let left_out = parents_left_out(&skipped, &filtered);
    assert_eq!(left_out.get("google_monitoring_alert_policy", "google_project"), Some(2));
    assert_eq!(left_out.get("google_bigquery_dataset", "google_project"), Some(1));
    // a folder the filter did not touch is some other reason, not this one
    assert_eq!(left_out.get("google_folder_iam_member", "google_folder"), None);
}

#[test]
fn labels_are_readable_identifiers() {
    assert_eq!(grant_label_base("roles/resourcemanager.folderAdmin", "user:alice.b@example.com"), "folderAdmin_alice_b");
    assert_eq!(grant_label_base("organizations/1/roles/myRole", "serviceAccount:svc@p.iam.gserviceaccount.com"), "myRole_svc");
    assert_eq!(grant_label_base("roles/viewer", "allUsers"), "viewer_allUsers");
}

#[test]
fn a_type_skipped_as_filtered_counts_as_filtered_off() {
    let skipped = vec![
        Skipped { tf_type: "google_folder".into(), what: "folders/7".into(), reason: SkipReason::Filtered },
        Skipped {
            tf_type: "google_folder_iam_member".into(),
            what: "x".into(),
            reason: SkipReason::ParentNotFound("folders/7".into()),
        },
        Skipped {
            tf_type: "google_folder_iam_member".into(),
            what: "y".into(),
            reason: SkipReason::ParentNotFound("organizations/1".into()),
        },
    ];
    let left_out = parents_left_out(&skipped, &[]);
    assert_eq!(left_out.get("google_folder_iam_member", "google_folder"), Some(1));
    assert_eq!(left_out.rows.len(), 1);
}

#[test]
fn the_resource_name_is_the_full_name_without_its_service() {
    assert_eq!(asset_resource_name("//logging.googleapis.com/projects/p/sinks/x"), Some("projects/p/sinks/x"));
    assert_eq!(asset_resource_name("//cloudresourcemanager.googleapis.com/folders/1"), Some("folders/1"));
    assert_eq!(asset_resource_name("projects/p"), None);
    assert_eq!(asset_resource_name("//storage.googleapis.com/"), None);
    assert_eq!(asset_resource_name("//storage.googleapis.com"), None);
}

#[test]
fn grant_import_ids_follow_the_provider_forms() {
    assert_eq!(
        grant_import_id("google_organization_iam_member", "organizations/123", "roles/viewer", "group:a@example.com"),
        "123 roles/viewer group:a@example.com"
    );
    assert_eq!(
        grant_import_id("google_storage_bucket_iam_member", "acme-state", "roles/storage.admin", "user:b@example.com"),
        "b/acme-state roles/storage.admin user:b@example.com"
    );
    assert_eq!(
        grant_import_id("google_storage_bucket_iam_member", "b/acme-state", "r", "m"),
        "b/acme-state r m"
    );
    assert_eq!(grant_import_id("google_folder_iam_member", "folders/9", "r", "m"), "folders/9 r m");
}

#[test]
fn the_first_organisation_ancestor_names_the_organisation() {
    let a = vec!["projects/1".to_string(), "folders/2".to_string(), "organizations/123".to_string()];
    assert_eq!(organization_from_ancestors(&a), Some("123".to_string()));
    let none = vec!["projects/1".to_string(), "folders/2".to_string()];
    assert_eq!(organization_from_ancestors(&none), None);
    assert_eq!(organization_from_ancestors(&[]), None);
}

#[test]
fn a_parent_names_its_type() {
    assert_eq!(parent_type_of("project acme"), Some("google_project".to_string()));
    assert_eq!(parent_type_of("projects/acme"), Some("google_project".to_string()));
    assert_eq!(parent_type_of("folders/1"), Some("google_folder".to_string()));
    assert_eq!(parent_type_of("organizations/1"), None);
}

#[test]
fn skip_reasons_read_as_the_report_prints_them() {
    assert_eq!(SkipReason::TypeOff.describe(), "type off (import: false)");
    assert_eq!(SkipReason::Filtered.describe(), "filtered by --only/--exclude");
    assert_eq!(SkipReason::ParentNotFound("folders/1".into()).describe(), "parent not imported: folders/1");
    assert_eq!(
        SkipReason::PlatformOwned("_Default".into()).describe(),
        "platform-owned: matches skip pattern `_Default` on its import-config row"
    );
    assert_eq!(OnCollision::default(), OnCollision::Error);
}

#[test]
fn folders_are_labelled_by_display_name_and_numbered_only_on_collision() {
    let mut folders: Vec<(String, Folder)> = vec![
        ("folder-1".to_string(), folder("Infrastructure")),
        ("folder-2".to_string(), folder("Infrastructure")),
        ("folder-3".to_string(), folder("satz-preflight scratch")),
        ("folder-4".to_string(), folder("2024 archive")),
    ];
    let mut names = pairs(&[("folders/1", "folder-1"), ("folders/2", "folder-2"), ("folders/3", "folder-3"), ("folders/4", "folder-4")]);
    label_folders_by_display_name(&mut folders, &mut names);
    assert_eq!(keys(&folders), ["folder_2024_archive", "infrastructure_1", "infrastructure_2", "satz_preflight_scratch"]);
    assert_eq!(get(&names, "folders/3"), "satz_preflight_scratch", "every pass-2 lookup follows the rename");
    assert_eq!(get(&names, "folders/1"), "infrastructure_1");
    assert_eq!(get(&folders, "infrastructure_2").display_name, "Infrastructure");
}

#[test]
fn folder_labels_are_identifiers() {
    assert_eq!(folder_identifier_exec("Infrastructure"), "infrastructure");
    assert_eq!(folder_identifier_exec("  --Shared__Services!! "), "shared_services");
    assert_eq!(folder_identifier_exec("2024 archive"), "folder_2024_archive");
    assert_eq!(folder_identifier_exec("***"), "folder_");
    assert_eq!(folder_identifier_exec("Ünïcode Team"), "n_code_team");
}

#[test]
fn folders_nest_by_depth_whatever_their_ids_look_like() {
    // A (short id) → B (long id) → C (medium id)
    let parents = pairs(&[("folders/1", "organizations/1"), ("folders/2000000002", "folders/1"), ("folders/30000003", "folders/2000000002")]);
    let names = pairs(&[("folders/1", "a"), ("folders/2000000002", "b"), ("folders/30000003", "c")]);
    let mut map: Vec<(String, Folder)> = ["a", "b", "c"].into_iter().map(|n| (n.to_string(), folder(n))).collect();
    let (skipped, r) = link_folders_to_parents(&parents, &names, &mut map);
    assert!(skipped.is_empty());
    assert!(r.unwrap().is_empty());
    assert_eq!(keys(&map), vec!["a"]);
    let b = get(get(&map, "a").folder.as_ref().unwrap(), "b");
    assert!(b.folder.as_ref().unwrap().iter().any(|(k, _)| k == "c"), "c nests under b under a");
}

#[test]
fn a_nested_folder_drops_the_parent_it_was_discovered_with() {
    let parents = pairs(&[("folders/2", "folders/1")]);
    let names = pairs(&[("folders/1", "a"), ("folders/2", "b")]);
    let mut map: Vec<(String, Folder)> = vec![("a".to_string(), folder("a")), ("b".to_string(), folder_with_parent("b", "folders/1"))];
    let (_, r) = link_folders_to_parents(&parents, &names, &mut map);
    r.unwrap();
    assert_eq!(get(get(&map, "a").folder.as_ref().unwrap(), "b").parent, None);
}

#[test]
fn a_project_under_the_organisation_is_top_level_without_folder_id() {
    let pparents = pairs(&[("projects/p1", "organizations/1")]);
    let pnames = pairs(&[("projects/p1", "p1")]);
    let mut projects: Vec<(String, Project)> = vec![("p1".to_string(), project("p1"))];
    let mut folders: Vec<(String, Folder)> = Vec::new();
    let (_, r) = link_projects_to_folders(&pparents, &pnames, &mut projects, &mut folders);
    r.unwrap();
    assert!(projects.iter().any(|(k, _)| k == "p1"), "the project stays at the top level");
    assert!(get(&projects, "p1").extra.iter().all(|(k, _)| k != "folder_id"), "no parent attribute: the emitter derives org_id");
}

#[test]
fn a_top_level_folder_carries_no_parent() {
    let parents = pairs(&[("folders/1", "organizations/1")]);
    let names = pairs(&[("folders/1", "a")]);
    let mut map: Vec<(String, Folder)> = vec![("a".to_string(), folder_with_parent("a", "organizations/1"))];
    let (_, r) = link_folders_to_parents(&parents, &names, &mut map);
    r.unwrap();
    assert_eq!(get(&map, "a").parent, None);
}

#[test]
fn a_parent_outside_the_sweep_stays_explicit() {
    let parents = pairs(&[("folders/30000003", "folders/999999999")]);
    let names = pairs(&[("folders/30000003", "c")]);
    let mut map: Vec<(String, Folder)> = vec![("c".to_string(), folder("c"))];
    let (_, r) = link_folders_to_parents(&parents, &names, &mut map);
    assert_eq!(r.unwrap(), vec!["folders/30000003 → folders/999999999".to_string()]);
    assert_eq!(get(&map, "c").parent.as_deref(), Some("folders/999999999"));

    let pparents = pairs(&[("projects/p1", "folders/999999999")]);
    let pnames = pairs(&[("projects/p1", "p1")]);
    let mut projects: Vec<(String, Project)> = vec![("p1".to_string(), project("p1"))];
    let mut folders: Vec<(String, Folder)> = Vec::new();
    let (_, r) = link_projects_to_folders(&pparents, &pnames, &mut projects, &mut folders);
    r.unwrap();
    let folder_id = get(&get(&projects, "p1").extra, "folder_id");
    assert!(matches!(folder_id, Yaml::Str(s) if s == "999999999"));
}

#[test]
fn a_project_nests_under_its_folder_and_a_missing_record_is_named() {
    let pparents = pairs(&[("projects/p2", "folders/1"), ("projects/p1", "folders/1"), ("projects/p3", "folders/1")]);
    let pnames = pairs(&[("projects/p1", "p1"), ("projects/p2", "p2"), ("folders/1", "infra")]);
    let mut projects: Vec<(String, Project)> = vec![("p1".to_string(), project("p1")), ("p2".to_string(), project("p2"))];
    let mut folders: Vec<(String, Folder)> = vec![("infra".to_string(), folder("Infra"))];
    let (skipped, r) = link_projects_to_folders(&pparents, &pnames, &mut projects, &mut folders);
    assert_eq!(skipped, vec!["projects/p3".to_string()]);
    assert!(r.unwrap().is_empty());
    assert!(projects.is_empty());
    assert_eq!(keys(get(&folders, "infra").project.as_ref().unwrap()), vec!["p1", "p2"]);

    let mut projects: Vec<(String, Project)> = Vec::new();
    let mut folders: Vec<(String, Folder)> = vec![("infra".to_string(), folder("Infra"))];
    let (_, r) = link_projects_to_folders(&pairs(&[("projects/p1", "folders/1")]), &pnames, &mut projects, &mut folders);
    assert_eq!(r.unwrap_err(), "import: project projects/p1 (p1) has a parent but no record to move");
}

fn empty_config() -> Config {
    Config {
        terraform: None,
        providers: None,
        org_policy_policy: None,
        google_organization_policy: None,
        organization_iam_member: None,
        billing_account_iam_member: None,
        folder: None,
        project: None,
        extra: Vec::new(),
    }
}

fn sink_project(id: &str, sink: &str) -> Project {
    let sinks = vec![(Yaml::Str(sink.into()), Yaml::Str("body".into()))];
    Project {
        extra: vec![("google_logging_project_sink".to_string(), Yaml::Mapping(sinks))],
        ..project(id)
    }
}

fn grant_maps() -> Vec<String> {
    vec!["google_project_iam_member".to_string(), "google_folder_iam_member".to_string()]
}

fn map_keys(config: &Config, project: &str, tf_type: &str) -> Vec<String> {
    let p = get(config.project.as_ref().unwrap(), project);
    let Yaml::Mapping(m) = get(&p.extra, tf_type) else { panic!("not a mapping") };
    m.iter()
        .filter_map(|(k, _)| match k {
            Yaml::Str(s) => Some(s.clone()),
            _ => None,
        })
        .collect()
}

#[test]
fn a_key_two_projects_share_takes_the_project_as_prefix() {
    let mut config = Config {
        project: Some(vec![
            ("alpha".to_string(), sink_project("alpha", "-default")),
            ("beta".to_string(), sink_project("beta", "-default")),
        ]),
        ..empty_config()
    };
    qualify_duplicate_keys(&mut config, &grant_maps());
    assert_eq!(map_keys(&config, "alpha", "google_logging_project_sink"), ["alpha--default"]);
    assert_eq!(map_keys(&config, "beta", "google_logging_project_sink"), ["beta--default"]);
}

#[test]
fn grant_map_members_are_never_qualified() {
    fn grants(id: &str) -> Project {
        let members = vec![(
            Yaml::Str("user:a@example.com".into()),
            Yaml::Sequence(vec![Yaml::Str("roles/viewer".into())]),
        )];
        Project {
            extra: vec![("google_project_iam_member".to_string(), Yaml::Mapping(members))],
            ..project(id)
        }
    }
    let mut config = Config {
        project: Some(vec![("alpha".to_string(), grants("alpha")), ("beta".to_string(), grants("beta"))]),
        ..empty_config()
    };
    qualify_duplicate_keys(&mut config, &grant_maps());
    for p in ["alpha", "beta"] {
        assert_eq!(map_keys(&config, p, "google_project_iam_member"), ["user:a@example.com"], "{}", p);
    }
}

#[test]
fn a_key_only_one_project_has_stays_as_it_is() {
    let mut config = Config {
        project: Some(vec![
            ("alpha".to_string(), sink_project("alpha", "-default")),
            ("beta".to_string(), sink_project("beta", "audit")),
        ]),
        ..empty_config()
    };
    qualify_duplicate_keys(&mut config, &grant_maps());
    assert_eq!(map_keys(&config, "alpha", "google_logging_project_sink"), ["-default"]);
    assert_eq!(map_keys(&config, "beta", "google_logging_project_sink"), ["audit"]);
}

#[test]
fn a_qualified_name_already_held_is_numbered_past() {
    // "alpha--default" is itself a key of the type, so the qualified copy of
    // "-default" in alpha takes the next number
    let mut alpha = sink_project("alpha", "-default");
    if let Yaml::Mapping(m) = &mut alpha.extra[0].1 {
        m.push((Yaml::Str("alpha--default".into()), Yaml::Str("body".into())));
    }
    let mut config = Config {
        project: Some(vec![("alpha".to_string(), alpha), ("beta".to_string(), sink_project("beta", "-default"))]),
        ..empty_config()
    };
    qualify_duplicate_keys(&mut config, &grant_maps());
    let mut a = map_keys(&config, "alpha", "google_logging_project_sink");
    a.sort();
    assert_eq!(a, ["alpha--default", "alpha--default-2"]);
    assert_eq!(map_keys(&config, "beta", "google_logging_project_sink"), ["beta--default"]);
}

#[test]
fn a_key_a_folder_and_its_project_share_is_qualified_in_both() {
    let mut f = folder("Infrastructure");
    f.extra = vec![(
        "google_logging_project_sink".to_string(),
        Yaml::Mapping(vec![(Yaml::Str("-default".into()), Yaml::Null)]),
    )];
    f.project = Some(vec![("alpha".to_string(), sink_project("alpha", "-default"))]);
    let mut config = Config { folder: Some(vec![("infrastructure".to_string(), f)]), ..empty_config() };
    qualify_duplicate_keys(&mut config, &grant_maps());
    let fo = get(config.folder.as_ref().unwrap(), "infrastructure");
    let Yaml::Mapping(m) = get(&fo.extra, "google_logging_project_sink") else { panic!() };
    assert!(matches!(&m[0].0, Yaml::Str(s) if s == "infrastructure--default"));
    let p = get(fo.project.as_ref().unwrap(), "alpha");
    let Yaml::Mapping(m) = get(&p.extra, "google_logging_project_sink") else { panic!() };
    assert!(matches!(&m[0].0, Yaml::Str(s) if s == "alpha--default"));
}

fn folder_with_grant(name: &str, member: &str, roles: Vec<Yaml>) -> Folder {
    let members = vec![(Yaml::Str(member.into()), Yaml::Sequence(roles))];
    Folder {
        extra: vec![("google_folder_iam_member".to_string(), Yaml::Mapping(members))],
        ..folder(name)
    }
}

fn two_folders() -> Config {
    Config {
        folder: Some(vec![
            (
                "a".to_string(),
                folder_with_grant("a", "user:x@example.com", vec![
                    grant_entry("roles/resourcemanager.folderAdmin", "folders/1 roles/resourcemanager.folderAdmin user:x@example.com"),
                    grant_entry("roles/browser", "folders/1 roles/browser user:x@example.com"),
                ]),
            ),
            (
                "b".to_string(),
                folder_with_grant("b", "user:x@example.com", vec![grant_entry(
                    "roles/resourcemanager.folderAdmin",
                    "folders/2 roles/resourcemanager.folderAdmin user:x@example.com",
                )]),
            ),
        ]),
        ..empty_config()
    }
}

fn grants_of<'a>(config: &'a Config, folder: &str) -> &'a Vec<(Yaml, Yaml)> {
    let f = get(config.folder.as_ref().unwrap(), folder);
    let Yaml::Mapping(m) = get(&f.extra, "google_folder_iam_member") else { panic!("not a mapping") };
    m
}

fn lookup<'a>(m: &'a [(Yaml, Yaml)], k: &str) -> Option<&'a Yaml> {
    m.iter().find(|(key, _)| matches!(key, Yaml::Str(s) if s == k)).map(|(_, v)| v)
}

fn text<'a>(v: Option<&'a Yaml>) -> Option<&'a str> {
    match v {
        Some(Yaml::Str(s)) => Some(s.as_str()),
        _ => None,
    }
}

#[test]
fn the_same_grant_on_two_folders_is_refused_by_default() {
    let mut config = two_folders();
    let err = resolve_grant_collisions(&mut config, OnCollision::Error, &grant_maps()).unwrap_err();
    assert!(err.contains("google_folder_iam_member user:x@example.com roles/resourcemanager.folderAdmin on a, b"), "{}", err);
    assert!(err.contains("--on-collision counter"), "{}", err);
    assert!(!err.contains("roles/browser"), "a role only one folder holds is no collision:\n{}", err);
}

#[test]
fn with_counter_the_second_folder_gets_a_labelled_grant() {
    let mut config = two_folders();
    let notes = resolve_grant_collisions(&mut config, OnCollision::Counter, &grant_maps()).unwrap();
    assert_eq!(notes.len(), 1, "{:?}", notes);
    assert!(notes[0].contains("google_folder_iam_member.folderAdmin_x_2"), "{}", notes[0]);
    assert!(notes[0].contains("a holds the same grant"), "{}", notes[0]);
    let a = grants_of(&config, "a");
    let Some(Yaml::Sequence(roles)) = lookup(a, "user:x@example.com") else { panic!("{:?}", a) };
    assert_eq!(roles.len(), 2);
    let b = grants_of(&config, "b");
    assert!(lookup(b, "user:x@example.com").is_none(), "{:?}", b);
    let Some(Yaml::Mapping(labelled)) = lookup(b, "folderAdmin_x_2") else { panic!("{:?}", b) };
    assert_eq!(text(lookup(labelled, "role")), Some("roles/resourcemanager.folderAdmin"));
    assert_eq!(text(lookup(labelled, "member")), Some("user:x@example.com"));
    assert_eq!(text(lookup(labelled, "import-id")), Some("folders/2 roles/resourcemanager.folderAdmin user:x@example.com"));
}

#[test]
fn a_third_folder_takes_the_next_number() {
    let mut config = two_folders();
    config.folder.as_mut().unwrap().push((
        "c".to_string(),
        folder_with_grant("c", "user:x@example.com", vec![grant_entry(
            "roles/resourcemanager.folderAdmin",
            "folders/3 roles/resourcemanager.folderAdmin user:x@example.com",
        )]),
    ));
    let notes = resolve_grant_collisions(&mut config, OnCollision::Counter, &grant_maps()).unwrap();
    assert_eq!(notes.len(), 2, "{:?}", notes);
    assert!(lookup(grants_of(&config, "b"), "folderAdmin_x_2").is_some());
    assert!(lookup(grants_of(&config, "c"), "folderAdmin_x_3").is_some());
}

#[test]
fn a_folder_grant_and_a_project_grant_never_collide() {
    let mut config = two_folders();
    let members = vec![(Yaml::Str("user:x@example.com".into()), Yaml::Sequence(vec![Yaml::Str("roles/browser".into())]))];
    let p = Project {
        extra: vec![("google_project_iam_member".to_string(), Yaml::Mapping(members))],
        ..project("p")
    };
    config.project = Some(vec![("p".to_string(), p)]);
    config.folder.as_mut().unwrap().retain(|(k, _)| k != "b");
    assert_eq!(resolve_grant_collisions(&mut config, OnCollision::Error, &grant_maps()).unwrap(), Vec::<String>::new());
    let Some(Yaml::Sequence(roles)) = lookup(grants_of(&config, "a"), "user:x@example.com") else { panic!() };
    assert_eq!(roles.len(), 2, "nothing moved");
}

#[test]
fn the_first_node_is_the_first_by_key_not_by_listing() {
    // listed b before a, visited a before b: a keeps the map form
    let mut config = two_folders();
    config.folder.as_mut().unwrap().reverse();
    let notes = resolve_grant_collisions(&mut config, OnCollision::Counter, &grant_maps()).unwrap();
    assert_eq!(
        notes,
        ["import: user:x@example.com roles/resourcemanager.folderAdmin on b is written as google_folder_iam_member.folderAdmin_x_2 — a holds the same grant, and the map form has one address per member and role"]
    );
}

#[test]
fn a_nested_folder_is_visited_under_its_parent_path() {
    let mut outer = folder_with_grant("outer", "user:x@example.com", vec![Yaml::Str("roles/browser".into())]);
    outer.folder = Some(vec![(
        "inner".to_string(),
        folder_with_grant("inner", "user:x@example.com", vec![Yaml::Str("roles/browser".into())]),
    )]);
    let mut config = Config { folder: Some(vec![("outer".to_string(), outer)]), ..empty_config() };
    let err = resolve_grant_collisions(&mut config, OnCollision::Error, &grant_maps()).unwrap_err();
    assert_eq!(
        err,
        "import: 1 grant(s) held on more than one folder/project would emit one address each — the map form's label is member + role:\n  google_folder_iam_member user:x@example.com roles/browser on outer, outer/inner\n`--on-collision counter` keeps the first in the map form and writes the others as labelled resources with a running number; or edit the estate by hand"
    );
}

#[test]
fn a_bucket_grant_is_a_pinned_map_per_bucket() {
    // two buckets, one member, one role: two maps under one key, each
    // pinned to its bucket, never a labelled `<bucket>-<role>-<member>`
    let mut extra: Vec<(String, Yaml)> = Vec::new();
    for bucket in ["a", "b", "a"] {
        push_pinned_grant(
            &mut extra,
            "google_storage_bucket_iam_member",
            "bucket",
            bucket,
            "group:x@example.com",
            "roles/storage.objectViewer",
            Some(format!("b/{} roles/storage.objectViewer group:x@example.com", bucket)),
        );
    }
    push_pinned_grant(&mut extra, "google_storage_bucket_iam_member", "bucket", "a", "group:x@example.com", "roles/storage.admin", None);
    let Yaml::Sequence(maps) = get(&extra, "google_storage_bucket_iam_member") else { panic!("a list of maps") };
    assert_eq!(maps.len(), 2, "{:?}", maps);
    let Yaml::Mapping(a) = &maps[0] else { panic!() };
    assert_eq!(text(lookup(a, "bucket")), Some("a"));
    let Some(Yaml::Sequence(roles)) = lookup(a, "group:x@example.com") else { panic!() };
    assert_eq!(roles.len(), 2, "the second grant on the same bucket joins the map, the third is a repeat: {:?}", roles);
    let Yaml::Mapping(b) = &maps[1] else { panic!() };
    assert_eq!(text(lookup(b, "bucket")), Some("b"));
}

#[test]
fn a_role_already_granted_is_not_added_twice() {
    let mut roles = vec![Yaml::Str("roles/viewer".into())];
    push_grant(&mut roles, "roles/viewer", Some("id".into()));
    assert_eq!(roles.len(), 1);
    push_grant(&mut roles, "roles/editor", Some("p roles/editor user:a".into()));
    assert_eq!(roles.len(), 2);
    let Yaml::Mapping(m) = &roles[1] else { panic!("the object form: {:?}", roles[1]) };
    assert_eq!(text(lookup(m, "role")), Some("roles/editor"));
    assert_eq!(text(lookup(m, "import-id")), Some("p roles/editor user:a"));
    push_grant(&mut roles, "roles/owner", None);
    assert!(matches!(&roles[2], Yaml::Str(s) if s == "roles/owner"));
}

fn found(skipped: Vec<Skipped>, dropped: Vec<DroppedAttr>, notes: Vec<&str>) -> Discovered {
    Discovered {
        config: empty_config(),
        skipped,
        dropped_attrs: dropped,
        organization: None,
        notes: notes.into_iter().map(String::from).collect(),
    }
}

fn dropped(t: &str, what: &str, path: &str, why: DropReason) -> DroppedAttr {
    DroppedAttr { tf_type: t.into(), what: what.into(), path: path.into(), why }
}

#[test]
fn nothing_skipped_says_so() {
    let lines = report_skipped(&found(vec![], vec![], vec!["a note"]), &vec![], false);
    assert_eq!(
        lines,
        ["a note", "import: nothing skipped — every resource the source had is in the estate."]
    );
}

#[test]
fn a_loss_is_named_in_full_and_vocabulary_is_counted() {
    let d = vec![
        dropped("google_storage_bucket", "b1", "lifecycle.rule", DropReason::NotCarried("two fields claim it".into())),
        dropped("google_storage_bucket", "b1", "kind", DropReason::Vocabulary),
        dropped("google_storage_bucket", "b2", "kind", DropReason::Vocabulary),
        dropped("google_project", "p", "etag", DropReason::Vocabulary),
    ];
    let lines = report_skipped(&found(vec![], d, vec![]), &vec![], true);
    assert_eq!(
        lines,
        [
            "import: 1 attribute(s) the provider schema names are NOT in the estate — an apply would reset them on the live resource:",
            "  - google_storage_bucket b1 .lifecycle.rule — two fields claim it",
            "import: 3 attribute(s) dropped — not in the provider schema (API vocabulary; would not plan):",
            "      1 google_project",
            "      2 google_storage_bucket",
            "  - google_storage_bucket b1 .kind",
            "  - google_storage_bucket b2 .kind",
            "  - google_project p .etag",
            "import: nothing skipped — every resource the source had is in the estate.",
        ]
    );
}

#[test]
fn skipped_resources_are_counted_by_reason_and_listed_when_verbose() {
    let skip = |t: &str, what: &str, reason: SkipReason| Skipped { tf_type: t.into(), what: what.into(), reason };
    let skipped = vec![
        skip("google_logging_project_sink", "_Default", SkipReason::PlatformOwned("_Default".into())),
        skip("google_bigquery_dataset", "d", SkipReason::ParentNotFound("projects/p".into())),
        skip("google_logging_project_sink", "_Required", SkipReason::PlatformOwned("_Default".into())),
        skip("google_compute_network", "n", SkipReason::TypeOff),
    ];
    let filtered = vec!["google_project".to_string()];
    let quiet = report_skipped(&found(skipped.clone(), vec![], vec![]), &filtered, false);
    assert_eq!(
        quiet,
        [
            "import: 1 google_bigquery_dataset need google_project, which --only/--exclude left out — add google_project to --only",
            "import: skipped 5 resource(s):",
            "      1 parent not imported",
            "      2 platform-owned, skip pattern `_Default`",
            "      1 type off (import: false)",
            "      1 type(s) filtered by --only/--exclude, not fetched",
            "  (--verbose lists every one; `import: false` rows, `--all`, `--only` and `--exclude` are the levers)",
        ]
    );
    let loud = report_skipped(&found(skipped, vec![], vec![]), &filtered, true);
    assert_eq!(
        &loud[6..],
        [
            "  filtered type(s): google_project",
            "  - google_bigquery_dataset d — parent not imported: projects/p",
            "  - google_compute_network n — type off (import: false)",
            "  - google_logging_project_sink _Default — platform-owned: matches skip pattern `_Default` on its import-config row",
            "  - google_logging_project_sink _Required — platform-owned: matches skip pattern `_Default` on its import-config row",
        ]
    );
}
