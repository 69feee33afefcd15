use satz::align::{align, apply_map, snake, AttrFlags, BlockShape, TypeMap};
use satz::yaml::Yaml;

fn json_model(v: &serde_json::Value) -> Yaml {
    match v {
        serde_json::Value::Null => Yaml::Null,
        serde_json::Value::Bool(b) => Yaml::Bool(*b),
        serde_json::Value::Number(n) => Yaml::Number(n.to_string()),
        serde_json::Value::String(s) => Yaml::Str(s.clone()),
        serde_json::Value::Array(a) => Yaml::Sequence(a.iter().map(json_model).collect()),
        serde_json::Value::Object(o) => Yaml::Mapping(o.iter().map(|(k, v)| (Yaml::Str(k.clone()), json_model(v))).collect()),
    }
}

fn yaml_model(v: &serde_yaml::Value) -> Yaml {
    match v {
        serde_yaml::Value::Null => Yaml::Null,
        serde_yaml::Value::Bool(b) => Yaml::Bool(*b),
        serde_yaml::Value::Number(n) => Yaml::Number(n.to_string()),
        serde_yaml::Value::String(s) => Yaml::Str(s.clone()),
        serde_yaml::Value::Sequence(s) => Yaml::Sequence(s.iter().map(yaml_model).collect()),
        serde_yaml::Value::Mapping(m) => Yaml::Mapping(m.iter().map(|(k, v)| (yaml_model(k), yaml_model(v))).collect()),
        serde_yaml::Value::Tagged(t) => Yaml::Tagged(t.tag.to_string(), Box::new(yaml_model(&t.value))),
    }
}

fn yaml_of(v: &Yaml) -> serde_yaml::Value {
    match v {
        Yaml::Null => serde_yaml::Value::Null,
        Yaml::Bool(b) => serde_yaml::Value::Bool(*b),
        Yaml::Number(n) => serde_yaml::from_str(n).unwrap(),
        Yaml::Str(s) => serde_yaml::Value::String(s.clone()),
        Yaml::Sequence(s) => serde_yaml::Value::Sequence(s.iter().map(yaml_of).collect()),
        Yaml::Mapping(m) => serde_yaml::Value::Mapping(m.iter().map(|(k, v)| (yaml_of(k), yaml_of(v))).collect()),
        Yaml::Tagged(t, b) => serde_yaml::Value::Tagged(Box::new(serde_yaml::value::TaggedValue {
            tag: serde_yaml::value::Tag::new(t.clone()),
            value: yaml_of(b),
        })),
    }
}

fn attr(computed: bool, optional: bool, required: bool) -> AttrFlags {
    AttrFlags { computed, optional, required }
}

fn block(attributes: Vec<(&str, AttrFlags)>, block_types: Vec<(&str, BlockShape)>) -> BlockShape {
    BlockShape {
        attributes: attributes.into_iter().map(|(k, v)| (k.to_string(), v)).collect(),
        block_types: block_types.into_iter().map(|(k, v)| (k.to_string(), v)).collect(),
    }
}

fn tf() -> BlockShape {
    block(
        vec![
            ("name", attr(false, false, true)),
            ("storage_class", attr(false, true, false)),
            ("uniform_bucket_level_access", attr(true, true, false)),
            ("public_access_prevention", attr(true, true, false)),
            ("requester_pays", attr(false, true, false)),
            ("force_destroy", attr(false, true, false)),
            ("self_link", attr(true, false, false)),
        ],
        vec![
            ("versioning", block(vec![("enabled", attr(false, false, true))], vec![])),
            (
                "lifecycle_rule",
                block(
                    vec![],
                    vec![
                        (
                            "action",
                            block(vec![("type", attr(false, false, true)), ("storage_class", attr(false, true, false))], vec![]),
                        ),
                        ("condition", block(vec![("age", attr(false, true, false))], vec![])),
                    ],
                ),
            ),
            ("timeouts", block(vec![("create", attr(false, true, false))], vec![])),
        ],
    )
}

fn api() -> Yaml {
    let v: serde_json::Value = serde_json::from_str(
        r#"{
            "Bucket": {"type": "object", "properties": {
                "name": {"type": "string"},
                "storageClass": {"type": "string"},
                "kind": {"type": "string"},
                "selfLink": {"type": "string"},
                "billing": {"type": "object", "properties": {"requesterPays": {"type": "boolean"}}},
                "iamConfiguration": {"type": "object", "properties": {
                    "uniformBucketLevelAccess": {"type": "object", "properties": {"enabled": {"type": "boolean"}, "lockedTime": {"type": "string"}}},
                    "publicAccessPrevention": {"type": "string"}
                }},
                "versioning": {"type": "object", "properties": {"enabled": {"type": "boolean"}}},
                "lifecycle": {"type": "object", "properties": {
                    "rule": {"type": "array", "items": {"type": "object", "properties": {
                        "action": {"type": "object", "properties": {"type": {"type": "string"}, "storageClass": {"type": "string"}}},
                        "condition": {"type": "object", "properties": {"age": {"type": "integer"}}}
                    }}}
                }},
                "acl": {"type": "array", "items": {"$ref": "BucketAccessControl"}}
            }},
            "BucketAccessControl": {"type": "object", "properties": {"entity": {"type": "string"}}}
        }"#,
    )
    .unwrap();
    json_model(&v)
}

fn member<'a>(v: &'a Yaml, k: &str) -> &'a Yaml {
    let Yaml::Mapping(m) = v else { panic!("not an object") };
    &m.iter().find(|(key, _)| matches!(key, Yaml::Str(s) if s == k)).expect("member").1
}

fn row<'a>(rows: &'a [(String, String)], k: &str) -> Option<&'a str> {
    rows.iter().find(|(key, _)| key == k).map(|(_, v)| v.as_str())
}

fn bucket_map() -> TypeMap {
    let schemas = api();
    align(member(&schemas, "Bucket"), &schemas, &tf())
}

#[test]
fn bucket_aligns_into_exact_flattened_renamed_and_unmatched() {
    let tm = bucket_map();
    assert_eq!(row(&tm.map, "iamConfiguration.uniformBucketLevelAccess.enabled"), Some("uniform_bucket_level_access"));
    assert_eq!(row(&tm.map, "iamConfiguration.publicAccessPrevention"), Some("public_access_prevention"));
    assert_eq!(row(&tm.map, "billing.requesterPays"), Some("requester_pays"));
    assert_eq!(row(&tm.map, "lifecycle.rule"), Some("lifecycle_rule"));
    assert_eq!(row(&tm.how, "lifecycle.rule"), Some("renamed"));
    assert_eq!(row(&tm.how, "billing.requesterPays"), Some("flattened"));
    assert_eq!(tm.unmatched, vec!["acl".to_string(), "kind".to_string()]);
    assert_eq!(tm.tf_only, vec!["force_destroy".to_string()]);
    assert!(tm.exact >= 8, "{}", tm.exact);
}

#[test]
fn apply_moves_values_and_prunes_the_emptied_wrappers() {
    let tm = bucket_map();
    let parsed: serde_yaml::Value = serde_yaml::from_str(
        "name: b\niamConfiguration:\n  uniformBucketLevelAccess:\n    enabled: true\n    lockedTime: x\n  publicAccessPrevention: enforced\nbilling:\n  requesterPays: false\nlifecycle:\n  rule:\n    - action: {type: Delete}\n      condition: {age: 30}\n",
    )
    .unwrap();
    let Yaml::Mapping(mut data) = yaml_model(&parsed) else { panic!("a mapping") };
    apply_map(&mut data, &tm.map);
    let out = serde_yaml::to_string(&yaml_of(&Yaml::Mapping(data))).unwrap();
    assert!(out.contains("uniform_bucket_level_access: true"), "{}", out);
    assert!(out.contains("public_access_prevention: enforced"), "{}", out);
    assert!(out.contains("requester_pays: false"), "{}", out);
    assert!(out.contains("lifecycle_rule:\n- action:"), "{}", out);
    assert!(!out.contains("billing:"), "emptied wrapper pruned:\n{}", out);
    assert!(out.contains("lockedTime: x"), "an unmapped sibling stays where it was:\n{}", out);
}

#[test]
fn the_rows_are_kept_in_path_order() {
    let tm = bucket_map();
    let keys: Vec<&str> = tm.map.iter().map(|(k, _)| k.as_str()).collect();
    let mut sorted = keys.clone();
    sorted.sort();
    assert_eq!(keys, sorted);
    assert_eq!(
        keys,
        ["billing.requesterPays", "iamConfiguration.publicAccessPrevention", "iamConfiguration.uniformBucketLevelAccess.enabled", "lifecycle.rule"]
    );
}

#[test]
fn snake_case_splits_at_each_capital() {
    assert_eq!(snake("uniformBucketLevelAccess"), "uniform_bucket_level_access");
    assert_eq!(snake("name"), "name");
    assert_eq!(snake("URL"), "u_r_l");
}

#[test]
fn a_deeper_source_moves_before_its_parent() {
    let mut data = vec![(
        Yaml::Str("a".into()),
        Yaml::Mapping(vec![(Yaml::Str("b".into()), Yaml::Str("x".into())), (Yaml::Str("c".into()), Yaml::Str("y".into()))]),
    )];
    let map = vec![("a".to_string(), "outer".to_string()), ("a.b".to_string(), "inner".to_string())];
    apply_map(&mut data, &map);
    let out = serde_yaml::to_string(&yaml_of(&Yaml::Mapping(data))).unwrap();
    assert_eq!(out, "inner: x\nouter:\n  c: y\n");
}
