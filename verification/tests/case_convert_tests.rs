use carina::aws::case_convert::{
    attributes_to_camel_case, attributes_to_snake_case, capitalize_first, is_likely_enum_value,
    to_camel_case, to_snake_case,
};
use carina::resource::{Value, ValueMap};

fn s(v: &str) -> Value {
    Value::String(v.to_string())
}

fn map(pairs: Vec<(&str, Value)>) -> ValueMap {
    let mut m = ValueMap::new();
    for (k, v) in pairs {
        m.insert(k.to_string(), v);
    }
    m
}

#[test]
fn test_to_camel_case() {
    assert_eq!(to_camel_case("bucket_name"), "BucketName");
    assert_eq!(to_camel_case("versioning_configuration"), "VersioningConfiguration");
    assert_eq!(to_camel_case("status"), "Status");
    assert_eq!(to_camel_case("id"), "Id");
    assert_eq!(to_camel_case("expiration_in_days"), "ExpirationInDays");
}

#[test]
fn test_to_snake_case() {
    assert_eq!(to_snake_case("BucketName"), "bucket_name");
    assert_eq!(to_snake_case("VersioningConfiguration"), "versioning_configuration");
    assert_eq!(to_snake_case("Status"), "status");
    assert_eq!(to_snake_case("Id"), "id");
    assert_eq!(to_snake_case("ExpirationInDays"), "expiration_in_days");
}

#[test]
fn test_is_likely_enum_value() {
    assert!(is_likely_enum_value("enabled"));
    assert!(is_likely_enum_value("suspended"));
    assert!(is_likely_enum_value("disabled"));
    assert!(!is_likely_enum_value("Enabled")); // Already capitalized
    assert!(!is_likely_enum_value("my-bucket")); // Contains hyphen
    assert!(!is_likely_enum_value("my_bucket")); // Contains underscore
    assert!(!is_likely_enum_value("my.bucket")); // Contains dot
    assert!(!is_likely_enum_value("")); // Empty
}

#[test]
fn test_attributes_to_camel_case() {
    let attrs = map(vec![
        ("bucket_name", s("my-bucket")),
        (
            "versioning_configuration",
            Value::Dict(map(vec![("status", s("enabled"))])), // lowercase input
        ),
    ]);

    let converted = attributes_to_camel_case(&attrs);

    assert!(converted.contains_key("BucketName"));
    assert!(converted.contains_key("VersioningConfiguration"));

    // Bucket name should NOT be capitalized (contains hyphen)
    assert_eq!(converted.get("BucketName"), Some(&s("my-bucket")));

    if let Value::Dict(vc) = converted.get("VersioningConfiguration").unwrap() {
        assert!(vc.contains_key("Status"));
        // Enum value should be capitalized
        assert_eq!(vc.get("Status"), Some(&s("Enabled")));
    } else {
        panic!("Expected Map");
    }
}

#[test]
fn test_attributes_to_snake_case() {
    let attrs = map(vec![
        ("BucketName", s("my-bucket")),
        (
            "VersioningConfiguration",
            Value::Dict(map(vec![("Status", s("Enabled"))])), // CamelCase input
        ),
    ]);

    let converted = attributes_to_snake_case(&attrs);

    assert!(converted.contains_key("bucket_name"));
    assert!(converted.contains_key("versioning_configuration"));

    if let Value::Dict(vc) = converted.get("versioning_configuration").unwrap() {
        assert!(vc.contains_key("status"));
        // Enum value should be converted to lowercase
        assert_eq!(vc.get("status"), Some(&s("enabled")));
    } else {
        panic!("Expected Map");
    }
}

#[test]
fn test_lifecycle_configuration_conversion() {
    let attrs = map(vec![(
        "lifecycle_configuration",
        Value::Dict(map(vec![(
            "rules",
            Value::List(vec![Value::Dict(map(vec![
                ("status", s("disabled")),
                ("expiration_in_days", Value::Int(30)),
            ]))]),
        )])),
    )]);

    let converted = attributes_to_camel_case(&attrs);

    if let Some(Value::Dict(lc)) = converted.get("LifecycleConfiguration") {
        if let Some(Value::List(rules)) = lc.get("Rules") {
            if let Some(Value::Dict(rule)) = rules.first() {
                // "disabled" should be converted to "Disabled"
                assert_eq!(rule.get("Status"), Some(&s("Disabled")));
            } else {
                panic!("Expected rule map");
            }
        } else {
            panic!("Expected rules list");
        }
    } else {
        panic!("Expected LifecycleConfiguration map");
    }
}

#[test]
fn capitalize_first_edge_cases() {
    assert_eq!(capitalize_first(""), "");
    assert_eq!(capitalize_first("enabled"), "Enabled");
    assert_eq!(capitalize_first("Already"), "Already");
}

#[test]
fn camel_then_snake_round_trip() {
    for name in ["bucket_name", "versioning_configuration", "id"] {
        assert_eq!(to_snake_case(&to_camel_case(name)), name);
    }
}
