use carina::aws::validation::{validate_resource, validate_s3_bucket};
use carina::resource::{Value, ValueMap};

fn s(v: &str) -> Value {
    Value::String(v.to_string())
}

fn map(pairs: Vec<(&str, Value)>) -> ValueMap {
    let mut m = ValueMap::new();
    for (k, v) in pairs {
        m.insert(k.to_string(), v);
    }
    m
}

#[test]
fn test_valid_versioning_enabled_lowercase() {
    let attrs = map(vec![
        ("bucket_name", s("my-bucket")),
        ("versioning_configuration", Value::Dict(map(vec![("status", s("enabled"))]))),
    ]);
    assert!(validate_s3_bucket(&attrs).is_ok());
}

#[test]
fn test_valid_versioning_enabled_camel_case() {
    let attrs = map(vec![
        ("BucketName", s("my-bucket")),
        ("VersioningConfiguration", Value::Dict(map(vec![("Status", s("Enabled"))]))),
    ]);
    assert!(validate_s3_bucket(&attrs).is_ok());
}

#[test]
fn test_valid_versioning_suspended() {
    let attrs = map(vec![
        ("bucket_name", s("my-bucket")),
        ("versioning_configuration", Value::Dict(map(vec![("status", s("suspended"))]))),
    ]);
    assert!(validate_s3_bucket(&attrs).is_ok());
}

#[test]
fn test_invalid_versioning_status() {
    let attrs = map(vec![
        ("bucket_name", s("my-bucket")),
        ("versioning_configuration", Value::Dict(map(vec![("status", s("invalid"))]))),
    ]);

    let result = validate_s3_bucket(&attrs);
    assert!(result.is_err());
    let errors = result.unwrap_err();
    assert_eq!(errors.len(), 1);
    assert!(errors[0].message.contains("Invalid status value"));
    assert!(errors[0].message.contains("enabled, suspended"));
}

#[test]
fn test_invalid_bucket_name_too_short() {
    let attrs = map(vec![("bucket_name", s("ab"))]);

    let result = validate_s3_bucket(&attrs);
    assert!(result.is_err());
    let errors = result.unwrap_err();
    assert!(errors[0].message.contains("between 3 and 63 characters"));
    assert_eq!(errors[0].message, "bucket_name must be between 3 and 63 characters, got 2");
    assert_eq!(errors[0].text(), "bucket_name: bucket_name must be between 3 and 63 characters, got 2");
}

#[test]
fn validation_errors_for_wrong_shapes() {
    let attrs = map(vec![
        ("bucket_name", Value::Int(3)),
        ("versioning_configuration", s("on")),
    ]);
    let errors = validate_s3_bucket(&attrs).unwrap_err();
    assert_eq!(errors.len(), 2);
    assert_eq!(errors[0].message, "bucket_name must be a string");
    assert_eq!(errors[1].path, "versioning_configuration");
}

#[test]
fn unknown_resource_types_pass_validation() {
    let attrs = map(vec![("bucket_name", s("ab"))]);
    assert!(validate_resource("vpc", &attrs).is_ok());
    assert!(validate_resource("s3_bucket", &attrs).is_err());
}
