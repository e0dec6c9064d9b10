use carina::resource::{Value, ValueMap};
use carina::schema::{cidr, positive_int, AttributeSchema, AttributeType, ResourceSchema};

fn s(v: &str) -> Value {
    Value::String(v.to_string())
}

#[test]
fn validate_string_type() {
    let t = AttributeType::String;
    assert!(t.validate(&s("hello")).is_ok());
    assert!(t.validate(&Value::Int(42)).is_err());
}

#[test]
fn validate_enum_type() {
    let t = AttributeType::Enum(vec!["a".to_string(), "b".to_string()]);
    assert!(t.validate(&s("a")).is_ok());
    assert!(t.validate(&s("Type.a")).is_ok());
    assert!(t.validate(&s("c")).is_err());
}

#[test]
fn validate_positive_int() {
    let t = positive_int();
    assert!(t.validate(&Value::Int(1)).is_ok());
    assert!(t.validate(&Value::Int(100)).is_ok());
    assert!(t.validate(&Value::Int(0)).is_err());
    assert!(t.validate(&Value::Int(-1)).is_err());
}

#[test]
fn validate_resource_schema() {
    let schema = ResourceSchema::new("resource")
        .attribute(AttributeSchema::new("name", AttributeType::String).required())
        .attribute(AttributeSchema::new("count", positive_int()))
        .attribute(AttributeSchema::new("enabled", AttributeType::Bool));

    let mut attrs = ValueMap::new();
    attrs.insert("name".to_string(), s("my-resource"));
    attrs.insert("count".to_string(), Value::Int(5));
    attrs.insert("enabled".to_string(), Value::Bool(true));

    assert!(schema.validate(&attrs).is_ok());
}

#[test]
fn missing_required_attribute() {
    let schema = ResourceSchema::new("bucket")
        .attribute(AttributeSchema::new("name", AttributeType::String).required());

    let attrs = ValueMap::new();
    let result = schema.validate(&attrs);
    assert!(result.is_err());
}

#[test]
fn validate_cidr_type() {
    let t = cidr();

    // Valid CIDRs
    assert!(t.validate(&s("10.0.0.0/16")).is_ok());
    assert!(t.validate(&s("192.168.1.0/24")).is_ok());
    assert!(t.validate(&s("0.0.0.0/0")).is_ok());
    assert!(t.validate(&s("255.255.255.255/32")).is_ok());

    // Invalid CIDRs
    assert!(t.validate(&s("10.0.0.0")).is_err()); // no prefix
    assert!(t.validate(&s("10.0.0.0/33")).is_err()); // prefix too large
    assert!(t.validate(&s("10.0.0.256/16")).is_err()); // octet > 255
    assert!(t.validate(&s("10.0.0/16")).is_err()); // only 3 octets
    assert!(t.validate(&s("invalid")).is_err()); // not a CIDR
    assert!(t.validate(&Value::Int(42)).is_err()); // wrong type
}

#[test]
fn type_error_messages() {
    let t = AttributeType::Int;
    let e = t.validate(&s("x")).unwrap_err();
    assert_eq!(e.message(), "Type mismatch: expected Int, got String");
    let list = AttributeType::List(Box::new(AttributeType::Int));
    let e = list.validate(&Value::List(vec![Value::Int(1), s("x")])).unwrap_err();
    assert!(e.message().starts_with("List item at index 1: "));
}

#[test]
fn schema_reports_all_errors() {
    let schema = ResourceSchema::new("r")
        .attribute(AttributeSchema::new("a", AttributeType::String).required())
        .attribute(AttributeSchema::new("b", AttributeType::Int));
    let mut attrs = ValueMap::new();
    attrs.insert("b".to_string(), s("not an int"));
    let errs = schema.validate(&attrs).unwrap_err();
    assert_eq!(errs.len(), 2);
}
