use carina::ec2::{
    cidr_block, internet_gateway_schema, route_table_schema, schemas, security_group_schema,
    subnet_schema, vpc_schema,
};
use carina::graph::{Dependency, DependencyGraph};
use carina::resource::{Value, ValueMap};

fn s(v: &str) -> Value {
    Value::String(v.to_string())
}

#[test]
fn ec2_valid_cidr_block() {
    let t = cidr_block();
    assert!(t.validate(&s("10.0.0.0/16")).is_ok());
    assert!(t.validate(&s("192.168.1.0/24")).is_ok());
    assert!(t.validate(&s("0.0.0.0/0")).is_ok());
}

#[test]
fn ec2_invalid_cidr_block() {
    let t = cidr_block();
    assert!(t.validate(&s("10.0.0.0")).is_err()); // missing prefix
    assert!(t.validate(&s("10.0.0/16")).is_err()); // invalid IP
    assert!(t.validate(&s("10.0.0.0/33")).is_err()); // prefix too large
}

#[test]
fn ec2_valid_vpc() {
    let schema = vpc_schema();
    let mut attrs = ValueMap::new();
    attrs.insert("name".to_string(), s("my-vpc"));
    attrs.insert("region".to_string(), s("Region.ap_northeast_1"));
    attrs.insert("cidr_block".to_string(), s("10.0.0.0/16"));
    attrs.insert("enable_dns_support".to_string(), Value::Bool(true));
    attrs.insert("enable_dns_hostnames".to_string(), Value::Bool(true));

    assert!(schema.validate(&attrs).is_ok());
}

#[test]
fn vpc_missing_required() {
    let schema = vpc_schema();
    let mut attrs = ValueMap::new();
    attrs.insert("name".to_string(), s("my-vpc"));
    // missing region and cidr_block

    let result = schema.validate(&attrs);
    assert!(result.is_err());
}

#[test]
fn ec2_valid_subnet() {
    let schema = subnet_schema();
    let mut attrs = ValueMap::new();
    attrs.insert("name".to_string(), s("my-subnet"));
    attrs.insert("region".to_string(), s("Region.ap_northeast_1"));
    attrs.insert("vpc".to_string(), s("my-vpc"));
    attrs.insert("cidr_block".to_string(), s("10.0.1.0/24"));
    attrs.insert("availability_zone".to_string(), s("ap-northeast-1a"));

    assert!(schema.validate(&attrs).is_ok());
}

#[test]
fn ec2_valid_internet_gateway() {
    let schema = internet_gateway_schema();
    let mut attrs = ValueMap::new();
    attrs.insert("name".to_string(), s("my-igw"));
    attrs.insert("region".to_string(), s("Region.ap_northeast_1"));
    attrs.insert("vpc".to_string(), s("my-vpc"));

    assert!(schema.validate(&attrs).is_ok());
}

#[test]
fn ec2_valid_route_table() {
    let schema = route_table_schema();
    let mut attrs = ValueMap::new();
    attrs.insert("name".to_string(), s("my-rt"));
    attrs.insert("region".to_string(), s("Region.ap_northeast_1"));
    attrs.insert("vpc".to_string(), s("my-vpc"));

    assert!(schema.validate(&attrs).is_ok());
}

#[test]
fn ec2_valid_security_group() {
    let schema = security_group_schema();
    let mut attrs = ValueMap::new();
    attrs.insert("name".to_string(), s("my-sg"));
    attrs.insert("region".to_string(), s("Region.ap_northeast_1"));
    attrs.insert("vpc".to_string(), s("my-vpc"));
    attrs.insert("description".to_string(), s("My security group"));

    assert!(schema.validate(&attrs).is_ok());
}

#[test]
fn ec2_schemas_are_listed_in_order() {
    let all = schemas();
    let names: Vec<&str> = all.iter().map(|s| s.resource_type.as_str()).collect();
    assert_eq!(
        names,
        vec![
            "vpc",
            "subnet",
            "internet_gateway",
            "route_table",
            "security_group",
            "security_group.ingress_rule",
            "security_group.egress_rule"
        ]
    );
}

#[test]
fn ec2_port_number_bounds() {
    let t = carina::ec2::port_number();
    assert!(t.validate(&Value::Int(0)).is_ok());
    assert!(t.validate(&Value::Int(65535)).is_ok());
    let e = t.validate(&Value::Int(65536)).unwrap_err();
    assert_eq!(e.message(), "Validation failed: Port number must be between 0 and 65535");
}

#[test]
fn ingress_rule_accepts_all_protocols_as_minus_one() {
    let s = carina::aws::vpc::security_group_ingress_rule_schema();
    let mut a = ValueMap::new();
    a.insert("name".to_string(), Value::String("all-in".to_string()));
    a.insert("security_group_id".to_string(), Value::String("sg-1".to_string()));
    a.insert("protocol".to_string(), Value::String("-1".to_string()));
    a.insert("from_port".to_string(), Value::Int(0));
    a.insert("to_port".to_string(), Value::Int(0));
    assert!(s.validate(&a).is_ok());
    let e = carina::aws::vpc::security_group_egress_rule_schema();
    assert!(e.validate(&a).is_ok());
}

#[test]
fn graph_roots_and_leaves() {
    let dep = |t: &str| Dependency { target: t.to_string(), attribute: "id".to_string(), used_in: "x".to_string() };
    let mut g = DependencyGraph::new();
    g.add_edge("a".to_string(), dep("b"));
    g.add_edge("b".to_string(), dep("c"));
    assert_eq!(g.root_resources(), vec!["c".to_string()]);
    assert_eq!(g.leaf_resources(), vec!["a".to_string()]);
}
