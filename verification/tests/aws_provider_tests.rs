use carina::aws::provider::{
    convert_enum_value, convert_protocol_value, matching_rules, security_group_rule_request,
    security_group_rule_state, RuleInfo, RuleRequestError, S3BucketType, SecurityGroupIngressRuleType,
    VpcType,
};
use carina::resource::{Resource, Value};

#[test]
fn test_convert_enum_value() {
    // Region
    assert_eq!(convert_enum_value("aws.Region.ap_northeast_1"), "ap-northeast-1");
    assert_eq!(convert_enum_value("aws.Region.us_east_1"), "us-east-1");
    // AvailabilityZone
    assert_eq!(convert_enum_value("aws.AvailabilityZone.ap_northeast_1a"), "ap-northeast-1a");
    assert_eq!(convert_enum_value("aws.AvailabilityZone.us_east_1b"), "us-east-1b");
    // TypeName.value pattern
    assert_eq!(convert_enum_value("Region.ap_northeast_1"), "ap-northeast-1");
    // Already in AWS format (no conversion needed)
    assert_eq!(convert_enum_value("eu-west-1"), "eu-west-1");
    assert_eq!(convert_enum_value("ap-northeast-1a"), "ap-northeast-1a");
}

#[test]
fn test_s3_bucket_type_name() {
    let bucket_type = S3BucketType;
    assert_eq!(bucket_type.name(), "s3.bucket");
}

#[test]
fn other_type_names_and_conversions() {
    assert_eq!(VpcType.name(), "vpc");
    assert_eq!(SecurityGroupIngressRuleType.name(), "security_group.ingress_rule");
    assert_eq!(convert_enum_value("Aws.Region.x_y"), "Aws.Region.x_y");
    assert_eq!(convert_enum_value("a.b.c.d"), "a.b.c.d");
    assert_eq!(convert_protocol_value("aws.Protocol.all"), "-1");
    assert_eq!(convert_protocol_value("Protocol.tcp"), "tcp");
    assert_eq!(convert_protocol_value("all"), "-1");
    assert_eq!(convert_protocol_value("-1"), "-1");
}

#[test]
fn rule_requests_take_defaults_and_report_missing_fields() {
    let r = Resource::new("security_group.ingress_rule", "web")
        .with_attribute("name", Value::String("web".to_string()))
        .with_attribute("security_group_id", Value::String("sg-1".to_string()))
        .with_attribute("protocol", Value::String("aws.Protocol.tcp".to_string()))
        .with_attribute("from_port", Value::Int(80))
        .with_attribute("cidr", Value::String("10.0.0.0/8".to_string()));
    let req = security_group_rule_request(&r).unwrap();
    assert_eq!(req.name, "web");
    assert_eq!(req.group_id, "sg-1");
    assert_eq!(req.protocol, "tcp");
    assert_eq!((req.from_port, req.to_port), (80, 0));
    assert_eq!(req.cidrs, vec!["10.0.0.0/8".to_string()]);

    let r = Resource::new("security_group.egress_rule", "out")
        .with_attribute("name", Value::String("out".to_string()))
        .with_attribute("security_group_id", Value::String("sg-2".to_string()))
        .with_attribute(
            "cidr_blocks",
            Value::List(vec![Value::String("1.0.0.0/8".to_string()), Value::Int(3), Value::String("2.0.0.0/8".to_string())]),
        );
    let req = security_group_rule_request(&r).unwrap();
    assert_eq!(req.protocol, "-1");
    assert_eq!(req.cidrs, vec!["1.0.0.0/8".to_string(), "2.0.0.0/8".to_string()]);

    let r = Resource::new("security_group.egress_rule", "x").with_attribute("name", Value::String("x".to_string()));
    assert!(matches!(security_group_rule_request(&r), Err(RuleRequestError::GroupIdRequired)));
    let e = security_group_rule_request(&Resource::new("security_group.egress_rule", "x")).unwrap_err();
    assert_eq!(e, RuleRequestError::NameRequired);
    assert_eq!(e.message(), "Rule name is required");
}

fn rule(id: &str, egress: bool, cidr: &str) -> RuleInfo {
    RuleInfo {
        rule_id: Some(id.to_string()),
        group_id: Some("sg-1".to_string()),
        ip_protocol: Some("tcp".to_string()),
        from_port: Some(443),
        to_port: Some(443),
        cidr_ipv4: Some(cidr.to_string()),
        is_egress: Some(egress),
    }
}

#[test]
fn rule_state_aggregates_the_rules_of_one_direction() {
    let all = vec![rule("r1", false, "1.0.0.0/8"), rule("r2", true, "9.0.0.0/8"), rule("r3", false, "2.0.0.0/8")];
    let ingress = matching_rules(all, true);
    assert_eq!(ingress.len(), 2);
    let state = security_group_rule_state("web", true, "ap-northeast-1", &ingress);
    assert!(state.exists);
    assert_eq!(state.id.resource_type, "security_group.ingress_rule");
    let keys: Vec<String> = state.attributes.keys();
    assert_eq!(
        keys,
        vec!["name", "region", "id", "security_group_id", "protocol", "from_port", "to_port", "cidr_blocks"]
    );
    assert_eq!(state.attributes.get("region"), Some(&Value::String("aws.Region.ap_northeast_1".to_string())));
    assert_eq!(state.attributes.get("id"), Some(&Value::String("r1,r3".to_string())));
    assert_eq!(state.attributes.get("from_port"), Some(&Value::Int(443)));
    assert_eq!(
        state.attributes.get("cidr_blocks"),
        Some(&Value::List(vec![Value::String("1.0.0.0/8".to_string()), Value::String("2.0.0.0/8".to_string())]))
    );

    let none = security_group_rule_state("web", false, "us-east-1", &vec![]);
    assert!(!none.exists);
    assert_eq!(none.id.resource_type, "security_group.egress_rule");
}
