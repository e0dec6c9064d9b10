use carina::aws::s3::bucket_schema;
use carina::aws::types::{aws_region, normalize_versioning_status, versioning_status};
use carina::aws::vpc::{
    internet_gateway_schema, route_table_schema, security_group_schema, subnet_schema, vpc_schema,
};
use carina::resource::{Value, ValueMap};
use carina::schema::cidr;

fn s(v: &str) -> Value {
    Value::String(v.to_string())
}

#[test]
fn vpc_valid_cidr_block() {
    let t = cidr();
    assert!(t.validate(&s("10.0.0.0/16")).is_ok());
    assert!(t.validate(&s("192.168.1.0/24")).is_ok());
    assert!(t.validate(&s("0.0.0.0/0")).is_ok());
}

#[test]
fn vpc_invalid_cidr_block() {
    let t = cidr();
    assert!(t.validate(&s("10.0.0.0")).is_err()); // missing prefix
    assert!(t.validate(&s("10.0.0/16")).is_err()); // invalid IP
    assert!(t.validate(&s("10.0.0.0/33")).is_err()); // prefix too large
}

#[test]
fn vpc_valid_vpc() {
    let schema = vpc_schema();
    let mut attrs = ValueMap::new();
    attrs.insert("name".to_string(), s("my-vpc"));
    attrs.insert("region".to_string(), s("Region.ap_northeast_1"));
    attrs.insert("cidr_block".to_string(), s("10.0.0.0/16"));
    attrs.insert("enable_dns_support".to_string(), Value::Bool(true));
    attrs.insert("enable_dns_hostnames".to_string(), Value::Bool(true));

    assert!(schema.validate(&attrs).is_ok());
}

#[test]
fn vpc_missing_required_cidr_block() {
    let schema = vpc_schema();
    let mut attrs = ValueMap::new();
    attrs.insert("name".to_string(), s("my-vpc"));
    // missing cidr_block (region is optional, inherited from provider)

    let result = schema.validate(&attrs);
    assert!(result.is_err());
}

#[test]
fn vpc_valid_subnet() {
    let schema = subnet_schema();
    let mut attrs = ValueMap::new();
    attrs.insert("name".to_string(), s("my-subnet"));
    attrs.insert("region".to_string(), s("Region.ap_northeast_1"));
    attrs.insert("vpc_id".to_string(), s("vpc-12345678"));
    attrs.insert("cidr_block".to_string(), s("10.0.1.0/24"));
    attrs.insert("availability_zone".to_string(), s("aws.AvailabilityZone.ap_northeast_1a"));

    assert!(schema.validate(&attrs).is_ok());
}

#[test]
fn vpc_valid_internet_gateway() {
    let schema = internet_gateway_schema();
    let mut attrs = ValueMap::new();
    attrs.insert("name".to_string(), s("my-igw"));
    attrs.insert("region".to_string(), s("Region.ap_northeast_1"));
    attrs.insert("vpc_id".to_string(), s("vpc-12345678"));

    assert!(schema.validate(&attrs).is_ok());
}

#[test]
fn vpc_valid_route_table() {
    let schema = route_table_schema();
    let mut attrs = ValueMap::new();
    attrs.insert("name".to_string(), s("my-rt"));
    attrs.insert("region".to_string(), s("Region.ap_northeast_1"));
    attrs.insert("vpc_id".to_string(), s("vpc-12345678"));

    assert!(schema.validate(&attrs).is_ok());
}

#[test]
fn vpc_valid_security_group() {
    let schema = security_group_schema();
    let mut attrs = ValueMap::new();
    attrs.insert("name".to_string(), s("my-sg"));
    attrs.insert("region".to_string(), s("Region.ap_northeast_1"));
    attrs.insert("vpc_id".to_string(), s("vpc-12345678"));
    attrs.insert("description".to_string(), s("My security group"));

    assert!(schema.validate(&attrs).is_ok());
}

#[test]
fn valid_bucket() {
    let schema = bucket_schema();
    let mut attrs = ValueMap::new();
    attrs.insert("region".to_string(), s("Region.ap_northeast_1"));
    attrs.insert("versioning".to_string(), Value::Bool(true));

    assert!(schema.validate(&attrs).is_ok());
}

#[test]
fn valid_bucket_with_optional_name() {
    let schema = bucket_schema();
    let mut attrs = ValueMap::new();
    attrs.insert("name".to_string(), s("my-bucket"));
    attrs.insert("region".to_string(), s("Region.ap_northeast_1"));

    assert!(schema.validate(&attrs).is_ok());
}

#[test]
fn invalid_bucket_name() {
    let schema = bucket_schema();
    let mut attrs = ValueMap::new();
    attrs.insert("name".to_string(), s("ab")); // too short
    attrs.insert("region".to_string(), s("Region.ap_northeast_1"));

    assert!(schema.validate(&attrs).is_err());
}

#[test]
fn invalid_region() {
    let schema = bucket_schema();
    let mut attrs = ValueMap::new();
    attrs.insert("region".to_string(), s("Region.invalid_region"));

    assert!(schema.validate(&attrs).is_err());
}

#[test]
fn region_is_optional() {
    let schema = bucket_schema();
    let attrs = ValueMap::new();

    // Region is no longer required (inherited from provider)
    let result = schema.validate(&attrs);
    assert!(result.is_ok());
}

#[test]
fn invalid_expiration_days() {
    let schema = bucket_schema();
    let mut attrs = ValueMap::new();
    attrs.insert("region".to_string(), s("Region.ap_northeast_1"));
    attrs.insert("expiration_days".to_string(), Value::Int(-1)); // negative

    assert!(schema.validate(&attrs).is_err());
}

#[test]
fn region_accepts_aws_format() {
    let region_type = aws_region();
    assert!(region_type.validate(&s("ap-northeast-1")).is_ok());
}

#[test]
fn region_accepts_dsl_format() {
    let region_type = aws_region();
    assert!(region_type.validate(&s("aws.Region.ap_northeast_1")).is_ok());
}

#[test]
fn region_accepts_dsl_format_without_aws_prefix() {
    let region_type = aws_region();
    assert!(region_type.validate(&s("Region.ap_northeast_1")).is_ok());
}

#[test]
fn region_rejects_invalid_region() {
    let region_type = aws_region();
    let result = region_type.validate(&s("invalid-region"));
    assert!(result.is_err());
    let err = result.unwrap_err().message();
    assert!(err.contains("Invalid region"));
    assert!(err.contains("ap-northeast-1")); // Should suggest valid regions
}

#[test]
fn region_rejects_availability_zone() {
    let region_type = aws_region();
    // ap-northeast-1a is an AZ, not a region
    assert!(region_type.validate(&s("ap-northeast-1a")).is_err());
}

#[test]
fn region_validates_all_valid_regions() {
    let region_type = aws_region();
    let regions = [
        "ap-northeast-1",
        "ap-northeast-2",
        "ap-northeast-3",
        "ap-southeast-1",
        "ap-southeast-2",
        "ap-south-1",
        "us-east-1",
        "us-east-2",
        "us-west-1",
        "us-west-2",
        "eu-west-1",
        "eu-west-2",
        "eu-west-3",
        "eu-central-1",
        "eu-north-1",
        "sa-east-1",
        "ca-central-1",
    ];
    for region in regions {
        assert!(
            region_type.validate(&s(region)).is_ok(),
            "Region {} should be valid",
            region
        );
    }
}

#[test]
fn versioning_accepts_dsl_format_enabled() {
    let versioning = versioning_status();
    assert!(versioning.validate(&s("aws.s3.VersioningStatus.Enabled")).is_ok());
}

#[test]
fn versioning_accepts_dsl_format_suspended() {
    let versioning = versioning_status();
    assert!(versioning.validate(&s("aws.s3.VersioningStatus.Suspended")).is_ok());
}

#[test]
fn versioning_accepts_string_enabled() {
    let versioning = versioning_status();
    assert!(versioning.validate(&s("Enabled")).is_ok());
}

#[test]
fn versioning_accepts_string_suspended() {
    let versioning = versioning_status();
    assert!(versioning.validate(&s("Suspended")).is_ok());
}

#[test]
fn versioning_rejects_lowercase() {
    let versioning = versioning_status();
    assert!(versioning.validate(&s("enabled")).is_err());
}

#[test]
fn versioning_rejects_bool() {
    let versioning = versioning_status();
    assert!(versioning.validate(&Value::Bool(true)).is_err());
    assert!(versioning.validate(&Value::Bool(false)).is_err());
}

#[test]
fn versioning_rejects_disabled() {
    let versioning = versioning_status();
    assert!(versioning.validate(&s("Disabled")).is_err());
}

#[test]
fn versioning_rejects_wrong_namespace() {
    let versioning = versioning_status();
    // Typo: aws.s.VersioningStatus instead of aws.s3.VersioningStatus
    assert!(versioning.validate(&s("aws.s.VersioningStatus.Enabled")).is_err());
    // Wrong provider
    assert!(versioning.validate(&s("awscc.s3.VersioningStatus.Enabled")).is_err());
    // Wrong type name
    assert!(versioning.validate(&s("aws.s3.Versioning.Enabled")).is_err());
}

#[test]
fn normalize_versioning_status_dsl_format() {
    assert_eq!(normalize_versioning_status("aws.s3.VersioningStatus.Enabled"), "Enabled");
    assert_eq!(normalize_versioning_status("aws.s3.VersioningStatus.Suspended"), "Suspended");
}

#[test]
fn normalize_versioning_status_string_format() {
    assert_eq!(normalize_versioning_status("Enabled"), "Enabled");
    assert_eq!(normalize_versioning_status("Suspended"), "Suspended");
}

#[test]
fn all_schemas_hold_bucket_then_vpc_schemas() {
    let all = carina::aws::all_schemas();
    assert_eq!(all.len(), 9);
    assert_eq!(all[0].resource_type, "s3.bucket");
    assert_eq!(all[1].resource_type, "vpc");
    assert_eq!(all[8].resource_type, "security_group.egress_rule");
}
