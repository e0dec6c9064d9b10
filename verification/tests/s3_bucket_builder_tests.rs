use carina::aws::s3_bucket::{
    AccelerateConfiguration, AccelerateConfigurationAccelerationStatus, LifecycleConfiguration,
    PublicAccessBlockConfiguration, Rule, RuleStatus, Tag, TagKey, TagValue, VersioningConfiguration,
    VersioningConfigurationStatus,
};

#[test]
fn accelerate_builder_requires_status() {
    let e = AccelerateConfiguration::builder().build().unwrap_err();
    assert_eq!(e.message(), "no value supplied for acceleration_status");
    let c = AccelerateConfiguration::builder()
        .acceleration_status(AccelerateConfigurationAccelerationStatus::Enabled)
        .build()
        .unwrap();
    assert_eq!(c.acceleration_status, AccelerateConfigurationAccelerationStatus::Enabled);
}

#[test]
fn rule_builder_fills_fields() {
    let e = Rule::builder().build().unwrap_err();
    assert_eq!(e.message(), "no value supplied for status");
    let r = Rule::builder()
        .expiration_in_days(Some(30))
        .id(Some("expire".to_string()))
        .status(RuleStatus::Disabled)
        .build()
        .unwrap();
    assert_eq!(r.expiration_in_days, Some(30));
    assert_eq!(r.id.as_deref(), Some("expire"));
    assert_eq!(r.prefix, None);
    assert_eq!(r.status, RuleStatus::Disabled);
    let l = LifecycleConfiguration::builder().rules(vec![r]).build().unwrap();
    assert_eq!(l.rules.len(), 1);
    assert_eq!(
        LifecycleConfiguration::builder().build().unwrap_err().message(),
        "no value supplied for rules"
    );
}

#[test]
fn public_access_block_builder_defaults_to_unset() {
    let c = PublicAccessBlockConfiguration::builder().build().unwrap();
    assert_eq!(c.block_public_acls, None);
    let c = PublicAccessBlockConfiguration::builder()
        .block_public_acls(Some(true))
        .restrict_public_buckets(Some(false))
        .build()
        .unwrap();
    assert_eq!(c.block_public_acls, Some(true));
    assert_eq!(c.block_public_policy, None);
    assert_eq!(c.ignore_public_acls, None);
    assert_eq!(c.restrict_public_buckets, Some(false));
}

#[test]
fn tag_builder_reports_first_missing_field() {
    assert_eq!(Tag::builder().build().unwrap_err().message(), "no value supplied for key");
    let k = TagKey::from_text("env").unwrap();
    assert_eq!(Tag::builder().key(k).build().unwrap_err().message(), "no value supplied for value");
    let t = Tag::builder()
        .key(TagKey::from_text("env").unwrap())
        .value(TagValue::from_text("prod").unwrap())
        .build()
        .unwrap();
    assert_eq!(t.key.as_str(), "env");
    assert_eq!(t.value.as_str(), "prod");
}

#[test]
fn versioning_builder() {
    let v = VersioningConfiguration::builder()
        .status(VersioningConfigurationStatus::Suspended)
        .build()
        .unwrap();
    assert_eq!(v.status, VersioningConfigurationStatus::Suspended);
}
