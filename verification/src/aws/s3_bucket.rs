//! Types of the `AWS::S3::Bucket` resource: enumerations, constrained
//! strings and configuration records, with their parsing rules.

use vstd::prelude::*;

use crate::text::{chars_of, str_eq, str_to_string};

verus! {

/// Error from a conversion of text into one of these types.
#[derive(Debug, Clone)]
pub struct ConversionError(pub String);

impl ConversionError {
    /// The error's text.
    pub fn message(&self) -> (r: String)
        ensures
            r@ == self.0@,
    {
        self.0.clone()
    }
}

/// The text of a conversion error.
pub open spec fn conversion_text(e: ConversionError) -> Seq<char> {
    e.0@
}

/// Specifies the transfer acceleration status of the bucket.
#[derive(Clone, Copy, Debug, PartialEq, Eq, Structural, Hash, PartialOrd, Ord)]
pub enum AccelerateConfigurationAccelerationStatus {
    Enabled,
    Suspended,
}

/// The status of a lifecycle rule.
#[derive(Clone, Copy, Debug, PartialEq, Eq, Structural, Hash, PartialOrd, Ord)]
pub enum RuleStatus {
    Enabled,
    Disabled,
}

/// The versioning state of the bucket.
#[derive(Clone, Copy, Debug, PartialEq, Eq, Structural, Hash, PartialOrd, Ord)]
pub enum VersioningConfigurationStatus {
    Enabled,
    Suspended,
}

/// The acceleration status named by a text, if any.
pub open spec fn acceleration_status_of(s: Seq<char>) -> Option<AccelerateConfigurationAccelerationStatus> {
    if s == "Enabled"@ {
        Some(AccelerateConfigurationAccelerationStatus::Enabled)
    } else if s == "Suspended"@ {
        Some(AccelerateConfigurationAccelerationStatus::Suspended)
    } else {
        None
    }
}

/// The rule status named by a text, if any.
pub open spec fn rule_status_of(s: Seq<char>) -> Option<RuleStatus> {
    if s == "Enabled"@ {
        Some(RuleStatus::Enabled)
    } else if s == "Disabled"@ {
        Some(RuleStatus::Disabled)
    } else {
        None
    }
}

/// The versioning status named by a text, if any.
pub open spec fn versioning_status_of(s: Seq<char>) -> Option<VersioningConfigurationStatus> {
    if s == "Enabled"@ {
        Some(VersioningConfigurationStatus::Enabled)
    } else if s == "Suspended"@ {
        Some(VersioningConfigurationStatus::Suspended)
    } else {
        None
    }
}

/// The error of a text that names no variant.
pub open spec fn invalid_value(e: ConversionError) -> bool {
    e.0@ == "invalid value"@
}

fn invalid_value_error() -> (r: ConversionError)
    ensures
        invalid_value(r),
{
    ConversionError(str_to_string("invalid value"))
}

impl AccelerateConfigurationAccelerationStatus {
    /// The variant with the given name.
    pub fn from_text(value: &str) -> (r: Result<Self, ConversionError>)
        ensures
            match acceleration_status_of(value@) {
                Some(s) => r == Ok::<Self, ConversionError>(s),
                None => r matches Err(e) && invalid_value(e),
            },
    {
        if str_eq(value, "Enabled") {
            Ok(AccelerateConfigurationAccelerationStatus::Enabled)
        } else if str_eq(value, "Suspended") {
            Ok(AccelerateConfigurationAccelerationStatus::Suspended)
        } else {
            Err(invalid_value_error())
        }
    }

    /// The variant's name.
    pub fn text(&self) -> (r: String)
        ensures
            acceleration_status_of(r@) == Some(*self),
    {
        proof {
            reveal_strlit("Enabled");
            reveal_strlit("Suspended");
            assert("Enabled"@.len() == 7 && "Suspended"@.len() == 9);
        }
        match self {
            AccelerateConfigurationAccelerationStatus::Enabled => str_to_string("Enabled"),
            AccelerateConfigurationAccelerationStatus::Suspended => str_to_string("Suspended"),
        }
    }
}

impl RuleStatus {
    /// The variant with the given name.
    pub fn from_text(value: &str) -> (r: Result<Self, ConversionError>)
        ensures
            match rule_status_of(value@) {
                Some(s) => r == Ok::<Self, ConversionError>(s),
                None => r matches Err(e) && invalid_value(e),
            },
    {
        if str_eq(value, "Enabled") {
            Ok(RuleStatus::Enabled)
        } else if str_eq(value, "Disabled") {
            Ok(RuleStatus::Disabled)
        } else {
            Err(invalid_value_error())
        }
    }

    /// The variant's name.
    pub fn text(&self) -> (r: String)
        ensures
            rule_status_of(r@) == Some(*self),
    {
        proof {
            reveal_strlit("Enabled");
            reveal_strlit("Disabled");
            assert("Enabled"@.len() == 7 && "Disabled"@.len() == 8);
        }
        match self {
            RuleStatus::Enabled => str_to_string("Enabled"),
            RuleStatus::Disabled => str_to_string("Disabled"),
        }
    }
}

impl VersioningConfigurationStatus {
    /// The variant with the given name.
    pub fn from_text(value: &str) -> (r: Result<Self, ConversionError>)
        ensures
            match versioning_status_of(value@) {
                Some(s) => r == Ok::<Self, ConversionError>(s),
                None => r matches Err(e) && invalid_value(e),
            },
    {
        if str_eq(value, "Enabled") {
            Ok(VersioningConfigurationStatus::Enabled)
        } else if str_eq(value, "Suspended") {
            Ok(VersioningConfigurationStatus::Suspended)
        } else {
            Err(invalid_value_error())
        }
    }

    /// The variant's name.
    pub fn text(&self) -> (r: String)
        ensures
            versioning_status_of(r@) == Some(*self),
    {
        proof {
            reveal_strlit("Enabled");
            reveal_strlit("Suspended");
            assert("Enabled"@.len() == 7 && "Suspended"@.len() == 9);
        }
        match self {
            VersioningConfigurationStatus::Enabled => str_to_string("Enabled"),
            VersioningConfigurationStatus::Suspended => str_to_string("Suspended"),
        }
    }
}

/// A tag key: between 1 and 128 characters.
#[derive(Clone, Debug)]
pub struct TagKey(String);

/// A tag value: at most 256 characters.
#[derive(Clone, Debug)]
pub struct TagValue(String);

impl View for TagKey {
    type V = Seq<char>;

    closed spec fn view(&self) -> Seq<char> {
        self.0@
    }
}

impl View for TagValue {
    type V = Seq<char>;

    closed spec fn view(&self) -> Seq<char> {
        self.0@
    }
}

impl TagKey {
    /// Whether the key meets its length bounds.
    pub open spec fn wf(&self) -> bool {
        1 <= self@.len() <= 128
    }

    /// A tag key holding the text, if the text has between 1 and 128 characters.
    pub fn from_text(value: &str) -> (r: Result<Self, ConversionError>)
        ensures
            match r {
                Ok(k) => 1 <= value@.len() <= 128 && k@ == value@ && k.wf(),
                Err(e) => if value@.len() > 128 {
                    e.0@ == "longer than 128 characters"@
                } else {
                    value@.len() < 1 && e.0@ == "shorter than 1 characters"@
                },
            },
    {
        let n = chars_of(value).len();
        if n > 128 {
            return Err(ConversionError(str_to_string("longer than 128 characters")));
        }
        if n < 1 {
            return Err(ConversionError(str_to_string("shorter than 1 characters")));
        }
        Ok(TagKey(str_to_string(value)))
    }

    /// The key's text.
    pub fn as_str(&self) -> (r: &str)
        ensures
            r@ == self@,
    {
        self.0.as_str()
    }
}

impl TagValue {
    /// Whether the value meets its length bound.
    pub open spec fn wf(&self) -> bool {
        self@.len() <= 256
    }

    /// A tag value holding the text, if the text has at most 256 characters.
    pub fn from_text(value: &str) -> (r: Result<Self, ConversionError>)
        ensures
            match r {
                Ok(v) => value@.len() <= 256 && v@ == value@ && v.wf(),
                Err(e) => value@.len() > 256 && e.0@ == "longer than 256 characters"@,
            },
    {
        let n = chars_of(value).len();
        if n > 256 {
            return Err(ConversionError(str_to_string("longer than 256 characters")));
        }
        Ok(TagValue(str_to_string(value)))
    }

    /// The value's text.
    pub fn as_str(&self) -> (r: &str)
        ensures
            r@ == self@,
    {
        self.0.as_str()
    }
}


/// Configures the transfer acceleration state for an Amazon S3 bucket.
#[derive(Clone, Debug)]
pub struct AccelerateConfiguration {
    /// Specifies the transfer acceleration status of the bucket.
    pub acceleration_status: AccelerateConfigurationAccelerationStatus,
}

impl AccelerateConfiguration {
    pub fn builder() -> (r: crate::aws::builder::AccelerateConfiguration)
        ensures
            r.acceleration_status_state() == Err::<AccelerateConfigurationAccelerationStatus, Seq<char>>(
                "no value supplied for acceleration_status"@,
            ),
    {
        crate::aws::builder::AccelerateConfiguration::default()
    }
}

/// Specifies the lifecycle configuration for objects in an Amazon S3 bucket.
#[derive(Clone, Debug)]
pub struct LifecycleConfiguration {
    /// A lifecycle rule for individual objects in an Amazon S3 bucket.
    pub rules: Vec<Rule>,
}

impl LifecycleConfiguration {
    pub fn builder() -> (r: crate::aws::builder::LifecycleConfiguration)
        ensures
            r.rules_state() == Err::<Seq<Rule>, Seq<char>>("no value supplied for rules"@),
    {
        crate::aws::builder::LifecycleConfiguration::default()
    }
}

/// Configuration that defines how Amazon S3 handles public access.
#[derive(Clone, Copy, Debug)]
pub struct PublicAccessBlockConfiguration {
    /// Whether Amazon S3 should block public access control lists (ACLs) for this bucket.
    pub block_public_acls: Option<bool>,
    /// Whether Amazon S3 should block public bucket policies for this bucket.
    pub block_public_policy: Option<bool>,
    /// Whether Amazon S3 should ignore public ACLs for this bucket.
    pub ignore_public_acls: Option<bool>,
    /// Whether Amazon S3 should restrict public bucket policies for this bucket.
    pub restrict_public_buckets: Option<bool>,
}

impl Default for PublicAccessBlockConfiguration {
    fn default() -> (r: Self)
        ensures
            r.block_public_acls is None,
            r.block_public_policy is None,
            r.ignore_public_acls is None,
            r.restrict_public_buckets is None,
    {
        PublicAccessBlockConfiguration {
            block_public_acls: None,
            block_public_policy: None,
            ignore_public_acls: None,
            restrict_public_buckets: None,
        }
    }
}

impl PublicAccessBlockConfiguration {
    pub fn builder() -> (r: crate::aws::builder::PublicAccessBlockConfiguration)
        ensures
            r.state() == (None::<bool>, None::<bool>, None::<bool>, None::<bool>),
    {
        crate::aws::builder::PublicAccessBlockConfiguration::default()
    }
}

/// A lifecycle rule for individual objects in an Amazon S3 bucket.
#[derive(Clone, Debug)]
pub struct Rule {
    /// Indicates the number of days after creation when objects are deleted
    /// (never zero).
    pub expiration_in_days: Option<u64>,
    /// Unique identifier for the rule.
    pub id: Option<String>,
    /// Object key prefix that identifies one or more objects to which this rule applies.
    pub prefix: Option<String>,
    /// If `Enabled`, the rule is currently being applied.
    pub status: RuleStatus,
}

impl Rule {
    /// Whether the expiration, when there is one, is a positive number of days.
    pub open spec fn wf(&self) -> bool {
        !(self.expiration_in_days matches Some(n) && n == 0)
    }

    pub fn builder() -> (r: crate::aws::builder::Rule)
        ensures
            r.expiration_in_days_state() == Ok::<Option<u64>, Seq<char>>(None),
            r.id_state() == Ok::<Option<Seq<char>>, Seq<char>>(None),
            r.prefix_state() == Ok::<Option<Seq<char>>, Seq<char>>(None),
            r.status_state() == Err::<RuleStatus, Seq<char>>("no value supplied for status"@),
    {
        crate::aws::builder::Rule::default()
    }
}

/// A container of a key value name pair.
#[derive(Clone, Debug)]
pub struct Tag {
    /// Name of the object key.
    pub key: TagKey,
    /// Value of the tag.
    pub value: TagValue,
}

impl Tag {
    pub fn builder() -> (r: crate::aws::builder::Tag)
        ensures
            r.key_state() == Err::<Seq<char>, Seq<char>>("no value supplied for key"@),
            r.value_state() == Err::<Seq<char>, Seq<char>>("no value supplied for value"@),
    {
        crate::aws::builder::Tag::default()
    }
}

/// Describes the versioning state of an Amazon S3 bucket.
#[derive(Clone, Copy, Debug)]
pub struct VersioningConfiguration {
    /// The versioning state of the bucket.
    pub status: VersioningConfigurationStatus,
}

impl VersioningConfiguration {
    pub fn builder() -> (r: crate::aws::builder::VersioningConfiguration)
        ensures
            r.status_state() == Err::<VersioningConfigurationStatus, Seq<char>>("no value supplied for status"@),
    {
        crate::aws::builder::VersioningConfiguration::default()
    }
}

} // verus!
