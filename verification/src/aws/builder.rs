//! Builders for the configuration records of the `AWS::S3::Bucket`
//! resource: each field starts out unset (or empty, where it may be left
//! out), setters fill fields in, and `build` makes the record or names the
//! first field that was never set.

use vstd::prelude::*;

use crate::aws::s3_bucket::{
    AccelerateConfigurationAccelerationStatus, ConversionError, RuleStatus, TagKey, TagValue,
    VersioningConfigurationStatus,
};
use crate::resource::opt_str_view;
use crate::text::str_to_string;

verus! {

/// The model of a field that holds a value or the message of why it does not.
pub open spec fn field_state<T>(f: Result<T, String>) -> Result<T, Seq<char>> {
    match f {
        Ok(v) => Ok(v),
        Err(m) => Err(m@),
    }
}

/// Builder for [`crate::aws::s3_bucket::AccelerateConfiguration`].
#[derive(Debug)]
pub struct AccelerateConfiguration {
    acceleration_status: Result<AccelerateConfigurationAccelerationStatus, String>,
}

impl Default for AccelerateConfiguration {
    fn default() -> (r: Self)
        ensures
            r.acceleration_status_state() == Err::<AccelerateConfigurationAccelerationStatus, Seq<char>>(
                "no value supplied for acceleration_status"@,
            ),
    {
        AccelerateConfiguration { acceleration_status: Err(str_to_string("no value supplied for acceleration_status")) }
    }
}

impl AccelerateConfiguration {
    pub closed spec fn acceleration_status_state(&self) -> Result<AccelerateConfigurationAccelerationStatus, Seq<char>> {
        field_state(self.acceleration_status)
    }

    pub fn acceleration_status(self, value: AccelerateConfigurationAccelerationStatus) -> (r: Self)
        ensures
            r.acceleration_status_state() == Ok::<AccelerateConfigurationAccelerationStatus, Seq<char>>(value),
    {
        AccelerateConfiguration { acceleration_status: Ok(value) }
    }

    /// The record, or the message of the field that was never set.
    pub fn build(self) -> (r: Result<crate::aws::s3_bucket::AccelerateConfiguration, ConversionError>)
        ensures
            match self.acceleration_status_state() {
                Ok(s) => r matches Ok(c) && c.acceleration_status == s,
                Err(m) => r matches Err(e) && e.0@ == m,
            },
    {
        match self.acceleration_status {
            Ok(s) => Ok(crate::aws::s3_bucket::AccelerateConfiguration { acceleration_status: s }),
            Err(m) => Err(ConversionError(m)),
        }
    }
}

/// Builder for [`crate::aws::s3_bucket::LifecycleConfiguration`].
#[derive(Debug)]
pub struct LifecycleConfiguration {
    rules: Result<Vec<crate::aws::s3_bucket::Rule>, String>,
}

impl Default for LifecycleConfiguration {
    fn default() -> (r: Self)
        ensures
            r.rules_state() == Err::<Seq<crate::aws::s3_bucket::Rule>, Seq<char>>("no value supplied for rules"@),
    {
        LifecycleConfiguration { rules: Err(str_to_string("no value supplied for rules")) }
    }
}

impl LifecycleConfiguration {
    pub closed spec fn rules_state(&self) -> Result<Seq<crate::aws::s3_bucket::Rule>, Seq<char>> {
        match self.rules {
            Ok(v) => Ok(v@),
            Err(m) => Err(m@),
        }
    }

    pub fn rules(self, value: Vec<crate::aws::s3_bucket::Rule>) -> (r: Self)
        ensures
            r.rules_state() == Ok::<Seq<crate::aws::s3_bucket::Rule>, Seq<char>>(value@),
    {
        LifecycleConfiguration { rules: Ok(value) }
    }

    /// The record, or the message of the field that was never set.
    pub fn build(self) -> (r: Result<crate::aws::s3_bucket::LifecycleConfiguration, ConversionError>)
        ensures
            match self.rules_state() {
                Ok(s) => r matches Ok(c) && c.rules@ == s,
                Err(m) => r matches Err(e) && e.0@ == m,
            },
    {
        match self.rules {
            Ok(s) => Ok(crate::aws::s3_bucket::LifecycleConfiguration { rules: s }),
            Err(m) => Err(ConversionError(m)),
        }
    }
}

/// Builder for [`crate::aws::s3_bucket::PublicAccessBlockConfiguration`].
#[derive(Clone, Copy, Debug)]
pub struct PublicAccessBlockConfiguration {
    block_public_acls: Option<bool>,
    block_public_policy: Option<bool>,
    ignore_public_acls: Option<bool>,
    restrict_public_buckets: Option<bool>,
}

impl Default for PublicAccessBlockConfiguration {
    fn default() -> (r: Self)
        ensures
            r.state() == (None::<bool>, None::<bool>, None::<bool>, None::<bool>),
    {
        PublicAccessBlockConfiguration {
            block_public_acls: None,
            block_public_policy: None,
            ignore_public_acls: None,
            restrict_public_buckets: None,
        }
    }
}

impl PublicAccessBlockConfiguration {
    /// The four settings, in declaration order.
    pub closed spec fn state(&self) -> (Option<bool>, Option<bool>, Option<bool>, Option<bool>) {
        (self.block_public_acls, self.block_public_policy, self.ignore_public_acls, self.restrict_public_buckets)
    }

    pub fn block_public_acls(self, value: Option<bool>) -> (r: Self)
        ensures
            r.state() == (value, self.state().1, self.state().2, self.state().3),
    {
        PublicAccessBlockConfiguration { block_public_acls: value, ..self }
    }

    pub fn block_public_policy(self, value: Option<bool>) -> (r: Self)
        ensures
            r.state() == (self.state().0, value, self.state().2, self.state().3),
    {
        PublicAccessBlockConfiguration { block_public_policy: value, ..self }
    }

    pub fn ignore_public_acls(self, value: Option<bool>) -> (r: Self)
        ensures
            r.state() == (self.state().0, self.state().1, value, self.state().3),
    {
        PublicAccessBlockConfiguration { ignore_public_acls: value, ..self }
    }

    pub fn restrict_public_buckets(self, value: Option<bool>) -> (r: Self)
        ensures
            r.state() == (self.state().0, self.state().1, self.state().2, value),
    {
        PublicAccessBlockConfiguration { restrict_public_buckets: value, ..self }
    }

    /// The record (every field may be left out).
    pub fn build(self) -> (r: Result<crate::aws::s3_bucket::PublicAccessBlockConfiguration, ConversionError>)
        ensures
            r matches Ok(c) && (c.block_public_acls, c.block_public_policy, c.ignore_public_acls, c.restrict_public_buckets)
                == self.state(),
    {
        Ok(
            crate::aws::s3_bucket::PublicAccessBlockConfiguration {
                block_public_acls: self.block_public_acls,
                block_public_policy: self.block_public_policy,
                ignore_public_acls: self.ignore_public_acls,
                restrict_public_buckets: self.restrict_public_buckets,
            },
        )
    }
}

/// Builder for [`crate::aws::s3_bucket::Rule`].
#[derive(Debug)]
pub struct Rule {
    expiration_in_days: Result<Option<u64>, String>,
    id: Result<Option<String>, String>,
    prefix: Result<Option<String>, String>,
    status: Result<RuleStatus, String>,
}

/// The model of an optional text field.
pub open spec fn opt_text_state(f: Result<Option<String>, String>) -> Result<Option<Seq<char>>, Seq<char>> {
    match f {
        Ok(v) => Ok(opt_str_view(v)),
        Err(m) => Err(m@),
    }
}

impl Default for Rule {
    fn default() -> (r: Self)
        ensures
            r.expiration_in_days_state() == Ok::<Option<u64>, Seq<char>>(None),
            r.id_state() == Ok::<Option<Seq<char>>, Seq<char>>(None),
            r.prefix_state() == Ok::<Option<Seq<char>>, Seq<char>>(None),
            r.status_state() == Err::<RuleStatus, Seq<char>>("no value supplied for status"@),
    {
        Rule { expiration_in_days: Ok(None), id: Ok(None), prefix: Ok(None), status: Err(str_to_string("no value supplied for status")) }
    }
}

impl Rule {
    pub closed spec fn expiration_in_days_state(&self) -> Result<Option<u64>, Seq<char>> {
        field_state(self.expiration_in_days)
    }

    pub closed spec fn id_state(&self) -> Result<Option<Seq<char>>, Seq<char>> {
        opt_text_state(self.id)
    }

    pub closed spec fn prefix_state(&self) -> Result<Option<Seq<char>>, Seq<char>> {
        opt_text_state(self.prefix)
    }

    pub closed spec fn status_state(&self) -> Result<RuleStatus, Seq<char>> {
        field_state(self.status)
    }

    /// Sets the number of days after creation when objects are deleted
    /// (never zero).
    pub fn expiration_in_days(self, value: Option<u64>) -> (r: Self)
        requires
            !(value matches Some(n) && n == 0),
        ensures
            r.expiration_in_days_state() == Ok::<Option<u64>, Seq<char>>(value),
            r.id_state() == self.id_state(),
            r.prefix_state() == self.prefix_state(),
            r.status_state() == self.status_state(),
    {
        Rule { expiration_in_days: Ok(value), ..self }
    }

    pub fn id(self, value: Option<String>) -> (r: Self)
        ensures
            r.expiration_in_days_state() == self.expiration_in_days_state(),
            r.id_state() == Ok::<Option<Seq<char>>, Seq<char>>(opt_str_view(value)),
            r.prefix_state() == self.prefix_state(),
            r.status_state() == self.status_state(),
    {
        Rule { id: Ok(value), ..self }
    }

    pub fn prefix(self, value: Option<String>) -> (r: Self)
        ensures
            r.expiration_in_days_state() == self.expiration_in_days_state(),
            r.id_state() == self.id_state(),
            r.prefix_state() == Ok::<Option<Seq<char>>, Seq<char>>(opt_str_view(value)),
            r.status_state() == self.status_state(),
    {
        Rule { prefix: Ok(value), ..self }
    }

    pub fn status(self, value: RuleStatus) -> (r: Self)
        ensures
            r.expiration_in_days_state() == self.expiration_in_days_state(),
            r.id_state() == self.id_state(),
            r.prefix_state() == self.prefix_state(),
            r.status_state() == Ok::<RuleStatus, Seq<char>>(value),
    {
        Rule { status: Ok(value), ..self }
    }

    /// Whether no set expiration is zero.
    pub closed spec fn wf(&self) -> bool {
        !(self.expiration_in_days matches Ok(Some(n)) && n == 0)
    }

    /// The record, or the message of the first field (in declaration order)
    /// that was never set.
    pub fn build(self) -> (r: Result<crate::aws::s3_bucket::Rule, ConversionError>)
        requires
            self.wf(),
        ensures
            match (self.expiration_in_days_state(), self.id_state(), self.prefix_state(), self.status_state()) {
                (Ok(x), Ok(i), Ok(p), Ok(s)) => r matches Ok(c) && c.expiration_in_days == x && opt_str_view(c.id) == i
                    && opt_str_view(c.prefix) == p && c.status == s && c.wf(),
                (Err(m), _, _, _) => r matches Err(e) && e.0@ == m,
                (Ok(_), Err(m), _, _) => r matches Err(e) && e.0@ == m,
                (Ok(_), Ok(_), Err(m), _) => r matches Err(e) && e.0@ == m,
                (Ok(_), Ok(_), Ok(_), Err(m)) => r matches Err(e) && e.0@ == m,
            },
    {
        let x = match self.expiration_in_days {
            Ok(x) => x,
            Err(m) => return Err(ConversionError(m)),
        };
        let i = match self.id {
            Ok(i) => i,
            Err(m) => return Err(ConversionError(m)),
        };
        let p = match self.prefix {
            Ok(p) => p,
            Err(m) => return Err(ConversionError(m)),
        };
        let s = match self.status {
            Ok(s) => s,
            Err(m) => return Err(ConversionError(m)),
        };
        Ok(crate::aws::s3_bucket::Rule { expiration_in_days: x, id: i, prefix: p, status: s })
    }
}

/// Builder for [`crate::aws::s3_bucket::Tag`].
#[derive(Debug)]
pub struct Tag {
    key: Result<TagKey, String>,
    value: Result<TagValue, String>,
}

impl Default for Tag {
    fn default() -> (r: Self)
        ensures
            r.key_state() == Err::<Seq<char>, Seq<char>>("no value supplied for key"@),
            r.value_state() == Err::<Seq<char>, Seq<char>>("no value supplied for value"@),
    {
        Tag { key: Err(str_to_string("no value supplied for key")), value: Err(str_to_string("no value supplied for value")) }
    }
}

impl Tag {
    pub closed spec fn key_state(&self) -> Result<Seq<char>, Seq<char>> {
        match self.key {
            Ok(k) => Ok(k@),
            Err(m) => Err(m@),
        }
    }

    pub closed spec fn value_state(&self) -> Result<Seq<char>, Seq<char>> {
        match self.value {
            Ok(v) => Ok(v@),
            Err(m) => Err(m@),
        }
    }

    pub fn key(self, value: TagKey) -> (r: Self)
        ensures
            r.key_state() == Ok::<Seq<char>, Seq<char>>(value@),
            r.value_state() == self.value_state(),
    {
        Tag { key: Ok(value), ..self }
    }

    pub fn value(self, value: TagValue) -> (r: Self)
        ensures
            r.key_state() == self.key_state(),
            r.value_state() == Ok::<Seq<char>, Seq<char>>(value@),
    {
        Tag { value: Ok(value), ..self }
    }

    /// The record, or the message of the first field that was never set.
    pub fn build(self) -> (r: Result<crate::aws::s3_bucket::Tag, ConversionError>)
        ensures
            match (self.key_state(), self.value_state()) {
                (Ok(k), Ok(v)) => r matches Ok(c) && c.key@ == k && c.value@ == v,
                (Err(m), _) => r matches Err(e) && e.0@ == m,
                (Ok(_), Err(m)) => r matches Err(e) && e.0@ == m,
            },
    {
        let k = match self.key {
            Ok(k) => k,
            Err(m) => return Err(ConversionError(m)),
        };
        let v = match self.value {
            Ok(v) => v,
            Err(m) => return Err(ConversionError(m)),
        };
        Ok(crate::aws::s3_bucket::Tag { key: k, value: v })
    }
}

/// Builder for [`crate::aws::s3_bucket::VersioningConfiguration`].
#[derive(Debug)]
pub struct VersioningConfiguration {
    status: Result<VersioningConfigurationStatus, String>,
}

impl Default for VersioningConfiguration {
    fn default() -> (r: Self)
        ensures
            r.status_state() == Err::<VersioningConfigurationStatus, Seq<char>>("no value supplied for status"@),
    {
        VersioningConfiguration { status: Err(str_to_string("no value supplied for status")) }
    }
}

impl VersioningConfiguration {
    pub closed spec fn status_state(&self) -> Result<VersioningConfigurationStatus, Seq<char>> {
        field_state(self.status)
    }

    pub fn status(self, value: VersioningConfigurationStatus) -> (r: Self)
        ensures
            r.status_state() == Ok::<VersioningConfigurationStatus, Seq<char>>(value),
    {
        VersioningConfiguration { status: Ok(value) }
    }

    /// The record, or the message of the field that was never set.
    pub fn build(self) -> (r: Result<crate::aws::s3_bucket::VersioningConfiguration, ConversionError>)
        ensures
            match self.status_state() {
                Ok(s) => r matches Ok(c) && c.status == s,
                Err(m) => r matches Err(e) && e.0@ == m,
            },
    {
        match self.status {
            Ok(s) => Ok(crate::aws::s3_bucket::VersioningConfiguration { status: s }),
            Err(m) => Err(ConversionError(m)),
        }
    }
}

} // verus!
