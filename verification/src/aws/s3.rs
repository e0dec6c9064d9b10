//! S3 bucket schema definition

use vstd::prelude::*;

use crate::aws::types::{aws_region, is_acl_type, is_bucket_name_type, is_region_type, s3_acl, s3_bucket_name};
use crate::schema::{
    attr_desc, described, is_positive_int_type, positive_int, schema_head, AttributeType,
    ResourceSchema,
};

verus! {

/// The S3 bucket schema.
pub open spec fn is_bucket_schema(r: ResourceSchema) -> bool {
    let a = r.attributes@;
    &&& schema_head(r, "s3.bucket"@, "An S3 bucket for object storage"@, 5)
    &&& attr_desc(a[0], "name"@, false, "Override bucket name (defaults to resource name)"@)
    &&& is_bucket_name_type(a[0].attr_type)
    &&& attr_desc(a[1], "region"@, false, "The AWS region for the bucket (inherited from provider if not specified)"@)
    &&& is_region_type(a[1].attr_type)
    &&& attr_desc(a[2], "acl"@, false, "The canned ACL for the bucket"@)
    &&& is_acl_type(a[2].attr_type)
    &&& attr_desc(a[3], "versioning"@, false, "Enable versioning for the bucket"@)
    &&& a[3].attr_type == AttributeType::Bool
    &&& attr_desc(a[4], "expiration_days"@, false, "Number of days before objects expire"@)
    &&& is_positive_int_type(a[4].attr_type)
}

/// Returns the schema for S3 buckets
pub fn bucket_schema() -> (r: ResourceSchema)
    ensures
        is_bucket_schema(r),
{
    proof {
        reveal_strlit("name");
        reveal_strlit("region");
        reveal_strlit("acl");
        reveal_strlit("versioning");
        reveal_strlit("expiration_days");
        assert("name"@.len() == 4 && "region"@.len() == 6 && "acl"@.len() == 3);
        assert("versioning"@.len() == 10 && "expiration_days"@.len() == 15);
    }
    let mut r = ResourceSchema::described("s3.bucket", "An S3 bucket for object storage");
    r = r.push_attribute(described("name", s3_bucket_name(), false, "Override bucket name (defaults to resource name)"));
    r = r.push_attribute(described("region", aws_region(), false, "The AWS region for the bucket (inherited from provider if not specified)"));
    r = r.push_attribute(described("acl", s3_acl(), false, "The canned ACL for the bucket"));
    r = r.push_attribute(described("versioning", AttributeType::Bool, false, "Enable versioning for the bucket"));
    r = r.push_attribute(described("expiration_days", positive_int(), false, "Number of days before objects expire"));
    r
}

/// Returns all S3-related schemas
pub fn schemas() -> (r: Vec<ResourceSchema>)
    ensures
        r.len() == 1,
        is_bucket_schema(r@[0]),
{
    let mut r: Vec<ResourceSchema> = Vec::new();
    r.push(bucket_schema());
    r
}

} // verus!
