//! AWS resource schema definitions

pub mod builder;
pub mod case_convert;
pub mod provider;
pub mod s3;
pub mod s3_bucket;
pub mod types;
pub mod validation;
pub mod vpc;

use vstd::prelude::*;

use crate::schema::ResourceSchema;

verus! {

/// Returns all AWS schemas
pub fn all_schemas() -> (r: Vec<ResourceSchema>)
    ensures
        r.len() == 9,
        s3::is_bucket_schema(r@[0]),
        vpc::are_vpc_schemas(r@.subrange(1, 9)),
{
    let mut schemas: Vec<ResourceSchema> = Vec::new();
    let mut s3s = s3::schemas();
    schemas.append(&mut s3s);
    let mut vpcs = vpc::schemas();
    let ghost listed = vpcs@;
    schemas.append(&mut vpcs);
    proof {
        assert(schemas@.subrange(1, 9) =~= listed);
    }
    schemas
}

} // verus!
