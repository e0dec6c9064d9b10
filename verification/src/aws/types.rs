//! AWS-specific type definitions

use vstd::prelude::*;

use crate::resource::{lemma_dict_view, lemma_list_view, Value, ValueModel};
use crate::schema::{is_custom, msg_view, AttributeType, Validator};
use crate::text::{
    chars_eq, chars_of, contains_char, copy_chars, has_char, join, join_chars, last_piece,
    last_piece_chars, push_chars, push_str, replace_char, replace_char_chars, split, split_chars,
    str_to_string, string_of, views, lemma_split_nonempty,
};

verus! {

/// Valid AWS regions (in AWS format with hyphens)
pub open spec fn valid_regions() -> Seq<Seq<char>> {
    seq![
        "ap-northeast-1"@,
        "ap-northeast-2"@,
        "ap-northeast-3"@,
        "ap-southeast-1"@,
        "ap-southeast-2"@,
        "ap-south-1"@,
        "us-east-1"@,
        "us-east-2"@,
        "us-west-1"@,
        "us-west-2"@,
        "eu-west-1"@,
        "eu-west-2"@,
        "eu-west-3"@,
        "eu-central-1"@,
        "eu-north-1"@,
        "ca-central-1"@,
        "sa-east-1"@,
    ]
}

/// The valid AWS regions, in order.
pub fn valid_regions_list() -> (r: Vec<Vec<char>>)
    ensures
        views(r@) == valid_regions(),
{
    let mut v: Vec<Vec<char>> = Vec::new();
    v.push(chars_of("ap-northeast-1"));
    v.push(chars_of("ap-northeast-2"));
    v.push(chars_of("ap-northeast-3"));
    v.push(chars_of("ap-southeast-1"));
    v.push(chars_of("ap-southeast-2"));
    v.push(chars_of("ap-south-1"));
    v.push(chars_of("us-east-1"));
    v.push(chars_of("us-east-2"));
    v.push(chars_of("us-west-1"));
    v.push(chars_of("us-west-2"));
    v.push(chars_of("eu-west-1"));
    v.push(chars_of("eu-west-2"));
    v.push(chars_of("eu-west-3"));
    v.push(chars_of("eu-central-1"));
    v.push(chars_of("eu-north-1"));
    v.push(chars_of("ca-central-1"));
    v.push(chars_of("sa-east-1"));
    proof {
        assert(views(v@) =~= valid_regions());
    }
    v
}

/// Whether a character sequence occurs in a list.
pub fn list_contains(list: &Vec<Vec<char>>, s: &[char]) -> (r: bool)
    ensures
        r == views(list@).contains(s@),
{
    let mut i: usize = 0;
    while i < list.len()
        invariant
            i <= list.len(),
            forall|j: int| 0 <= j < i ==> list@[j]@ != s@,
        decreases list.len() - i,
    {
        if chars_eq(list[i].as_slice(), s) {
            proof {
                assert(views(list@)[i as int] == s@);
            }
            return true;
        }
        i += 1;
    }
    proof {
        if views(list@).contains(s@) {
            let j = choose|j: int| 0 <= j < views(list@).len() && views(list@)[j] == s@;
            assert(list@[j]@ == s@);
        }
    }
    false
}

/// Region text in AWS format: the last dot-separated piece, underscores as hyphens.
pub open spec fn spec_normalize_region(s: Seq<char>) -> Seq<char> {
    let region_part = if has_char(s, '.') {
        last_piece(s, '.')
    } else {
        s
    };
    replace_char(region_part, '_', '-')
}

/// Normalize region string to AWS format (hyphens)
/// - "aws.Region.ap_northeast_1" -> "ap-northeast-1"
/// - "ap_northeast_1" -> "ap-northeast-1"
/// - "ap-northeast-1" -> "ap-northeast-1"
pub fn normalize_region(s: &str) -> (r: String)
    ensures
        r@ == spec_normalize_region(s@),
{
    let c = chars_of(s);
    let part = if contains_char(c.as_slice(), '.') {
        last_piece_chars(c.as_slice(), '.')
    } else {
        copy_chars(c.as_slice())
    };
    let out = replace_char_chars(part.as_slice(), '_', '-');
    string_of(out.as_slice())
}

/// The message for a region that is not valid.
pub open spec fn invalid_region_message(s: Seq<char>) -> Seq<char> {
    "Invalid region '"@ + s + "', expected one of: "@ + join(valid_regions(), ", "@)
        + " or DSL format like aws.Region.ap_northeast_1"@
}

/// The outcome of the region check.
pub open spec fn spec_aws_region(v: ValueModel) -> Result<(), Seq<char>> {
    match v {
        ValueModel::Str(s) => if valid_regions().contains(spec_normalize_region(s)) {
            Ok(())
        } else {
            Err(invalid_region_message(s))
        },
        _ => Err("Expected string"@),
    }
}

pub fn check_aws_region(v: &Value) -> (r: Result<(), String>)
    ensures
        msg_view(r) == spec_aws_region(v@),
{
    match v {
        Value::String(s) => {
            let normalized = normalize_region(s.as_str());
            let regions = valid_regions_list();
            let nc = chars_of(normalized.as_str());
            if list_contains(&regions, nc.as_slice()) {
                Ok(())
            } else {
                let mut m = str_to_string("Invalid region '");
                push_str(&mut m, s.as_str());
                push_str(&mut m, "', expected one of: ");
                let sep = chars_of(", ");
                let joined = join_chars(regions.as_slice(), sep.as_slice());
                push_chars(&mut m, joined.as_slice());
                push_str(&mut m, " or DSL format like aws.Region.ap_northeast_1");
                Err(m)
            }
        },
        Value::List(items) => {
            proof {
                lemma_list_view(*items);
            }
            Err(str_to_string("Expected string"))
        },
        Value::Dict(m) => {
            proof {
                lemma_dict_view(*m);
            }
            Err(str_to_string("Expected string"))
        },
        _ => Err(str_to_string("Expected string")),
    }
}

/// AWS region type with custom validation
/// Accepts:
/// - DSL format: aws.Region.ap_northeast_1
/// - AWS string format: "ap-northeast-1"
/// - Shorthand: ap_northeast_1
/// Whether a type is the AWS region type.
pub open spec fn is_region_type(t: AttributeType) -> bool {
    is_custom(t, "Region"@, AttributeType::String, Validator::AwsRegion, Some("aws"@))
}

pub fn aws_region() -> (r: AttributeType)
    ensures
        is_region_type(r),
{
    AttributeType::Custom {
        name: str_to_string("Region"),
        base: Box::new(AttributeType::String),
        validate: Validator::AwsRegion,
        namespace: Some(str_to_string("aws")),
    }
}

/// Versioning status in API format: the last dot-separated piece.
pub open spec fn spec_normalize_versioning_status(s: Seq<char>) -> Seq<char> {
    if has_char(s, '.') {
        last_piece(s, '.')
    } else {
        s
    }
}

/// Normalizing a versioning status twice gives what normalizing it once gives.
pub proof fn lemma_normalize_versioning_idempotent(s: Seq<char>)
    ensures
        spec_normalize_versioning_status(spec_normalize_versioning_status(s)) == spec_normalize_versioning_status(s),
{
    crate::text::lemma_last_piece_no_sep(s, '.');
}

/// Normalize versioning status to API format
/// - "aws.s3.VersioningStatus.Enabled" -> "Enabled"
/// - "Enabled" -> "Enabled"
pub fn normalize_versioning_status(s: &str) -> (r: String)
    ensures
        r@ == spec_normalize_versioning_status(s@),
{
    let c = chars_of(s);
    if contains_char(c.as_slice(), '.') {
        let p = last_piece_chars(c.as_slice(), '.');
        string_of(p.as_slice())
    } else {
        string_of(c.as_slice())
    }
}

/// The message of a versioning status error: the prefix, the value and the tail.
pub open spec fn versioning_message(s: Seq<char>, tail: Seq<char>) -> Seq<char> {
    "Invalid versioning status '"@ + s + tail
}

/// The outcome of the versioning status check.
pub open spec fn spec_versioning_status(v: ValueModel) -> Result<(), Seq<char>> {
    match v {
        ValueModel::Str(s) => {
            let parts = split(s, '.');
            if has_char(s, '.') && parts.len() == 2 && parts[0] != "VersioningStatus"@ {
                Err(
                    versioning_message(
                        s,
                        "', expected format: VersioningStatus.Enabled or VersioningStatus.Suspended"@,
                    ),
                )
            } else if has_char(s, '.') && parts.len() == 4 && (parts[0] != "aws"@ || parts[1]
                != "s3"@ || parts[2] != "VersioningStatus"@) {
                Err(
                    versioning_message(
                        s,
                        "', expected format: aws.s3.VersioningStatus.Enabled or aws.s3.VersioningStatus.Suspended"@,
                    ),
                )
            } else if has_char(s, '.') && parts.len() != 2 && parts.len() != 4 {
                Err(
                    versioning_message(
                        s,
                        "', expected one of: Enabled, Suspended, VersioningStatus.Enabled, or aws.s3.VersioningStatus.Enabled"@,
                    ),
                )
            } else if spec_normalize_versioning_status(s) == "Enabled"@
                || spec_normalize_versioning_status(s) == "Suspended"@ {
                Ok(())
            } else {
                Err(versioning_message(s, "', expected one of: Enabled, Suspended"@))
            }
        },
        _ => Err("Expected string"@),
    }
}

fn versioning_error(s: &String, tail: &str) -> (r: String)
    ensures
        r@ == versioning_message(s@, tail@),
{
    let mut m = str_to_string("Invalid versioning status '");
    push_str(&mut m, s.as_str());
    push_str(&mut m, tail);
    m
}

pub fn check_versioning_status(v: &Value) -> (r: Result<(), String>)
    ensures
        msg_view(r) == spec_versioning_status(v@),
{
    match v {
        Value::String(s) => {
            let c = chars_of(s.as_str());
            let parts = split_chars(c.as_slice(), '.');
            proof {
                lemma_split_nonempty(s@, '.');
            }
            if contains_char(c.as_slice(), '.') {
                if parts.len() == 2 {
                    proof {
                        assert(views(parts@)[0] == parts@[0]@);
                    }
                    if !chars_eq(parts[0].as_slice(), chars_of("VersioningStatus").as_slice()) {
                        return Err(
                            versioning_error(
                                s,
                                "', expected format: VersioningStatus.Enabled or VersioningStatus.Suspended",
                            ),
                        );
                    }
                } else if parts.len() == 4 {
                    proof {
                        assert(views(parts@)[0] == parts@[0]@);
                        assert(views(parts@)[1] == parts@[1]@);
                        assert(views(parts@)[2] == parts@[2]@);
                    }
                    if !chars_eq(parts[0].as_slice(), chars_of("aws").as_slice()) || !chars_eq(
                        parts[1].as_slice(),
                        chars_of("s3").as_slice(),
                    ) || !chars_eq(parts[2].as_slice(), chars_of("VersioningStatus").as_slice()) {
                        return Err(
                            versioning_error(
                                s,
                                "', expected format: aws.s3.VersioningStatus.Enabled or aws.s3.VersioningStatus.Suspended",
                            ),
                        );
                    }
                } else {
                    return Err(
                        versioning_error(
                            s,
                            "', expected one of: Enabled, Suspended, VersioningStatus.Enabled, or aws.s3.VersioningStatus.Enabled",
                        ),
                    );
                }
            }
            let normalized = normalize_versioning_status(s.as_str());
            let nc = chars_of(normalized.as_str());
            if chars_eq(nc.as_slice(), chars_of("Enabled").as_slice()) || chars_eq(
                nc.as_slice(),
                chars_of("Suspended").as_slice(),
            ) {
                Ok(())
            } else {
                Err(versioning_error(s, "', expected one of: Enabled, Suspended"))
            }
        },
        Value::List(items) => {
            proof {
                lemma_list_view(*items);
            }
            Err(str_to_string("Expected string"))
        },
        Value::Dict(m) => {
            proof {
                lemma_dict_view(*m);
            }
            Err(str_to_string("Expected string"))
        },
        _ => Err(str_to_string("Expected string")),
    }
}

/// S3 bucket versioning status
/// Accepts:
/// - DSL format: aws.s3.VersioningStatus.Enabled
/// - Short DSL format: VersioningStatus.Enabled
/// - Value only: Enabled, Suspended
pub fn versioning_status() -> (r: AttributeType)
    ensures
        is_custom(
            r,
            "VersioningStatus"@,
            AttributeType::String,
            Validator::VersioningStatus,
            Some("aws.s3"@),
        ),
{
    AttributeType::Custom {
        name: str_to_string("VersioningStatus"),
        base: Box::new(AttributeType::String),
        validate: Validator::VersioningStatus,
        namespace: Some(str_to_string("aws.s3")),
    }
}

/// Whether a type is the enum of canned S3 ACLs.
pub open spec fn is_acl_type(t: AttributeType) -> bool {
    t matches AttributeType::Enum(vs) && crate::schema::strings_view(vs@) == seq![
        "private"@,
        "public_read"@,
        "public_read_write"@,
        "authenticated_read"@,
    ]
}

/// S3 ACL enum type
pub fn s3_acl() -> (r: AttributeType)
    ensures
        is_acl_type(r),
{
    let mut vs: Vec<String> = Vec::new();
    vs.push(str_to_string("private"));
    vs.push(str_to_string("public_read"));
    vs.push(str_to_string("public_read_write"));
    vs.push(str_to_string("authenticated_read"));
    proof {
        assert(crate::schema::strings_view(vs@) =~= seq![
            "private"@,
            "public_read"@,
            "public_read_write"@,
            "authenticated_read"@,
        ]);
    }
    AttributeType::Enum(vs)
}

/// Length of a string in UTF-8 bytes (what `str::len` returns).
pub open spec fn byte_len(s: Seq<char>) -> usize {
    vstd::utf8::encode_utf8(s).len() as usize
}

/// The outcome of the bucket name check.
pub open spec fn spec_s3_bucket_name(v: ValueModel) -> Result<(), Seq<char>> {
    match v {
        ValueModel::Str(s) => if byte_len(s) < 3 {
            Err("Bucket name must be at least 3 characters"@)
        } else if byte_len(s) > 63 {
            Err("Bucket name must be at most 63 characters"@)
        } else if s.len() == 0 || !(crate::text::is_ascii_lower(s[0]) || crate::text::is_ascii_digit(
            s[0],
        )) {
            Err("Bucket name must start with a lowercase letter or number"@)
        } else {
            Ok(())
        },
        _ => Err("Expected string"@),
    }
}

pub fn check_s3_bucket_name(v: &Value) -> (r: Result<(), String>)
    ensures
        msg_view(r) == spec_s3_bucket_name(v@),
{
    match v {
        Value::String(s) => {
            let n = s.as_str().len();
            if n < 3 {
                return Err(str_to_string("Bucket name must be at least 3 characters"));
            }
            if n > 63 {
                return Err(str_to_string("Bucket name must be at most 63 characters"));
            }
            let c = chars_of(s.as_str());
            let first = if c.len() > 0 {
                c[0]
            } else {
                '_'
            };
            if !crate::text::ascii_lower(first) && !crate::text::ascii_digit(first) {
                return Err(
                    str_to_string("Bucket name must start with a lowercase letter or number"),
                );
            }
            Ok(())
        },
        Value::List(items) => {
            proof {
                lemma_list_view(*items);
            }
            Err(str_to_string("Expected string"))
        },
        Value::Dict(m) => {
            proof {
                lemma_dict_view(*m);
            }
            Err(str_to_string("Expected string"))
        },
        _ => Err(str_to_string("Expected string")),
    }
}

/// Whether a type is the S3 bucket name type.
pub open spec fn is_bucket_name_type(t: AttributeType) -> bool {
    is_custom(t, "BucketName"@, AttributeType::String, Validator::S3BucketName, None)
}

/// S3 bucket name type (with validation)
pub fn s3_bucket_name() -> (r: AttributeType)
    ensures
        is_bucket_name_type(r),
{
    AttributeType::Custom {
        name: str_to_string("BucketName"),
        base: Box::new(AttributeType::String),
        validate: Validator::S3BucketName,
        namespace: None,
    }
}

} // verus!
