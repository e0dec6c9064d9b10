//! Validation of resource attributes against the CloudFormation rules of
//! their types.
//!
//! Carina DSL uses snake_case attribute names, which are converted
//! to CamelCase for validation against CloudFormation schemas.

use vstd::prelude::*;

use crate::aws::case_convert::{attributes_to_camel_case, capitalize_first, capitalized, convert_entries};
use crate::aws::s3_bucket::{versioning_status_of, VersioningConfigurationStatus};
use crate::aws::types::byte_len;
use crate::resource::{lemma_dict_view, lemma_list_view, lookup, Value, ValueModel};
use crate::text::{nat_digits, push_chars, push_str, str_eq, str_to_string, usize_text};

verus! {

/// Validation error
#[derive(Debug, Clone)]
pub struct ValidationError {
    pub path: String,
    pub message: String,
}

impl ValidationError {
    /// The error as `path: message`.
    pub fn text(&self) -> (r: String)
        ensures
            r@ == self.path@ + ": "@ + self.message@,
    {
        let mut s = self.path.clone();
        push_str(&mut s, ": ");
        push_str(&mut s, self.message.as_str());
        s
    }
}

/// The path and message of each error.
pub open spec fn errors_model(errs: Seq<ValidationError>) -> Seq<(Seq<char>, Seq<char>)> {
    Seq::new(errs.len(), |i: int| (errs[i].path@, errs[i].message@))
}

/// The errors of the bucket name, looked up in CamelCase attributes.
pub open spec fn bucket_name_errors(attrs: Seq<(Seq<char>, ValueModel)>) -> Seq<(Seq<char>, Seq<char>)> {
    match lookup(attrs, "BucketName"@) {
        None => Seq::empty(),
        Some(ValueModel::Str(name)) => if byte_len(name) < 3 || byte_len(name) > 63 {
            seq![
                (
                    "bucket_name"@,
                    "bucket_name must be between 3 and 63 characters, got "@ + nat_digits(
                        byte_len(name) as nat,
                    ),
                ),
            ]
        } else {
            Seq::empty()
        },
        Some(_) => seq![("bucket_name"@, "bucket_name must be a string"@)],
    }
}

/// The errors of a versioning configuration value.
pub open spec fn versioning_configuration_errors(v: ValueModel) -> Seq<(Seq<char>, Seq<char>)> {
    match v {
        ValueModel::Dict(m) => match lookup(m, "Status"@) {
            None => Seq::empty(),
            Some(ValueModel::Str(status)) => if versioning_status_of(capitalized(status)) is Some {
                Seq::empty()
            } else {
                seq![
                    (
                        "versioning_configuration.status"@,
                        "Invalid status value '"@ + status
                            + "'. Must be one of: enabled, suspended"@,
                    ),
                ]
            },
            Some(_) => seq![("versioning_configuration.status"@, "status must be a string"@)],
        },
        _ => seq![("versioning_configuration"@, "versioning_configuration must be an object"@)],
    }
}

/// All errors of S3 bucket attributes.
pub open spec fn s3_bucket_errors(attributes: Seq<(Seq<char>, ValueModel)>) -> Seq<(Seq<char>, Seq<char>)> {
    let attrs = convert_entries(attributes, true);
    bucket_name_errors(attrs) + match lookup(attrs, "VersioningConfiguration"@) {
        None => Seq::empty(),
        Some(v) => versioning_configuration_errors(v),
    }
}

/// The validation result for a list of errors: `Ok` when there are none.
pub open spec fn outcome(
    r: Result<(), Vec<ValidationError>>,
    errs: Seq<(Seq<char>, Seq<char>)>,
) -> bool {
    match r {
        Ok(()) => errs.len() == 0,
        Err(v) => errs.len() > 0 && errors_model(v@) == errs,
    }
}

fn error(path: &str, message: String) -> (r: ValidationError)
    ensures
        r.path@ == path@,
        r.message@ == message@,
{
    ValidationError { path: str_to_string(path), message }
}

/// Validate S3 bucket attributes against CloudFormation schema
/// Accepts both snake_case and CamelCase attribute names
pub fn validate_s3_bucket(attributes: &crate::resource::ValueMap) -> (r: Result<(), Vec<ValidationError>>)
    ensures
        outcome(r, s3_bucket_errors(attributes@)),
{
    let mut errors: Vec<ValidationError> = Vec::new();

    // Convert to CamelCase for validation
    let attrs = attributes_to_camel_case(attributes);

    // Validate BucketName if present
    match attrs.get("BucketName") {
        Some(value) => {
            match value {
                Value::String(name) => {
                    // BucketName validation: 3-63 characters, lowercase, alphanumeric and hyphens
                    let n = name.as_str().len();
                    if n < 3 || n > 63 {
                        let mut msg = str_to_string("bucket_name must be between 3 and 63 characters, got ");
                        let digits = usize_text(n);
                        push_chars(&mut msg, digits.as_slice());
                        errors.push(error("bucket_name", msg));
                    }
                },
                Value::List(items) => {
                    proof {
                        lemma_list_view(*items);
                    }
                    errors.push(error("bucket_name", str_to_string("bucket_name must be a string")));
                },
                Value::Dict(m) => {
                    proof {
                        lemma_dict_view(*m);
                    }
                    errors.push(error("bucket_name", str_to_string("bucket_name must be a string")));
                },
                _ => {
                    errors.push(error("bucket_name", str_to_string("bucket_name must be a string")));
                },
            }
        },
        None => {},
    }
    proof {
        assert(errors_model(errors@) =~= bucket_name_errors(attrs@));
    }

    // Validate VersioningConfiguration if present
    match attrs.get("VersioningConfiguration") {
        Some(value) => {
            validate_versioning_configuration(value, &mut errors);
        },
        None => {
            proof {
                assert(errors_model(errors@) =~= s3_bucket_errors(attributes@));
            }
        },
    }

    if errors.len() == 0 {
        Ok(())
    } else {
        Err(errors)
    }
}

fn validate_versioning_configuration(value: &Value, errors: &mut Vec<ValidationError>)
    ensures
        errors_model(final(errors)@) == errors_model(old(errors)@) + versioning_configuration_errors(value@),
{
    let ghost before = errors_model(errors@);
    match value {
        Value::Dict(map) => {
            proof {
                lemma_dict_view(*map);
            }
            // Validate Status field
            match map.get("Status") {
                Some(status_value) => {
                    match status_value {
                        Value::String(status) => {
                            // Accept both lowercase (enabled) and CamelCase (Enabled)
                            let normalized = capitalize_first(status.as_str());
                            if VersioningConfigurationStatus::from_text(normalized.as_str()).is_err() {
                                let mut msg = str_to_string("Invalid status value '");
                                push_str(&mut msg, status.as_str());
                                push_str(&mut msg, "'. Must be one of: enabled, suspended");
                                errors.push(error("versioning_configuration.status", msg));
                            }
                        },
                        Value::List(items) => {
                            proof {
                                lemma_list_view(*items);
                            }
                            errors.push(error("versioning_configuration.status", str_to_string("status must be a string")));
                        },
                        Value::Dict(m) => {
                            proof {
                                lemma_dict_view(*m);
                            }
                            errors.push(error("versioning_configuration.status", str_to_string("status must be a string")));
                        },
                        _ => {
                            errors.push(error("versioning_configuration.status", str_to_string("status must be a string")));
                        },
                    }
                },
                None => {},
            }
        },
        Value::List(items) => {
            proof {
                lemma_list_view(*items);
            }
            errors.push(error("versioning_configuration", str_to_string("versioning_configuration must be an object")));
        },
        _ => {
            errors.push(error("versioning_configuration", str_to_string("versioning_configuration must be an object")));
        },
    }
    proof {
        assert(errors_model(errors@) =~= before + versioning_configuration_errors(value@));
    }
}

/// Validate a resource based on its type
pub fn validate_resource(resource_type: &str, attributes: &crate::resource::ValueMap) -> (r: Result<(), Vec<ValidationError>>)
    ensures
        resource_type@ == "s3_bucket"@ ==> outcome(r, s3_bucket_errors(attributes@)),
        resource_type@ != "s3_bucket"@ ==> r is Ok,
{
    if str_eq(resource_type, "s3_bucket") {
        validate_s3_bucket(attributes)
    } else {
        // Unknown types pass validation (for extensibility)
        Ok(())
    }
}

} // verus!
