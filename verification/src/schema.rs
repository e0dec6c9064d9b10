//! Schema - Define type schemas for resources
//!
//! Providers define schemas for each resource type,
//! enabling type validation at parse time.

use vstd::prelude::*;

use crate::aws::types::{check_aws_region, check_s3_bucket_name, check_versioning_status};
use crate::aws::types::{spec_aws_region, spec_s3_bucket_name, spec_versioning_status};
use crate::ec2::{check_cidr_block, check_port_number, spec_cidr_block, spec_port_number};
use crate::resource::{
    copy_value, has_key, lemma_dict_view, lemma_list_view, lookup, opt_str_view, Value, ValueMap,
    ValueModel,
};
use crate::text::{
    copy_string, join, join_chars, last_piece, last_piece_chars, nat_digits, parse_u8,
    parse_u8_chars, push_chars, push_str, split, split_chars, str_to_string, string_of, usize_text,
    views, chars_of, chars_eq, lemma_split_nonempty,
};

verus! {

/// The checks that custom attribute types run on a value.
#[derive(Debug, Clone, Copy, PartialEq, Eq)]
pub enum Validator {
    /// An integer greater than zero.
    PositiveInt,
    /// An IPv4 CIDR block such as `10.0.0.0/16`.
    Cidr,
    /// An IPv4 CIDR block, with the messages of the EC2 schemas.
    CidrBlock,
    /// A port number between 0 and 65535.
    PortNumber,
    /// An AWS region.
    AwsRegion,
    /// An S3 versioning status.
    VersioningStatus,
    /// An S3 bucket name.
    S3BucketName,
}

/// Attribute type
#[derive(Debug)]
pub enum AttributeType {
    /// String
    String,
    /// Integer
    Int,
    /// Boolean
    Bool,
    /// Enum (list of allowed values)
    Enum(Vec<String>),
    /// Custom type (with validation)
    Custom {
        name: String,
        base: Box<AttributeType>,
        validate: Validator,
        /// Namespace for resolving shorthand enum values (e.g., "aws.vpc").
        /// When set, allows `dedicated` to be resolved to `aws.vpc.InstanceTenancy.dedicated`
        namespace: Option<String>,
    },
    /// List
    List(Box<AttributeType>),
    /// Map from names to values of one type
    Dict(Box<AttributeType>),
}

/// Type error
#[derive(Debug)]
pub enum TypeError {
    TypeMismatch { expected: String, got: String },
    InvalidEnumVariant { value: String, expected: Vec<String> },
    ValidationFailed { message: String },
    MissingRequired { name: String },
    UnknownAttribute { name: String },
    ListItemError { index: usize, inner: Box<TypeError> },
    MapValueError { key: String, inner: Box<TypeError> },
}

/// An exact copy of a list of strings.
pub fn clone_strings(v: &Vec<String>) -> (r: Vec<String>)
    ensures
        r@ == v@,
{
    let mut out: Vec<String> = Vec::new();
    let mut i: usize = 0;
    while i < v.len()
        invariant
            i <= v.len(),
            out@ == v@.take(i as int),
        decreases v.len() - i,
    {
        out.push(v[i].clone());
        i += 1;
        proof {
            assert(v@.take(i as int) =~= v@.take(i - 1).push(v@[i - 1]));
        }
    }
    proof {
        assert(v@.take(v.len() as int) =~= v@);
    }
    out
}

impl Clone for AttributeType {
    fn clone(&self) -> Self {
        copy_type(self)
    }
}

/// The mathematical content of an attribute type.
pub enum TypeModel {
    String,
    Int,
    Bool,
    Enum(Seq<Seq<char>>),
    Custom { name: Seq<char>, base: Box<TypeModel>, validate: Validator, namespace: Option<Seq<char>> },
    List(Box<TypeModel>),
    Dict(Box<TypeModel>),
}

/// The model of an attribute type.
pub open spec fn type_model(t: AttributeType) -> TypeModel
    decreases t,
{
    match t {
        AttributeType::String => TypeModel::String,
        AttributeType::Int => TypeModel::Int,
        AttributeType::Bool => TypeModel::Bool,
        AttributeType::Enum(vs) => TypeModel::Enum(strings_view(vs@)),
        AttributeType::Custom { name, base, validate, namespace } => TypeModel::Custom {
            name: name@,
            base: Box::new(type_model(*base)),
            validate,
            namespace: opt_str_view(namespace),
        },
        AttributeType::List(inner) => TypeModel::List(Box::new(type_model(*inner))),
        AttributeType::Dict(inner) => TypeModel::Dict(Box::new(type_model(*inner))),
    }
}

/// A copy of an attribute type, field by field.
fn copy_type(t: &AttributeType) -> (r: AttributeType)
    ensures
        type_model(r) == type_model(*t),
    decreases t,
{
        match t {
            AttributeType::String => AttributeType::String,
            AttributeType::Int => AttributeType::Int,
            AttributeType::Bool => AttributeType::Bool,
            AttributeType::Enum(vs) => {
                let c = clone_strings(vs);
                proof {
                    assert(strings_view(c@) =~= strings_view(vs@));
                }
                AttributeType::Enum(c)
            },
            AttributeType::Custom { name, base, validate, namespace } => {
                let ns = match namespace {
                    Some(n) => Some(n.clone()),
                    None => None,
                };
                AttributeType::Custom {
                    name: name.clone(),
                    base: Box::new(copy_type(base)),
                    validate: *validate,
                    namespace: ns,
                }
            },
            AttributeType::List(inner) => AttributeType::List(Box::new(copy_type(inner))),
            AttributeType::Dict(inner) => AttributeType::Dict(Box::new(copy_type(inner))),
        }
}

/// Whether a type is the custom type with this name, base, check and namespace.
pub open spec fn is_custom(
    t: AttributeType,
    name: Seq<char>,
    base: AttributeType,
    k: Validator,
    namespace: Option<Seq<char>>,
) -> bool {
    match t {
        AttributeType::Custom { name: n, base: b, validate, namespace: ns } => n@ == name && *b
            == base && validate == k && opt_str_view(ns) == namespace,
        _ => false,
    }
}

/// The mathematical content of a type error.
pub enum TypeErrorModel {
    TypeMismatch { expected: Seq<char>, got: Seq<char> },
    InvalidEnumVariant { value: Seq<char>, expected: Seq<Seq<char>> },
    ValidationFailed { message: Seq<char> },
    MissingRequired { name: Seq<char> },
    UnknownAttribute { name: Seq<char> },
    ListItemError { index: usize, inner: Box<TypeErrorModel> },
    MapValueError { key: Seq<char>, inner: Box<TypeErrorModel> },
}

/// The character sequences of a list of strings.
pub open spec fn strings_view(v: Seq<String>) -> Seq<Seq<char>> {
    Seq::new(v.len(), |i: int| v[i]@)
}

pub open spec fn error_view(e: TypeError) -> TypeErrorModel
    decreases e,
{
    match e {
        TypeError::TypeMismatch { expected, got } => TypeErrorModel::TypeMismatch {
            expected: expected@,
            got: got@,
        },
        TypeError::InvalidEnumVariant { value, expected } => TypeErrorModel::InvalidEnumVariant {
            value: value@,
            expected: strings_view(expected@),
        },
        TypeError::ValidationFailed { message } => TypeErrorModel::ValidationFailed {
            message: message@,
        },
        TypeError::MissingRequired { name } => TypeErrorModel::MissingRequired { name: name@ },
        TypeError::UnknownAttribute { name } => TypeErrorModel::UnknownAttribute { name: name@ },
        TypeError::ListItemError { index, inner } => TypeErrorModel::ListItemError {
            index,
            inner: Box::new(error_view(*inner)),
        },
        TypeError::MapValueError { key, inner } => TypeErrorModel::MapValueError {
            key: key@,
            inner: Box::new(error_view(*inner)),
        },
    }
}

impl View for TypeError {
    type V = TypeErrorModel;

    open spec fn view(&self) -> TypeErrorModel {
        error_view(*self)
    }
}

/// The model of a validation outcome.
pub open spec fn check_view(r: Result<(), TypeError>) -> Result<(), TypeErrorModel> {
    match r {
        Ok(()) => Ok(()),
        Err(e) => Err(e@),
    }
}

/// The model of a custom check's outcome.
pub open spec fn msg_view(r: Result<(), String>) -> Result<(), Seq<char>> {
    match r {
        Ok(()) => Ok(()),
        Err(e) => Err(e@),
    }
}

// ---------------------------------------------------------------------------
// Type names
// ---------------------------------------------------------------------------

/// The name of an attribute type, as shown in error messages.
pub open spec fn type_label(t: AttributeType) -> Seq<char>
    decreases t,
{
    match t {
        AttributeType::String => "String"@,
        AttributeType::Int => "Int"@,
        AttributeType::Bool => "Bool"@,
        AttributeType::Enum(variants) => "Enum("@ + join(strings_view(variants@), " | "@) + ")"@,
        AttributeType::Custom { name, .. } => name@,
        AttributeType::List(inner) => "List<"@ + type_label(*inner) + ">"@,
        AttributeType::Dict(inner) => "Map<"@ + type_label(*inner) + ">"@,
    }
}

/// The name of a value's kind, as shown in error messages.
pub open spec fn value_type_name(v: ValueModel) -> Seq<char> {
    match v {
        ValueModel::Str(_) => "String"@,
        ValueModel::Int(_) => "Int"@,
        ValueModel::Bool(_) => "Bool"@,
        ValueModel::List(_) => "List"@,
        ValueModel::Dict(_) => "Map"@,
        ValueModel::ResourceRef(b, a) => "ResourceRef("@ + b + "."@ + a + ")"@,
        ValueModel::TypedResourceRef { binding_name, attribute_name, .. } => "TypedResourceRef("@
            + binding_name + "."@ + attribute_name + ")"@,
        ValueModel::UnresolvedIdent(n, m) => match m {
            Some(m) => "UnresolvedIdent("@ + n + "."@ + m + ")"@,
            None => "UnresolvedIdent("@ + n + ")"@,
        },
    }
}

/// A string built from the characters of three pieces.
fn concat3(a: &str, b: &[char], c: &str) -> (r: String)
    ensures
        r@ == a@ + b@ + c@,
{
    let mut s = str_to_string(a);
    push_chars(&mut s, b);
    push_str(&mut s, c);
    s
}

/// A string built from the characters of five pieces.
fn concat5(a: &str, b: &[char], c: &str, d: &[char], e: &str) -> (r: String)
    ensures
        r@ == a@ + b@ + c@ + d@ + e@,
{
    let mut s = str_to_string(a);
    push_chars(&mut s, b);
    push_str(&mut s, c);
    push_chars(&mut s, d);
    push_str(&mut s, e);
    s
}

/// The characters of each string.
fn strings_chars(v: &Vec<String>) -> (r: Vec<Vec<char>>)
    ensures
        views(r@) == strings_view(v@),
{
    let mut out: Vec<Vec<char>> = Vec::new();
    let mut i: usize = 0;
    while i < v.len()
        invariant
            i <= v.len(),
            out.len() == i,
            forall|j: int| 0 <= j < i ==> (#[trigger] out@[j])@ == v@[j]@,
        decreases v.len() - i,
    {
        out.push(chars_of(v[i].as_str()));
        i += 1;
    }
    proof {
        assert(views(out@) =~= strings_view(v@));
    }
    out
}

impl AttributeType {
    /// The name of the type, as shown in error messages (what `Display` prints).
    pub fn type_label(&self) -> (r: String)
        ensures
            r@ == type_label(*self),
        decreases self,
    {
        match self {
            AttributeType::String => str_to_string("String"),
            AttributeType::Int => str_to_string("Int"),
            AttributeType::Bool => str_to_string("Bool"),
            AttributeType::Enum(variants) => {
                let parts = strings_chars(variants);
                let sep = chars_of(" | ");
                let joined = join_chars(parts.as_slice(), sep.as_slice());
                concat3("Enum(", joined.as_slice(), ")")
            },
            AttributeType::Custom { name, .. } => copy_string(name),
            AttributeType::List(inner) => {
                let n = inner.type_label();
                let c = chars_of(n.as_str());
                concat3("List<", c.as_slice(), ">")
            },
            AttributeType::Dict(inner) => {
                let n = inner.type_label();
                let c = chars_of(n.as_str());
                concat3("Map<", c.as_slice(), ">")
            },
        }
    }
}

impl Value {
    /// The name of the value's kind, as shown in error messages.
    pub fn type_label(&self) -> (r: String)
        ensures
            r@ == value_type_name(self@),
    {
        match self {
            Value::String(_) => str_to_string("String"),
            Value::Int(_) => str_to_string("Int"),
            Value::Bool(_) => str_to_string("Bool"),
            Value::List(items) => {
                proof {
                    lemma_list_view(*items);
                }
                str_to_string("List")
            },
            Value::Dict(m) => {
                proof {
                    lemma_dict_view(*m);
                }
                str_to_string("Map")
            },
            Value::ResourceRef(b, a) => {
                let bc = chars_of(b.as_str());
                let ac = chars_of(a.as_str());
                concat5("ResourceRef(", bc.as_slice(), ".", ac.as_slice(), ")")
            },
            Value::TypedResourceRef { binding_name, attribute_name, .. } => {
                let bc = chars_of(binding_name.as_str());
                let ac = chars_of(attribute_name.as_str());
                concat5("TypedResourceRef(", bc.as_slice(), ".", ac.as_slice(), ")")
            },
            Value::UnresolvedIdent(n, m) => {
                let nc = chars_of(n.as_str());
                match m {
                    Some(m) => {
                        let mc = chars_of(m.as_str());
                        concat5("UnresolvedIdent(", nc.as_slice(), ".", mc.as_slice(), ")")
                    },
                    None => concat3("UnresolvedIdent(", nc.as_slice(), ")"),
                }
            },
        }
    }
}

// ---------------------------------------------------------------------------
// Custom checks
// ---------------------------------------------------------------------------

/// The outcome of the positive-integer check.
pub open spec fn spec_positive_int(v: ValueModel) -> Result<(), Seq<char>> {
    match v {
        ValueModel::Int(n) => if n > 0 {
            Ok(())
        } else {
            Err("Value must be positive"@)
        },
        _ => Err("Expected integer"@),
    }
}

pub fn check_positive_int(v: &Value) -> (r: Result<(), String>)
    ensures
        msg_view(r) == spec_positive_int(v@),
{
    match v {
        Value::Int(n) => if *n > 0 {
            Ok(())
        } else {
            Err(str_to_string("Value must be positive"))
        },
        Value::List(items) => {
            proof {
                lemma_list_view(*items);
            }
            Err(str_to_string("Expected integer"))
        },
        Value::Dict(m) => {
            proof {
                lemma_dict_view(*m);
            }
            Err(str_to_string("Expected integer"))
        },
        _ => Err(str_to_string("Expected integer")),
    }
}

/// The outcome of checking a CIDR block such as `10.0.0.0/16`.
pub open spec fn spec_validate_cidr(cidr: Seq<char>) -> Result<(), Seq<char>> {
    let parts = split(cidr, '/');
    if parts.len() != 2 {
        Err("Invalid CIDR format '"@ + cidr + "': expected IP/prefix"@)
    } else {
        let ip = parts[0];
        let prefix = parts[1];
        let octets = split(ip, '.');
        if octets.len() != 4 {
            Err("Invalid IP address '"@ + ip + "': expected 4 octets"@)
        } else if first_bad_octet(octets) < 4 {
            Err("Invalid octet '"@ + octets[first_bad_octet(octets)] + "' in IP address: must be 0-255"@)
        } else {
            match parse_u8(prefix) {
                Some(p) => if p <= 32 {
                    Ok(())
                } else {
                    Err("Invalid prefix length '"@ + nat_digits(p as nat) + "': must be 0-32"@)
                },
                None => Err("Invalid prefix length '"@ + prefix + "': must be a number"@),
            }
        }
    }
}

/// Index of the first piece that is not a `u8` (the length when there is none).
pub open spec fn first_bad_octet(octets: Seq<Seq<char>>) -> int
    decreases octets.len(),
{
    if octets.len() == 0 {
        0
    } else if parse_u8(octets[0]) is None {
        0
    } else {
        1 + first_bad_octet(octets.drop_first())
    }
}

pub proof fn lemma_first_bad_octet(octets: Seq<Seq<char>>, k: int)
    requires
        0 <= k <= octets.len(),
        forall|j: int| 0 <= j < k ==> parse_u8(#[trigger] octets[j]) is Some,
    ensures
        k < octets.len() && parse_u8(octets[k]) is None ==> first_bad_octet(octets) == k,
        k == octets.len() ==> first_bad_octet(octets) == k,
    decreases k,
{
    if k > 0 {
        let rest = octets.drop_first();
        assert forall|j: int| 0 <= j < k - 1 implies parse_u8(#[trigger] rest[j]) is Some by {
            assert(rest[j] == octets[j + 1]);
        }
        lemma_first_bad_octet(rest, k - 1);
        assert(parse_u8(octets[0]) is Some);
    }
}

/// Validate CIDR block format (e.g., "10.0.0.0/16")
#[verifier::loop_isolation(false)]
pub fn validate_cidr(cidr: &str) -> (r: Result<(), String>)
    ensures
        msg_view(r) == spec_validate_cidr(cidr@),
{
    let c = chars_of(cidr);
    let parts = split_chars(c.as_slice(), '/');
    if parts.len() != 2 {
        return Err(concat3("Invalid CIDR format '", c.as_slice(), "': expected IP/prefix"));
    }
    let ip = &parts[0];
    let prefix = &parts[1];
    proof {
        assert(views(parts@)[0] == ip@);
        assert(views(parts@)[1] == prefix@);
    }
    let octets = split_chars(ip.as_slice(), '.');
    if octets.len() != 4 {
        return Err(concat3("Invalid IP address '", ip.as_slice(), "': expected 4 octets"));
    }
    let mut i: usize = 0;
    while i < 4
        invariant
            i <= 4,
            octets.len() == 4,
            forall|j: int| 0 <= j < i ==> parse_u8(#[trigger] views(octets@)[j]) is Some,
        decreases 4 - i,
    {
        let o = &octets[i];
        proof {
            assert(views(octets@)[i as int] == o@);
        }
        if parse_u8_chars(o.as_slice()).is_none() {
            proof {
                lemma_first_bad_octet(views(octets@), i as int);
            }
            return Err(concat3("Invalid octet '", o.as_slice(), "' in IP address: must be 0-255"));
        }
        i += 1;
    }
    proof {
        lemma_first_bad_octet(views(octets@), 4);
    }
    match parse_u8_chars(prefix.as_slice()) {
        Some(p) => if p <= 32 {
            Ok(())
        } else {
            let d = usize_text(p as usize);
            Err(concat3("Invalid prefix length '", d.as_slice(), "': must be 0-32"))
        },
        None => Err(concat3("Invalid prefix length '", prefix.as_slice(), "': must be a number")),
    }
}

/// The outcome of the CIDR check on a value.
pub open spec fn spec_cidr(v: ValueModel) -> Result<(), Seq<char>> {
    match v {
        ValueModel::Str(s) => spec_validate_cidr(s),
        _ => Err("Expected string"@),
    }
}

pub fn check_cidr(v: &Value) -> (r: Result<(), String>)
    ensures
        msg_view(r) == spec_cidr(v@),
{
    match v {
        Value::String(s) => validate_cidr(s.as_str()),
        Value::List(items) => {
            proof {
                lemma_list_view(*items);
            }
            Err(str_to_string("Expected string"))
        },
        Value::Dict(m) => {
            proof {
                lemma_dict_view(*m);
            }
            Err(str_to_string("Expected string"))
        },
        _ => Err(str_to_string("Expected string")),
    }
}

/// The outcome of a custom check on a value.
pub open spec fn validator_check(k: Validator, v: ValueModel) -> Result<(), Seq<char>> {
    match k {
        Validator::PositiveInt => spec_positive_int(v),
        Validator::Cidr => spec_cidr(v),
        Validator::CidrBlock => spec_cidr_block(v),
        Validator::PortNumber => spec_port_number(v),
        Validator::AwsRegion => spec_aws_region(v),
        Validator::VersioningStatus => spec_versioning_status(v),
        Validator::S3BucketName => spec_s3_bucket_name(v),
    }
}

impl Validator {
    /// Runs the check on a value.
    pub fn run(&self, v: &Value) -> (r: Result<(), String>)
        ensures
            msg_view(r) == validator_check(*self, v@),
    {
        match self {
            Validator::PositiveInt => check_positive_int(v),
            Validator::Cidr => check_cidr(v),
            Validator::CidrBlock => check_cidr_block(v),
            Validator::PortNumber => check_port_number(v),
            Validator::AwsRegion => check_aws_region(v),
            Validator::VersioningStatus => check_versioning_status(v),
            Validator::S3BucketName => check_s3_bucket_name(v),
        }
    }
}

// ---------------------------------------------------------------------------
// Type checking
// ---------------------------------------------------------------------------

/// The string an unresolved identifier stands for under a custom type with
/// the given name and namespace.
pub open spec fn expand_ident(
    name: Seq<char>,
    namespace: Option<Seq<char>>,
    ident: Seq<char>,
    member: Option<Seq<char>>,
) -> Seq<char> {
    match (namespace, member) {
        (Some(ns), Some(m)) => if ident == name {
            ns + "."@ + ident + "."@ + m
        } else {
            ident + "."@ + m
        },
        (Some(ns), None) => ns + "."@ + name + "."@ + ident,
        (None, Some(m)) => ident + "."@ + m,
        (None, None) => ident,
    }
}

/// The value a custom type checks: an unresolved identifier expanded, any
/// other value unchanged.
pub open spec fn resolve_for_custom(
    name: Seq<char>,
    namespace: Option<Seq<char>>,
    v: ValueModel,
) -> ValueModel {
    match v {
        ValueModel::UnresolvedIdent(ident, member) => ValueModel::Str(
            expand_ident(name, namespace, ident, member),
        ),
        _ => v,
    }
}

/// Whether an enum accepts a string: a variant equals the whole string or
/// its last dot-separated piece.
pub open spec fn enum_accepts(variants: Seq<Seq<char>>, s: Seq<char>) -> bool {
    exists|i: int|
        0 <= i < variants.len() && (variants[i] == last_piece(s, '.') || variants[i] == s)
}

/// The outcome of checking a value against an attribute type.
pub open spec fn type_check(t: AttributeType, v: ValueModel) -> Result<(), TypeErrorModel>
    decreases t, 0nat, 0nat,
{
    match (t, v) {
        (AttributeType::String, ValueModel::Str(_)) => Ok(()),
        (AttributeType::String, ValueModel::ResourceRef(_, _)) => Ok(()),
        (AttributeType::Int, ValueModel::Int(_)) => Ok(()),
        (AttributeType::Bool, ValueModel::Bool(_)) => Ok(()),
        (AttributeType::Enum(variants), ValueModel::Str(s)) => if enum_accepts(
            strings_view(variants@),
            s,
        ) {
            Ok(())
        } else {
            Err(TypeErrorModel::InvalidEnumVariant { value: s, expected: strings_view(variants@) })
        },
        (AttributeType::Custom { name, validate, namespace, .. }, v) => match validator_check(
            validate,
            resolve_for_custom(name@, opt_str_view(namespace), v),
        ) {
            Ok(()) => Ok(()),
            Err(m) => Err(TypeErrorModel::ValidationFailed { message: m }),
        },
        (AttributeType::List(inner), ValueModel::List(items)) => check_items(*inner, items, 0),
        (AttributeType::Dict(inner), ValueModel::Dict(entries)) => check_entries(*inner, entries, 0),
        _ => Err(TypeErrorModel::TypeMismatch { expected: type_label(t), got: value_type_name(v) }),
    }
}

/// The outcome of checking list items from index `i` on.
pub open spec fn check_items(t: AttributeType, items: Seq<ValueModel>, i: nat) -> Result<
    (),
    TypeErrorModel,
>
    decreases t, 1nat, items.len() - i,
{
    if i >= items.len() {
        Ok(())
    } else {
        match type_check(t, items[i as int]) {
            Ok(()) => check_items(t, items, i + 1),
            Err(e) => Err(TypeErrorModel::ListItemError { index: i as usize, inner: Box::new(e) }),
        }
    }
}

/// The outcome of checking map values from entry `i` on.
pub open spec fn check_entries(t: AttributeType, entries: Seq<(Seq<char>, ValueModel)>, i: nat) -> Result<
    (),
    TypeErrorModel,
>
    decreases t, 1nat, entries.len() - i,
{
    if i >= entries.len() {
        Ok(())
    } else {
        match type_check(t, entries[i as int].1) {
            Ok(()) => check_entries(t, entries, i + 1),
            Err(e) => Err(
                TypeErrorModel::MapValueError { key: entries[i as int].0, inner: Box::new(e) },
            ),
        }
    }
}

proof fn lemma_check_entries_from(t: AttributeType, entries: Seq<(Seq<char>, ValueModel)>, i: nat)
    requires
        i <= entries.len(),
    ensures
        check_entries(t, entries, i) is Ok <==> forall|j: int|
            i <= j < entries.len() ==> (#[trigger] type_check(t, entries[j].1)) is Ok,
        check_entries(t, entries, i) is Err ==> exists|j: int|
            i <= j < entries.len() && (forall|k: int| i <= k < j ==> (#[trigger] type_check(t, entries[k].1)) is Ok)
                && (#[trigger] type_check(t, entries[j].1)) is Err && check_entries(t, entries, i) == Err::<(), TypeErrorModel>(
                TypeErrorModel::MapValueError {
                    key: entries[j].0,
                    inner: Box::new(type_check(t, entries[j].1)->Err_0),
                },
            ),
    decreases entries.len() - i,
{
    if i < entries.len() {
        lemma_check_entries_from(t, entries, i + 1);
        if type_check(t, entries[i as int].1) is Ok && check_entries(t, entries, i + 1) is Err {
            let j = choose|j: int|
                i + 1 <= j < entries.len() && (forall|k: int| i + 1 <= k < j ==> (#[trigger] type_check(t, entries[k].1)) is Ok)
                    && (#[trigger] type_check(t, entries[j].1)) is Err && check_entries(t, entries, i + 1) == Err::<(), TypeErrorModel>(
                    TypeErrorModel::MapValueError {
                        key: entries[j].0,
                        inner: Box::new(type_check(t, entries[j].1)->Err_0),
                    },
                );
            assert forall|k: int| i <= k < j implies (#[trigger] type_check(t, entries[k].1)) is Ok by {
                if k > i {
                    assert(i + 1 <= k < j);
                }
            }
        }
    }
}

/// A map value passes its type exactly when every value passes the map's
/// value type; where one does not, the first that fails is reported under
/// its key, with its own error.
pub proof fn lemma_dict_check(t: AttributeType, entries: Seq<(Seq<char>, ValueModel)>)
    ensures
        type_check(AttributeType::Dict(Box::new(t)), ValueModel::Dict(entries)) is Ok <==> forall|j: int|
            0 <= j < entries.len() ==> (#[trigger] type_check(t, entries[j].1)) is Ok,
        type_check(AttributeType::Dict(Box::new(t)), ValueModel::Dict(entries)) is Err ==> exists|j: int|
            0 <= j < entries.len() && (forall|k: int| 0 <= k < j ==> (#[trigger] type_check(t, entries[k].1)) is Ok)
                && (#[trigger] type_check(t, entries[j].1)) is Err && type_check(
                AttributeType::Dict(Box::new(t)),
                ValueModel::Dict(entries),
            ) == Err::<(), TypeErrorModel>(
                TypeErrorModel::MapValueError {
                    key: entries[j].0,
                    inner: Box::new(type_check(t, entries[j].1)->Err_0),
                },
            ),
{
    lemma_check_entries_from(t, entries, 0);
}

proof fn lemma_check_items_from(t: AttributeType, items: Seq<ValueModel>, i: nat)
    requires
        i <= items.len(),
    ensures
        check_items(t, items, i) is Ok <==> forall|j: int|
            i <= j < items.len() ==> (#[trigger] type_check(t, items[j])) is Ok,
        check_items(t, items, i) is Err ==> exists|j: int|
            i <= j < items.len() && (forall|k: int| i <= k < j ==> (#[trigger] type_check(t, items[k])) is Ok)
                && (#[trigger] type_check(t, items[j])) is Err && check_items(t, items, i) == Err::<(), TypeErrorModel>(
                TypeErrorModel::ListItemError {
                    index: j as usize,
                    inner: Box::new(type_check(t, items[j])->Err_0),
                },
            ),
    decreases items.len() - i,
{
    if i < items.len() {
        lemma_check_items_from(t, items, i + 1);
        if type_check(t, items[i as int]) is Ok && check_items(t, items, i + 1) is Err {
            let j = choose|j: int|
                i + 1 <= j < items.len() && (forall|k: int| i + 1 <= k < j ==> (#[trigger] type_check(t, items[k])) is Ok)
                    && (#[trigger] type_check(t, items[j])) is Err && check_items(t, items, i + 1) == Err::<(), TypeErrorModel>(
                    TypeErrorModel::ListItemError {
                        index: j as usize,
                        inner: Box::new(type_check(t, items[j])->Err_0),
                    },
                );
            assert forall|k: int| i <= k < j implies (#[trigger] type_check(t, items[k])) is Ok by {
                if k > i {
                    assert(i + 1 <= k < j);
                }
            }
        }
    }
}

/// A list value passes its type exactly when every item passes the list's
/// item type; where one does not, the first that fails is reported at its
/// index, with its own error.
pub proof fn lemma_list_check(t: AttributeType, items: Seq<ValueModel>)
    ensures
        type_check(AttributeType::List(Box::new(t)), ValueModel::List(items)) is Ok <==> forall|j: int|
            0 <= j < items.len() ==> (#[trigger] type_check(t, items[j])) is Ok,
        type_check(AttributeType::List(Box::new(t)), ValueModel::List(items)) is Err ==> exists|j: int|
            0 <= j < items.len() && (forall|k: int| 0 <= k < j ==> (#[trigger] type_check(t, items[k])) is Ok)
                && (#[trigger] type_check(t, items[j])) is Err && type_check(
                AttributeType::List(Box::new(t)),
                ValueModel::List(items),
            ) == Err::<(), TypeErrorModel>(
                TypeErrorModel::ListItemError {
                    index: j as usize,
                    inner: Box::new(type_check(t, items[j])->Err_0),
                },
            ),
{
    lemma_check_items_from(t, items, 0);
}

/// The string an unresolved identifier stands for (executable form of `expand_ident`).
fn expand_ident_exec(
    name: &String,
    namespace: &Option<String>,
    ident: &String,
    member: &Option<String>,
) -> (r: String)
    ensures
        r@ == expand_ident(name@, opt_str_view(*namespace), ident@, opt_str_view(*member)),
{
    let dot = chars_of(".");
    match (namespace, member) {
        (Some(ns), Some(m)) => {
            if str_eq_string(ident, name) {
                let mut s = copy_string(ns);
                push_chars(&mut s, dot.as_slice());
                push_str(&mut s, ident.as_str());
                push_chars(&mut s, dot.as_slice());
                push_str(&mut s, m.as_str());
                s
            } else {
                let mut s = copy_string(ident);
                push_chars(&mut s, dot.as_slice());
                push_str(&mut s, m.as_str());
                s
            }
        },
        (Some(ns), None) => {
            let mut s = copy_string(ns);
            push_chars(&mut s, dot.as_slice());
            push_str(&mut s, name.as_str());
            push_chars(&mut s, dot.as_slice());
            push_str(&mut s, ident.as_str());
            s
        },
        (None, Some(m)) => {
            let mut s = copy_string(ident);
            push_chars(&mut s, dot.as_slice());
            push_str(&mut s, m.as_str());
            s
        },
        (None, None) => copy_string(ident),
    }
}

/// Whether two strings hold the same characters.
pub fn str_eq_string(a: &String, b: &String) -> (r: bool)
    ensures
        r == (a@ == b@),
{
    crate::text::str_eq(a.as_str(), b.as_str())
}

/// Whether an enum's variants accept a string.
#[verifier::loop_isolation(false)]
fn enum_accepts_exec(variants: &Vec<String>, s: &String) -> (r: bool)
    ensures
        r == enum_accepts(strings_view(variants@), s@),
{
    let sc = chars_of(s.as_str());
    let variant = last_piece_chars(sc.as_slice(), '.');
    let mut i: usize = 0;
    while i < variants.len()
        invariant
            i <= variants.len(),
            forall|j: int|
                0 <= j < i ==> !(variants@[j]@ == last_piece(s@, '.') || variants@[j]@ == s@),
        decreases variants.len() - i,
    {
        let vc = chars_of(variants[i].as_str());
        if chars_eq(vc.as_slice(), variant.as_slice()) || chars_eq(vc.as_slice(), sc.as_slice()) {
            proof {
                assert(strings_view(variants@)[i as int] == variants@[i as int]@);
            }
            return true;
        }
        i += 1;
    }
    proof {
        let vs = strings_view(variants@);
        assert forall|j: int| 0 <= j < vs.len() implies !(vs[j] == last_piece(s@, '.') || vs[j]
            == s@) by {
            assert(vs[j] == variants@[j]@);
        }
    }
    false
}

/// A copy of a list of strings.
pub fn copy_strings(v: &Vec<String>) -> (r: Vec<String>)
    ensures
        strings_view(r@) == strings_view(v@),
        r.len() == v.len(),
{
    let mut out: Vec<String> = Vec::new();
    let mut i: usize = 0;
    while i < v.len()
        invariant
            i <= v.len(),
            out.len() == i,
            forall|j: int| 0 <= j < i ==> (#[trigger] out@[j])@ == v@[j]@,
        decreases v.len() - i,
    {
        out.push(copy_string(&v[i]));
        i += 1;
    }
    proof {
        assert(strings_view(out@) =~= strings_view(v@));
    }
    out
}

impl AttributeType {
    /// Check if a value conforms to this type
    #[verifier::loop_isolation(false)]
    pub fn validate(&self, value: &Value) -> (r: Result<(), TypeError>)
        ensures
            check_view(r) == type_check(*self, value@),
        decreases self,
    {
        match (self, value) {
            (AttributeType::String, Value::String(_)) => Ok(()),
            (AttributeType::String, Value::ResourceRef(_, _)) => Ok(()),
            (AttributeType::Int, Value::Int(_)) => Ok(()),
            (AttributeType::Bool, Value::Bool(_)) => Ok(()),
            (AttributeType::Enum(variants), Value::String(s)) => {
                if enum_accepts_exec(variants, s) {
                    Ok(())
                } else {
                    Err(
                        TypeError::InvalidEnumVariant {
                            value: copy_string(s),
                            expected: copy_strings(variants),
                        },
                    )
                }
            },
            (AttributeType::Custom { validate, name, namespace, .. }, v) => {
                let resolved = match v {
                    Value::UnresolvedIdent(ident, member) => Value::String(
                        expand_ident_exec(name, namespace, ident, member),
                    ),
                    _ => copy_value(v),
                };
                match validate.run(&resolved) {
                    Ok(()) => Ok(()),
                    Err(msg) => Err(TypeError::ValidationFailed { message: msg }),
                }
            },
            (AttributeType::List(inner), Value::List(items)) => {
                proof {
                    lemma_list_view(*items);
                }
                let ghost ivs = crate::resource::values_view(items@);
                let mut i: usize = 0;
                while i < items.len()
                    invariant
                        i <= items.len(),
                        ivs.len() == items.len(),
                        forall|j: int| 0 <= j < items.len() ==> ivs[j] == (#[trigger] items@[j])@,
                        check_items(**inner, ivs, 0) == check_items(**inner, ivs, i as nat),
                    decreases items.len() - i,
                {
                    match inner.validate(&items[i]) {
                        Ok(()) => {},
                        Err(e) => {
                            return Err(TypeError::ListItemError { index: i, inner: Box::new(e) });
                        },
                    }
                    i += 1;
                }
                Ok(())
            },
            (AttributeType::Dict(inner), Value::Dict(m)) => {
                proof {
                    lemma_dict_view(*m);
                }
                let ghost evs = m@;
                let mut i: usize = 0;
                while i < m.entries.len()
                    invariant
                        i <= m.entries.len(),
                        evs == m@,
                        check_entries(**inner, evs, 0) == check_entries(**inner, evs, i as nat),
                    decreases m.entries.len() - i,
                {
                    match inner.validate(&m.entries[i].1) {
                        Ok(()) => {},
                        Err(e) => {
                            return Err(
                                TypeError::MapValueError {
                                    key: copy_string(&m.entries[i].0),
                                    inner: Box::new(e),
                                },
                            );
                        },
                    }
                    i += 1;
                }
                Ok(())
            },
            _ => {
                let expected = self.type_label();
                let got = value.type_label();
                proof {
                    match value {
                        Value::List(items) => lemma_list_view(*items),
                        Value::Dict(m) => lemma_dict_view(*m),
                        _ => {},
                    }
                }
                Err(TypeError::TypeMismatch { expected, got })
            },
        }
    }
}

// ---------------------------------------------------------------------------
// Error messages
// ---------------------------------------------------------------------------

/// The message of a type error (what `Display` prints).
pub open spec fn error_message(e: TypeErrorModel) -> Seq<char>
    decreases e,
{
    match e {
        TypeErrorModel::TypeMismatch { expected, got } => "Type mismatch: expected "@ + expected
            + ", got "@ + got,
        TypeErrorModel::InvalidEnumVariant { value, expected } => "Invalid enum variant '"@ + value
            + "', expected one of: "@ + join(expected, ", "@),
        TypeErrorModel::ValidationFailed { message } => "Validation failed: "@ + message,
        TypeErrorModel::MissingRequired { name } => "Required attribute '"@ + name
            + "' is missing"@,
        TypeErrorModel::UnknownAttribute { name } => "Unknown attribute '"@ + name + "'"@,
        TypeErrorModel::ListItemError { index, inner } => "List item at index "@ + nat_digits(
            index as nat,
        ) + ": "@ + error_message(*inner),
        TypeErrorModel::MapValueError { key, inner } => "Map value for key '"@ + key + "': "@
            + error_message(*inner),
    }
}

impl TypeError {
    /// The message of the error.
    pub fn message(&self) -> (r: String)
        ensures
            r@ == error_message(self@),
        decreases self,
    {
        match self {
            TypeError::TypeMismatch { expected, got } => {
                let e = chars_of(expected.as_str());
                let g = chars_of(got.as_str());
                let mut s = concat3("Type mismatch: expected ", e.as_slice(), ", got ");
                push_chars(&mut s, g.as_slice());
                s
            },
            TypeError::InvalidEnumVariant { value, expected } => {
                let v = chars_of(value.as_str());
                let parts = strings_chars(expected);
                let sep = chars_of(", ");
                let joined = join_chars(parts.as_slice(), sep.as_slice());
                let mut s = concat3("Invalid enum variant '", v.as_slice(), "', expected one of: ");
                push_chars(&mut s, joined.as_slice());
                s
            },
            TypeError::ValidationFailed { message } => {
                let mut s = str_to_string("Validation failed: ");
                push_str(&mut s, message.as_str());
                s
            },
            TypeError::MissingRequired { name } => {
                let n = chars_of(name.as_str());
                concat3("Required attribute '", n.as_slice(), "' is missing")
            },
            TypeError::UnknownAttribute { name } => {
                let n = chars_of(name.as_str());
                concat3("Unknown attribute '", n.as_slice(), "'")
            },
            TypeError::ListItemError { index, inner } => {
                let d = usize_text(*index);
                let m = inner.message();
                let mut s = concat3("List item at index ", d.as_slice(), ": ");
                push_str(&mut s, m.as_str());
                s
            },
            TypeError::MapValueError { key, inner } => {
                let k = chars_of(key.as_str());
                let m = inner.message();
                let mut s = concat3("Map value for key '", k.as_slice(), "': ");
                push_str(&mut s, m.as_str());
                s
            },
        }
    }
}

// ---------------------------------------------------------------------------
// Attribute and resource schemas
// ---------------------------------------------------------------------------

/// Completion value for LSP completions
#[derive(Debug, Clone)]
pub struct CompletionValue {
    /// The value to insert (e.g., "aws.vpc.InstanceTenancy.default")
    pub value: String,
    /// Description shown in completion popup
    pub description: String,
}

impl CompletionValue {
    pub fn new(value: &str, description: &str) -> (r: Self)
        ensures
            r.value@ == value@,
            r.description@ == description@,
    {
        CompletionValue { value: str_to_string(value), description: str_to_string(description) }
    }
}

/// Attribute schema
#[derive(Debug, Clone)]
pub struct AttributeSchema {
    pub name: String,
    pub attr_type: AttributeType,
    pub required: bool,
    pub default: Option<Value>,
    pub description: Option<String>,
    /// Completion values for this attribute (used by LSP)
    pub completions: Option<Vec<CompletionValue>>,
    /// Provider-side property name (e.g., "VpcId" for AWS Cloud Control)
    pub provider_name: Option<String>,
}

impl AttributeSchema {
    pub fn new(name: &str, attr_type: AttributeType) -> (r: Self)
        ensures
            r.name@ == name@,
            r.attr_type == attr_type,
            !r.required,
            r.default is None,
            r.description is None,
            r.completions is None,
            r.provider_name is None,
    {
        AttributeSchema {
            name: str_to_string(name),
            attr_type,
            required: false,
            default: None,
            description: None,
            completions: None,
            provider_name: None,
        }
    }

    /// The schema marked as required.
    pub fn required(self) -> (r: Self)
        ensures
            r == (AttributeSchema { required: true, ..self }),
    {
        let mut r = self;
        r.required = true;
        r
    }

    /// The schema with a default value.
    pub fn with_default(self, value: Value) -> (r: Self)
        ensures
            r == (AttributeSchema { default: Some(value), ..self }),
    {
        let mut r = self;
        r.default = Some(value);
        r
    }

    /// The schema with a description.
    pub fn with_description(self, desc: &str) -> (r: Self)
        ensures
            r.description matches Some(d) && d@ == desc@,
            r == (AttributeSchema { description: r.description, ..self }),
    {
        let mut r = self;
        r.description = Some(str_to_string(desc));
        r
    }

    /// The schema with completion values.
    pub fn with_completions(self, completions: Vec<CompletionValue>) -> (r: Self)
        ensures
            r == (AttributeSchema { completions: Some(completions), ..self }),
    {
        let mut r = self;
        r.completions = Some(completions);
        r
    }

    /// The schema with the provider-side property name.
    pub fn with_provider_name(self, name: &str) -> (r: Self)
        ensures
            r.provider_name matches Some(n) && n@ == name@,
            r == (AttributeSchema { provider_name: r.provider_name, ..self }),
    {
        let mut r = self;
        r.provider_name = Some(str_to_string(name));
        r
    }
}

/// Resource schema
#[derive(Debug, Clone)]
pub struct ResourceSchema {
    pub resource_type: String,
    /// Attribute schemas, one per name, in the order their names were first added.
    pub attributes: Vec<AttributeSchema>,
    pub description: Option<String>,
}

/// The first attribute schema with the given name.
pub open spec fn find_schema(schemas: Seq<AttributeSchema>, name: Seq<char>) -> Option<
    AttributeSchema,
>
    decreases schemas.len(),
{
    if schemas.len() == 0 {
        None
    } else if schemas[0].name@ == name {
        Some(schemas[0])
    } else {
        find_schema(schemas.drop_first(), name)
    }
}

/// The schema list after adding a schema: it replaces the first one with its
/// name, or is appended.
pub open spec fn add_schema(schemas: Seq<AttributeSchema>, s: AttributeSchema) -> Seq<
    AttributeSchema,
>
    decreases schemas.len(),
{
    if schemas.len() == 0 {
        seq![s]
    } else if schemas[0].name@ == s.name@ {
        schemas.update(0, s)
    } else {
        seq![schemas[0]] + add_schema(schemas.drop_first(), s)
    }
}

/// Errors for required attributes that are absent and have no default, in schema order.
pub open spec fn missing_required(
    schemas: Seq<AttributeSchema>,
    attrs: Seq<(Seq<char>, ValueModel)>,
) -> Seq<TypeErrorModel>
    decreases schemas.len(),
{
    if schemas.len() == 0 {
        Seq::empty()
    } else {
        let s = schemas.last();
        let rest = missing_required(schemas.drop_last(), attrs);
        if s.required && !has_key(attrs, s.name@) && s.default is None {
            rest.push(TypeErrorModel::MissingRequired { name: s.name@ })
        } else {
            rest
        }
    }
}

/// Type errors of attributes that have a schema, in attribute order.
pub open spec fn attribute_errors(
    schemas: Seq<AttributeSchema>,
    attrs: Seq<(Seq<char>, ValueModel)>,
) -> Seq<TypeErrorModel>
    decreases attrs.len(),
{
    if attrs.len() == 0 {
        Seq::empty()
    } else {
        let (k, v) = attrs.last();
        let rest = attribute_errors(schemas, attrs.drop_last());
        match find_schema(schemas, k) {
            Some(sc) => match type_check(sc.attr_type, v) {
                Err(e) => rest.push(e),
                Ok(()) => rest,
            },
            None => rest,
        }
    }
}

/// The outcome of validating attributes against a schema list.
pub open spec fn schema_check(schemas: Seq<AttributeSchema>, attrs: Seq<(Seq<char>, ValueModel)>) -> Result<
    (),
    Seq<TypeErrorModel>,
> {
    let errors = missing_required(schemas, attrs) + attribute_errors(schemas, attrs);
    if errors.len() == 0 {
        Ok(())
    } else {
        Err(errors)
    }
}

proof fn lemma_missing_required_empty(schemas: Seq<AttributeSchema>, attrs: Seq<(Seq<char>, ValueModel)>)
    ensures
        missing_required(schemas, attrs).len() == 0 <==> forall|i: int|
            0 <= i < schemas.len() ==> !((#[trigger] schemas[i]).required && !has_key(attrs, schemas[i].name@)
                && schemas[i].default is None),
    decreases schemas.len(),
{
    if schemas.len() > 0 {
        lemma_missing_required_empty(schemas.drop_last(), attrs);
        assert forall|i: int| 0 <= i < schemas.len() - 1 implies schemas.drop_last()[i] == schemas[i] by {}
        if missing_required(schemas, attrs).len() == 0 {
            assert forall|i: int| 0 <= i < schemas.len() implies !((#[trigger] schemas[i]).required && !has_key(
                attrs,
                schemas[i].name@,
            ) && schemas[i].default is None) by {
                if i < schemas.len() - 1 {
                    assert(schemas.drop_last()[i] == schemas[i]);
                }
            }
        } else {
            let s = schemas.last();
            if !(s.required && !has_key(attrs, s.name@) && s.default is None) {
                let i = choose|i: int| 0 <= i < schemas.drop_last().len() && ((#[trigger] schemas.drop_last()[i]).required
                    && !has_key(attrs, schemas.drop_last()[i].name@) && schemas.drop_last()[i].default is None);
                assert(schemas[i] == schemas.drop_last()[i]);
            } else {
                assert(schemas[schemas.len() - 1] == s);
            }
        }
    }
}

proof fn lemma_attribute_errors_empty(schemas: Seq<AttributeSchema>, attrs: Seq<(Seq<char>, ValueModel)>)
    ensures
        attribute_errors(schemas, attrs).len() == 0 <==> forall|i: int|
            0 <= i < attrs.len() ==> (match find_schema(schemas, (#[trigger] attrs[i]).0) {
                Some(sc) => type_check(sc.attr_type, attrs[i].1) is Ok,
                None => true,
            }),
    decreases attrs.len(),
{
    if attrs.len() > 0 {
        lemma_attribute_errors_empty(schemas, attrs.drop_last());
        if attribute_errors(schemas, attrs).len() == 0 {
            assert forall|i: int| 0 <= i < attrs.len() implies (match find_schema(schemas, (#[trigger] attrs[i]).0) {
                Some(sc) => type_check(sc.attr_type, attrs[i].1) is Ok,
                None => true,
            }) by {
                if i < attrs.len() - 1 {
                    assert(attrs.drop_last()[i] == attrs[i]);
                }
            }
        } else {
            let (k, v) = attrs.last();
            let ok_last = match find_schema(schemas, k) {
                Some(sc) => type_check(sc.attr_type, v) is Ok,
                None => true,
            };
            if ok_last {
                let i = choose|i: int| 0 <= i < attrs.drop_last().len() && !(match find_schema(schemas, (#[trigger] attrs.drop_last()[i]).0) {
                    Some(sc) => type_check(sc.attr_type, attrs.drop_last()[i].1) is Ok,
                    None => true,
                });
                assert(attrs[i] == attrs.drop_last()[i]);
            } else {
                assert(attrs[attrs.len() - 1] == attrs.last());
            }
        }
    }
}

/// Validation succeeds exactly when every required attribute without a
/// default is given and every given attribute that the schema knows has a
/// value of its type.
pub proof fn lemma_schema_check_ok(schemas: Seq<AttributeSchema>, attrs: Seq<(Seq<char>, ValueModel)>)
    ensures
        schema_check(schemas, attrs) is Ok <==> (forall|i: int|
            0 <= i < schemas.len() ==> !((#[trigger] schemas[i]).required && !has_key(attrs, schemas[i].name@)
                && schemas[i].default is None)) && (forall|i: int|
            0 <= i < attrs.len() ==> (match find_schema(schemas, (#[trigger] attrs[i]).0) {
                Some(sc) => type_check(sc.attr_type, attrs[i].1) is Ok,
                None => true,
            })),
{
    lemma_missing_required_empty(schemas, attrs);
    lemma_attribute_errors_empty(schemas, attrs);
}

/// The models of a list of type errors.
pub open spec fn errors_view(v: Seq<TypeError>) -> Seq<TypeErrorModel> {
    Seq::new(v.len(), |i: int| v[i]@)
}

pub proof fn lemma_find_schema_first(schemas: Seq<AttributeSchema>, name: Seq<char>, i: int)
    requires
        0 <= i < schemas.len(),
        schemas[i].name@ == name,
        forall|j: int| 0 <= j < i ==> schemas[j].name@ != name,
    ensures
        find_schema(schemas, name) == Some(schemas[i]),
    decreases i,
{
    if i > 0 {
        let rest = schemas.drop_first();
        assert forall|j: int| 0 <= j < i - 1 implies rest[j].name@ != name by {
            assert(rest[j] == schemas[j + 1]);
        }
        lemma_find_schema_first(rest, name, i - 1);
    }
}

pub proof fn lemma_find_schema_none(schemas: Seq<AttributeSchema>, name: Seq<char>)
    requires
        forall|j: int| 0 <= j < schemas.len() ==> schemas[j].name@ != name,
    ensures
        find_schema(schemas, name) is None,
    decreases schemas.len(),
{
    if schemas.len() > 0 {
        let rest = schemas.drop_first();
        assert forall|j: int| 0 <= j < rest.len() implies rest[j].name@ != name by {
            assert(rest[j] == schemas[j + 1]);
        }
        lemma_find_schema_none(rest, name);
    }
}

pub proof fn lemma_add_schema_at(schemas: Seq<AttributeSchema>, s: AttributeSchema, i: int)
    requires
        0 <= i < schemas.len(),
        schemas[i].name@ == s.name@,
        forall|j: int| 0 <= j < i ==> schemas[j].name@ != s.name@,
    ensures
        add_schema(schemas, s) == schemas.update(i, s),
    decreases i,
{
    if i > 0 {
        let rest = schemas.drop_first();
        assert forall|j: int| 0 <= j < i - 1 implies rest[j].name@ != s.name@ by {
            assert(rest[j] == schemas[j + 1]);
        }
        lemma_add_schema_at(rest, s, i - 1);
        assert(seq![schemas[0]] + rest.update(i - 1, s) =~= schemas.update(i, s));
    }
}

pub proof fn lemma_add_schema_new(schemas: Seq<AttributeSchema>, s: AttributeSchema)
    requires
        forall|j: int| 0 <= j < schemas.len() ==> schemas[j].name@ != s.name@,
    ensures
        add_schema(schemas, s) == schemas.push(s),
    decreases schemas.len(),
{
    if schemas.len() > 0 {
        let rest = schemas.drop_first();
        assert forall|j: int| 0 <= j < rest.len() implies rest[j].name@ != s.name@ by {
            assert(rest[j] == schemas[j + 1]);
        }
        lemma_add_schema_new(rest, s);
        assert(seq![schemas[0]] + rest.push(s) =~= schemas.push(s));
    }
}

impl ResourceSchema {
    pub fn new(resource_type: &str) -> (r: Self)
        ensures
            r.resource_type@ == resource_type@,
            r.attributes@ == Seq::<AttributeSchema>::empty(),
            r.description is None,
    {
        ResourceSchema {
            resource_type: str_to_string(resource_type),
            attributes: Vec::new(),
            description: None,
        }
    }

    /// Index of the attribute schema with the given name.
    pub fn position(&self, name: &str) -> (r: Option<usize>)
        ensures
            match r {
                Some(i) => i < self.attributes.len() && self.attributes@[i as int].name@ == name@
                    && forall|j: int| 0 <= j < i ==> self.attributes@[j].name@ != name@,
                None => forall|j: int|
                    0 <= j < self.attributes.len() ==> self.attributes@[j].name@ != name@,
            },
    {
        let mut i: usize = 0;
        while i < self.attributes.len()
            invariant
                i <= self.attributes.len(),
                forall|j: int| 0 <= j < i ==> self.attributes@[j].name@ != name@,
            decreases self.attributes.len() - i,
        {
            if crate::text::str_eq(self.attributes[i].name.as_str(), name) {
                return Some(i);
            }
            i += 1;
        }
        None
    }

    /// The attribute schema with the given name.
    pub fn get_attribute(&self, name: &str) -> (r: Option<&AttributeSchema>)
        ensures
            match r {
                Some(s) => find_schema(self.attributes@, name@) == Some(*s),
                None => find_schema(self.attributes@, name@) is None,
            },
    {
        match self.position(name) {
            Some(i) => {
                proof {
                    lemma_find_schema_first(self.attributes@, name@, i as int);
                }
                Some(&self.attributes[i])
            },
            None => {
                proof {
                    lemma_find_schema_none(self.attributes@, name@);
                }
                None
            },
        }
    }

    /// The schema with an attribute schema added (replacing one of the same name).
    pub fn attribute(self, schema: AttributeSchema) -> (r: Self)
        ensures
            r.attributes@ == add_schema(self.attributes@, schema),
            r.resource_type == self.resource_type,
            r.description == self.description,
    {
        let mut r = self;
        match r.position(schema.name.as_str()) {
            Some(i) => {
                proof {
                    lemma_add_schema_at(r.attributes@, schema, i as int);
                }
                r.attributes.set(i, schema);
            },
            None => {
                proof {
                    lemma_add_schema_new(r.attributes@, schema);
                }
                r.attributes.push(schema);
            },
        }
        r
    }

    /// The schema with a description.
    pub fn with_description(self, desc: &str) -> (r: Self)
        ensures
            r.description matches Some(d) && d@ == desc@,
            r.resource_type == self.resource_type,
            r.attributes == self.attributes,
    {
        let mut r = self;
        r.description = Some(str_to_string(desc));
        r
    }

    /// Validate resource attributes
    #[verifier::loop_isolation(false)]
    #[verifier::spinoff_prover]
    #[verifier::rlimit(40)]
    pub fn validate(&self, attributes: &ValueMap) -> (r: Result<(), Vec<TypeError>>)
        ensures
            match r {
                Ok(()) => schema_check(self.attributes@, attributes@) is Ok,
                Err(errs) => schema_check(self.attributes@, attributes@) == Err::<
                    (),
                    Seq<TypeErrorModel>,
                >(errors_view(errs@)),
            },
    {
        let mut errors: Vec<TypeError> = Vec::new();
        let ghost schemas = self.attributes@;
        let ghost attrs = attributes@;

        // Check required attributes
        let mut i: usize = 0;
        while i < self.attributes.len()
            invariant
                i <= self.attributes.len(),
                errors_view(errors@) == missing_required(schemas.take(i as int), attrs),
            decreases self.attributes.len() - i,
        {
            let s = &self.attributes[i];
            proof {
                assert(schemas.take(i + 1).drop_last() =~= schemas.take(i as int));
                assert(schemas.take(i + 1).last() == *s);
            }
            if s.required && !attributes.contains_key(s.name.as_str()) && s.default.is_none() {
                let ghost before = errors_view(errors@);
                errors.push(TypeError::MissingRequired { name: copy_string(&s.name) });
                proof {
                    assert(errors_view(errors@) =~= before.push(
                        TypeErrorModel::MissingRequired { name: s.name@ },
                    ));
                }
            }
            i += 1;
        }
        proof {
            assert(schemas.take(schemas.len() as int) =~= schemas);
        }
        let ghost missing = errors_view(errors@);

        // Type check each attribute
        let mut k: usize = 0;
        while k < attributes.entries.len()
            invariant
                k <= attributes.entries.len(),
                attrs == attributes@,
                missing == missing_required(schemas, attrs),
                errors_view(errors@) == missing + attribute_errors(schemas, attrs.take(k as int)),
            decreases attributes.entries.len() - k,
        {
            let name = &attributes.entries[k].0;
            let value = &attributes.entries[k].1;
            proof {
                assert(attrs.take(k + 1).drop_last() =~= attrs.take(k as int));
                assert(attrs.take(k + 1).last() == (name@, value@));
            }
            match self.get_attribute(name.as_str()) {
                Some(schema) => {
                    match schema.attr_type.validate(value) {
                        Err(e) => {
                            let ghost before = errors_view(errors@);
                            errors.push(e);
                            proof {
                                assert(errors_view(errors@) =~= before.push(e@));
                                assert(missing + attribute_errors(schemas, attrs.take(k + 1))
                                    =~= (missing + attribute_errors(schemas, attrs.take(k as int))).push(e@));
                            }
                        },
                        Ok(()) => {},
                    }
                },
                None => {},
            }
            k += 1;
        }
        proof {
            assert(attrs.take(attributes.entries.len() as int) =~= attrs);
        }
        if errors.len() == 0 {
            Ok(())
        } else {
            Err(errors)
        }
    }
}

/// Whether a type is the positive integer type.
pub open spec fn is_positive_int_type(t: AttributeType) -> bool {
    is_custom(t, "PositiveInt"@, AttributeType::Int, Validator::PositiveInt, None)
}

/// Positive integer type
pub fn positive_int() -> (r: AttributeType)
    ensures
        is_positive_int_type(r),
{
    AttributeType::Custom {
        name: str_to_string("PositiveInt"),
        base: Box::new(AttributeType::Int),
        validate: Validator::PositiveInt,
        namespace: None,
    }
}

/// CIDR block type (e.g., "10.0.0.0/16")
pub fn cidr() -> (r: AttributeType)
    ensures
        is_custom(r, "Cidr"@, AttributeType::String, Validator::Cidr, None),
{
    AttributeType::Custom {
        name: str_to_string("Cidr"),
        base: Box::new(AttributeType::String),
        validate: Validator::Cidr,
        namespace: None,
    }
}

/// Whether an attribute schema has this name, requiredness and description
/// and no default, completions or provider name.
pub open spec fn attr_desc(s: AttributeSchema, name: Seq<char>, required: bool, desc: Seq<char>) -> bool {
    &&& s.name@ == name
    &&& s.required == required
    &&& s.default is None
    &&& opt_str_view(s.description) == Some(desc)
    &&& s.completions is None
    &&& s.provider_name is None
}

/// An attribute schema with a description, required or not.
pub fn described(name: &str, attr_type: AttributeType, required: bool, desc: &str) -> (r: AttributeSchema)
    ensures
        attr_desc(r, name@, required, desc@),
        r.attr_type == attr_type,
{
    AttributeSchema {
        name: str_to_string(name),
        attr_type,
        required,
        default: None,
        description: Some(str_to_string(desc)),
        completions: None,
        provider_name: None,
    }
}

impl ResourceSchema {
    /// The schema with an attribute schema appended; no attribute schema of
    /// that name is present.
    pub fn push_attribute(self, schema: AttributeSchema) -> (r: Self)
        requires
            forall|j: int| 0 <= j < self.attributes.len() ==> self.attributes@[j].name@ != schema.name@,
        ensures
            r.attributes@ == self.attributes@.push(schema),
            r.attributes@ == add_schema(self.attributes@, schema),
            r.resource_type == self.resource_type,
            r.description == self.description,
    {
        proof {
            lemma_add_schema_new(self.attributes@, schema);
        }
        let mut r = self;
        r.attributes.push(schema);
        r
    }

    /// A schema with a resource type and description and no attributes yet.
    pub fn described(resource_type: &str, desc: &str) -> (r: Self)
        ensures
            r.resource_type@ == resource_type@,
            r.attributes@ == Seq::<AttributeSchema>::empty(),
            opt_str_view(r.description) == Some(desc@),
    {
        ResourceSchema {
            resource_type: str_to_string(resource_type),
            attributes: Vec::new(),
            description: Some(str_to_string(desc)),
        }
    }
}

/// The names of a list of attribute schemas.
pub open spec fn schema_names(s: Seq<AttributeSchema>) -> Seq<Seq<char>> {
    Seq::new(s.len(), |i: int| s[i].name@)
}

/// Whether a schema has this resource type, this description and this many attributes.
pub open spec fn schema_head(r: ResourceSchema, resource_type: Seq<char>, desc: Seq<char>, n: nat) -> bool {
    &&& r.resource_type@ == resource_type
    &&& opt_str_view(r.description) == Some(desc)
    &&& r.attributes.len() == n
}

} // verus!
