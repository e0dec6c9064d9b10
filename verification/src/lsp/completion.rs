//! Completion of `.crn` text: what the editor offers at a position, from the
//! text alone (and, inside a module call, from the parsed module).

use vstd::prelude::*;

use crate::cli::{find_schema_for, schema_for};
use crate::lsp::semantic_tokens::{
    char_at, find_any, first_of_from, lemma_find_from_bounds, lemma_first_of_from_bounds,
    lemma_first_of_from_complete,
};
use crate::parser::{InputParameter, ParsedFile, TypeExpr, type_text};
use crate::text::{last_piece_chars, lines_of, split_chars};
use crate::schema::{find_schema, strings_view, AttributeSchema, AttributeType, ResourceSchema};
use crate::text::{
    ascii_digit, ascii_lower, byte_len, char_width, chars_of, find_chars_from, find_from, has_char,
    char_is_alphanumeric, chars_eq, is_ascii_digit, is_ascii_lower, is_prefix, is_suffix,
    push_char, push_str, slice_chars, starts_with, str_eq, str_to_string, string_of, text_lines,
    total_len, trim, trim_chars, alnum_char, views,
};

verus! {

/// What kind of thing a completion offers.
#[derive(Debug, Clone, Copy, PartialEq, Eq, Structural)]
pub enum CompletionKind {
    Keyword,
    TypeParameter,
    Class,
    Property,
    Reference,
    Field,
    Value,
    EnumMember,
    Function,
}

/// A completion item.
#[derive(Debug, Clone)]
pub struct Completion {
    pub label: String,
    pub kind: CompletionKind,
    pub detail: Option<String>,
    pub insert_text: Option<String>,
    /// Whether the insert text is a snippet with `${n:...}` placeholders.
    pub snippet: bool,
    /// Whether accepting the item asks the editor for further suggestions.
    pub trigger_suggest: bool,
}

/// The mathematical content of a completion item.
pub struct CompletionModel {
    pub label: Seq<char>,
    pub kind: CompletionKind,
    pub detail: Option<Seq<char>>,
    pub insert_text: Option<Seq<char>>,
    pub snippet: bool,
    pub trigger_suggest: bool,
}

pub open spec fn opt_text(o: Option<String>) -> Option<Seq<char>> {
    match o {
        Some(s) => Some(s@),
        None => None,
    }
}

impl View for Completion {
    type V = CompletionModel;

    open spec fn view(&self) -> CompletionModel {
        CompletionModel {
            label: self.label@,
            kind: self.kind,
            detail: opt_text(self.detail),
            insert_text: opt_text(self.insert_text),
            snippet: self.snippet,
            trigger_suggest: self.trigger_suggest,
        }
    }
}

/// The models of a list of completion items.
pub open spec fn items_view(v: Seq<Completion>) -> Seq<CompletionModel> {
    Seq::new(v.len(), |i: int| v[i]@)
}

/// Where in the text completion was asked for.
#[derive(Debug, Clone)]
pub enum CompletionContext {
    TopLevel,
    InsideResourceBlock { resource_type: String },
    InsideModuleCall { module_name: String },
    AfterEquals { resource_type: String, attr_name: String },
    AfterAwsRegion,
    AfterRefType,
    AfterInputDot,
}

/// The mathematical content of a completion context.
pub enum ContextModel {
    TopLevel,
    InsideResourceBlock { resource_type: Seq<char> },
    InsideModuleCall { module_name: Seq<char> },
    AfterEquals { resource_type: Seq<char>, attr_name: Seq<char> },
    AfterAwsRegion,
    AfterRefType,
    AfterInputDot,
}

impl View for CompletionContext {
    type V = ContextModel;

    open spec fn view(&self) -> ContextModel {
        match self {
            CompletionContext::TopLevel => ContextModel::TopLevel,
            CompletionContext::InsideResourceBlock { resource_type } => ContextModel::InsideResourceBlock {
                resource_type: resource_type@,
            },
            CompletionContext::InsideModuleCall { module_name } => ContextModel::InsideModuleCall {
                module_name: module_name@,
            },
            CompletionContext::AfterEquals { resource_type, attr_name } => ContextModel::AfterEquals {
                resource_type: resource_type@,
                attr_name: attr_name@,
            },
            CompletionContext::AfterAwsRegion => ContextModel::AfterAwsRegion,
            CompletionContext::AfterRefType => ContextModel::AfterRefType,
            CompletionContext::AfterInputDot => ContextModel::AfterInputDot,
        }
    }
}

// ---------------------------------------------------------------------------
// Fixed lists
// ---------------------------------------------------------------------------

/// An item whose insert text is a snippet.
pub open spec fn snippet_item(
    label: Seq<char>,
    kind: CompletionKind,
    insert: Seq<char>,
    detail: Seq<char>,
) -> CompletionModel {
    CompletionModel {
        label,
        kind,
        detail: Some(detail),
        insert_text: Some(insert),
        snippet: true,
        trigger_suggest: false,
    }
}

/// An item that inserts plain text.
pub open spec fn plain_item(
    label: Seq<char>,
    kind: CompletionKind,
    detail: Option<Seq<char>>,
    insert: Option<Seq<char>>,
) -> CompletionModel {
    CompletionModel { label, kind, detail, insert_text: insert, snippet: false, trigger_suggest: false }
}

/// What is offered at the top level of a file.
pub open spec fn top_level_items() -> Seq<CompletionModel> {
    seq![
        snippet_item("provider"@, CompletionKind::Keyword, "provider ${1:aws} {\n    region = aws.Region.${2:ap_northeast_1}\n}"@, "Define a provider block"@),
        snippet_item("let"@, CompletionKind::Keyword, "let ${1:name} = "@, "Define a named resource or variable"@),
        snippet_item("input"@, CompletionKind::Keyword, "input {\n    ${1:param}: ${2:type}\n}"@, "Define module input parameters"@),
        snippet_item("output"@, CompletionKind::Keyword, "output {\n    ${1:name}: ${2:type} = ${3:value}\n}"@, "Define module output values"@),
        snippet_item("import"@, CompletionKind::Keyword, "import \"${1:./modules/name/main.crn}\" as ${2:module_name}"@, "Import a module"@),
        snippet_item("ref"@, CompletionKind::TypeParameter, "ref(${1:aws.vpc})"@, "Typed resource reference"@),
        snippet_item("aws.s3.bucket"@, CompletionKind::Class, "aws.s3.bucket {\n    name = \"${1:bucket-name}\"\n}"@, "S3 bucket resource"@),
        snippet_item("aws.vpc"@, CompletionKind::Class, "aws.vpc {\n    name       = \"${1:vpc-name}\"\n    cidr_block = \"${2:10.0.0.0/16}\"\n}"@, "VPC resource"@),
        snippet_item("aws.subnet"@, CompletionKind::Class, "aws.subnet {\n    name              = \"${1:subnet-name}\"\n    vpc_id            = ${2:vpc.id}\n    cidr_block        = \"${3:10.0.1.0/24}\"\n    availability_zone = aws.AvailabilityZone.${4:ap_northeast_1a}\n}"@, "Subnet resource"@),
        snippet_item("aws.internet_gateway"@, CompletionKind::Class, "aws.internet_gateway {\n    name   = \"${1:igw-name}\"\n    vpc_id = ${2:vpc.id}\n}"@, "Internet Gateway resource"@),
        snippet_item("aws.route_table"@, CompletionKind::Class, "aws.route_table {\n    name   = \"${1:rt-name}\"\n    vpc_id = ${2:vpc.id}\n}"@, "Route Table resource"@),
        snippet_item("aws.route"@, CompletionKind::Class, "aws.route {\n    name                   = \"${1:route-name}\"\n    route_table_id         = ${2:rt.id}\n    destination_cidr_block = \"${3:0.0.0.0/0}\"\n    gateway_id             = ${4:igw.id}\n}"@, "Route in a Route Table"@),
        snippet_item("aws.security_group"@, CompletionKind::Class, "aws.security_group {\n    name        = \"${1:sg-name}\"\n    vpc_id      = ${2:vpc.id}\n    description = \"${3:Security group description}\"\n}"@, "Security Group resource"@),
        snippet_item("aws.security_group.ingress_rule"@, CompletionKind::Class, "aws.security_group.ingress_rule {\n    name              = \"${1:rule-name}\"\n    security_group_id = ${2:sg.id}\n    protocol          = aws.Protocol.${3:tcp}\n    from_port         = ${4:80}\n    to_port           = ${5:80}\n    cidr              = \"${6:0.0.0.0/0}\"\n}"@, "Security Group Ingress Rule"@),
        snippet_item("aws.security_group.egress_rule"@, CompletionKind::Class, "aws.security_group.egress_rule {\n    name              = \"${1:rule-name}\"\n    security_group_id = ${2:sg.id}\n    protocol          = aws.Protocol.${3:all}\n    from_port         = ${4:0}\n    to_port           = ${5:0}\n    cidr              = \"${6:0.0.0.0/0}\"\n}"@, "Security Group Egress Rule"@),
    ]
}

/// A region completion.
pub open spec fn region_item(code: Seq<char>, name: Seq<char>) -> CompletionModel {
    plain_item(
        "aws.Region."@ + code,
        CompletionKind::EnumMember,
        Some(name),
        Some("aws.Region."@ + code),
    )
}

/// The region completions.
pub open spec fn region_items() -> Seq<CompletionModel> {
    seq![
        region_item("ap_northeast_1"@, "Tokyo"@),
        region_item("ap_northeast_2"@, "Seoul"@),
        region_item("ap_northeast_3"@, "Osaka"@),
        region_item("ap_south_1"@, "Mumbai"@),
        region_item("ap_southeast_1"@, "Singapore"@),
        region_item("ap_southeast_2"@, "Sydney"@),
        region_item("ca_central_1"@, "Canada"@),
        region_item("eu_central_1"@, "Frankfurt"@),
        region_item("eu_west_1"@, "Ireland"@),
        region_item("eu_west_2"@, "London"@),
        region_item("eu_west_3"@, "Paris"@),
        region_item("eu_north_1"@, "Stockholm"@),
        region_item("sa_east_1"@, "Sao Paulo"@),
        region_item("us_east_1"@, "N. Virginia"@),
        region_item("us_east_2"@, "Ohio"@),
        region_item("us_west_1"@, "N. California"@),
        region_item("us_west_2"@, "Oregon"@),
    ]
}

/// A protocol completion.
pub open spec fn protocol_item(code: Seq<char>, description: Seq<char>) -> CompletionModel {
    plain_item(
        "aws.Protocol."@ + code,
        CompletionKind::EnumMember,
        Some(description),
        Some("aws.Protocol."@ + code),
    )
}

/// The protocol completions.
pub open spec fn protocol_items() -> Seq<CompletionModel> {
    seq![
        protocol_item("tcp"@, "Transmission Control Protocol"@),
        protocol_item("udp"@, "User Datagram Protocol"@),
        protocol_item("icmp"@, "Internet Control Message Protocol"@),
        protocol_item("all"@, "All protocols (-1)"@),
    ]
}

/// A CIDR completion (quoted).
pub open spec fn cidr_item(cidr: Seq<char>, description: Seq<char>) -> CompletionModel {
    plain_item(
        "\""@ + cidr + "\""@,
        CompletionKind::Value,
        Some(description),
        Some("\""@ + cidr + "\""@),
    )
}

/// The CIDR completions.
pub open spec fn cidr_items() -> Seq<CompletionModel> {
    seq![
        cidr_item("10.0.0.0/16"@, "VPC CIDR (65,536 IPs)"@),
        cidr_item("10.0.0.0/24"@, "Subnet CIDR (256 IPs)"@),
        cidr_item("10.0.1.0/24"@, "Subnet CIDR (256 IPs)"@),
        cidr_item("10.0.2.0/24"@, "Subnet CIDR (256 IPs)"@),
        cidr_item("172.16.0.0/16"@, "VPC CIDR (65,536 IPs)"@),
        cidr_item("192.168.0.0/16"@, "VPC CIDR (65,536 IPs)"@),
        cidr_item("0.0.0.0/0"@, "All IPv4 addresses"@),
    ]
}

/// A resource type offered inside `ref(`.
pub open spec fn ref_type_item(type_path: Seq<char>, description: Seq<char>) -> CompletionModel {
    plain_item(
        type_path,
        CompletionKind::TypeParameter,
        Some(description),
        Some(type_path + ")"@),
    )
}

/// The resource types offered inside `ref(`.
pub open spec fn ref_type_items() -> Seq<CompletionModel> {
    seq![
        ref_type_item("aws.vpc"@, "VPC resource reference"@),
        ref_type_item("aws.subnet"@, "Subnet resource reference"@),
        ref_type_item("aws.internet_gateway"@, "Internet Gateway resource reference"@),
        ref_type_item("aws.route_table"@, "Route Table resource reference"@),
        ref_type_item("aws.security_group"@, "Security Group resource reference"@),
        ref_type_item("aws.security_group.ingress_rule"@, "Security Group Ingress Rule reference"@),
        ref_type_item("aws.security_group.egress_rule"@, "Security Group Egress Rule reference"@),
        ref_type_item("aws.s3.bucket"@, "S3 Bucket resource reference"@),
    ]
}

/// `true` and `false`.
pub open spec fn bool_items() -> Seq<CompletionModel> {
    seq![
        plain_item("true"@, CompletionKind::Value, Some("Boolean true"@), None),
        plain_item("false"@, CompletionKind::Value, Some("Boolean false"@), None),
    ]
}

/// The `env(...)` snippet.
pub open spec fn env_item() -> CompletionModel {
    snippet_item(
        "env"@,
        CompletionKind::Function,
        "env(\"${1:VAR_NAME}\")"@,
        "Read environment variable"@,
    )
}

/// What is offered for a value of unknown type.
pub open spec fn generic_items() -> Seq<CompletionModel> {
    bool_items() + seq![
        plain_item("aws.Region.ap_northeast_1"@, CompletionKind::EnumMember, Some("Tokyo region"@), None),
        env_item(),
    ] + region_items()
}

// ---------------------------------------------------------------------------
// Values of a type
// ---------------------------------------------------------------------------

/// Whether `pat` occurs in `s`.
pub open spec fn contains_text(s: Seq<char>, pat: Seq<char>) -> bool {
    find_from(s, pat, 0) is Some
}

/// Whether an enum value looks like an availability zone (`..._1a`): the
/// last character a lower-case letter and the one at byte length minus two
/// a digit.
pub open spec fn zone_like(v: Seq<char>) -> bool {
    &&& byte_len(v) > 2
    &&& v.len() > 0
    &&& is_ascii_lower(v.last())
    &&& char_at(v, byte_len(v) - 2) matches Some(c) && is_ascii_digit(c)
}

/// Whether some value looks like an availability zone.
pub open spec fn has_zone(vs: Seq<Seq<char>>) -> bool {
    exists|i: int| 0 <= i < vs.len() && zone_like(#[trigger] vs[i])
}

/// Whether some value looks like a region.
pub open spec fn has_region_like(vs: Seq<Seq<char>>) -> bool {
    exists|i: int|
        0 <= i < vs.len() && (contains_text(#[trigger] vs[i], "northeast"@) || contains_text(
            vs[i],
            "east_1"@,
        ))
}

/// Whether some value is a protocol name.
pub open spec fn has_protocol(vs: Seq<Seq<char>>) -> bool {
    exists|i: int|
        0 <= i < vs.len() && (#[trigger] vs[i] == "tcp"@ || vs[i] == "udp"@ || vs[i] == "icmp"@)
}

/// Zone values can be cut into a region and a zone letter: each value
/// ends with a one-byte character.
pub open spec fn zones_cut(vs: Seq<Seq<char>>) -> bool {
    has_zone(vs) ==> forall|i: int|
        0 <= i < vs.len() ==> #[trigger] vs[i].len() > 0 && (vs[i].last() as u32) < 0x80
}

/// The region name shown for the region part of a zone.
pub open spec fn zone_region_name(r: Seq<char>) -> Seq<char> {
    if r == "ap_northeast_1"@ {
        "Tokyo"@
    } else if r == "ap_northeast_2"@ {
        "Seoul"@
    } else if r == "ap_northeast_3"@ {
        "Osaka"@
    } else if r == "ap_southeast_1"@ {
        "Singapore"@
    } else if r == "ap_southeast_2"@ {
        "Sydney"@
    } else if r == "ap_south_1"@ {
        "Mumbai"@
    } else if r == "us_east_1"@ {
        "N. Virginia"@
    } else if r == "us_east_2"@ {
        "Ohio"@
    } else if r == "us_west_1"@ {
        "N. California"@
    } else if r == "us_west_2"@ {
        "Oregon"@
    } else if r == "eu_west_1"@ {
        "Ireland"@
    } else if r == "eu_west_2"@ {
        "London"@
    } else if r == "eu_central_1"@ {
        "Frankfurt"@
    } else {
        ""@
    }
}

/// An availability zone completion.
pub open spec fn zone_item(v: Seq<char>) -> CompletionModel {
    let name = zone_region_name(v.drop_last());
    let letter = seq![v.last()];
    let detail = if name.len() == 0 {
        "Zone "@ + letter
    } else {
        name + " Zone "@ + letter
    };
    plain_item(
        "aws.AvailabilityZone."@ + v,
        CompletionKind::EnumMember,
        Some(detail),
        Some("aws.AvailabilityZone."@ + v),
    )
}

/// The completions of an enum's values.
pub open spec fn enum_items(vs: Seq<Seq<char>>) -> Seq<CompletionModel> {
    if has_zone(vs) {
        Seq::new(vs.len(), |i: int| zone_item(vs[i]))
    } else if has_region_like(vs) {
        region_items()
    } else if has_protocol(vs) {
        protocol_items()
    } else {
        Seq::new(vs.len(), |i: int| plain_item(vs[i], CompletionKind::EnumMember, None, None))
    }
}

/// What is offered for a value of a type.
pub open spec fn type_items(t: AttributeType) -> Seq<CompletionModel> {
    match t {
        AttributeType::Bool => bool_items(),
        AttributeType::Enum(vs) => enum_items(strings_view(vs@)),
        AttributeType::Int => seq![],
        AttributeType::Custom { name, .. } => if name@ == "Cidr"@ {
            cidr_items()
        } else {
            seq![env_item()]
        },
        AttributeType::String => seq![env_item()],
        _ => generic_items(),
    }
}

/// Whether a type's zone values (if any) can be cut.
pub open spec fn type_zones_cut(t: AttributeType) -> bool {
    match t {
        AttributeType::Enum(vs) => zones_cut(strings_view(vs@)),
        _ => true,
    }
}

// ---------------------------------------------------------------------------
// Attribute names
// ---------------------------------------------------------------------------

/// An attribute name completion.
pub open spec fn attr_item(a: AttributeSchema) -> CompletionModel {
    CompletionModel {
        label: a.name@,
        kind: CompletionKind::Property,
        detail: match a.description {
            Some(d) => Some(
                d@ + if a.required {
                    " (required)"@
                } else {
                    ""@
                },
            ),
            None => None,
        },
        insert_text: Some(a.name@ + " = "@),
        snippet: false,
        trigger_suggest: true,
    }
}

/// The attribute name completions of a list of attribute schemas.
pub open spec fn attr_items(attrs: Seq<AttributeSchema>) -> Seq<CompletionModel> {
    Seq::new(attrs.len(), |i: int| attr_item(attrs[i]))
}

/// The attributes of all schemas, in order.
pub open spec fn all_attributes(schemas: Seq<ResourceSchema>) -> Seq<AttributeSchema>
    decreases schemas.len(),
{
    if schemas.len() == 0 {
        seq![]
    } else {
        all_attributes(schemas.drop_last()) + schemas.last().attributes@
    }
}

/// The attributes, keeping the first of each name.
pub open spec fn first_by_name(attrs: Seq<AttributeSchema>) -> Seq<AttributeSchema>
    decreases attrs.len(),
{
    if attrs.len() == 0 {
        seq![]
    } else {
        let rest = first_by_name(attrs.drop_last());
        if exists|j: int| 0 <= j < attrs.len() - 1 && #[trigger] attrs[j].name@ == attrs.last().name@ {
            rest
        } else {
            rest.push(attrs.last())
        }
    }
}

/// The attribute names offered inside a block of a resource type: its own
/// attributes, or those of all schemas (each name once) for an unknown type.
pub open spec fn attribute_items(schemas: Seq<ResourceSchema>, resource_type: Seq<char>) -> Seq<
    CompletionModel,
> {
    match schema_for(schemas, resource_type) {
        Some(s) => attr_items(s.attributes@),
        None => attr_items(first_by_name(all_attributes(schemas))),
    }
}

// ---------------------------------------------------------------------------
// What the text says
// ---------------------------------------------------------------------------

/// Whether every character is alphanumeric or `_`.
pub open spec fn all_word(s: Seq<char>) -> bool {
    forall|i: int| 0 <= i < s.len() ==> alnum_char(#[trigger] s[i]) || s[i] == '_'
}

/// The name a line binds with `let name = ...`.
pub open spec fn line_binding(l: Seq<char>) -> Option<Seq<char>> {
    let t = trim(l);
    if is_prefix("let "@, t) {
        let rest = t.skip(4);
        match first_of_from(rest, 0, seq!['=']) {
            Some(q) => {
                let name = trim(rest.take(q));
                if name.len() > 0 && all_word(name) {
                    Some(name)
                } else {
                    None
                }
            },
            None => None,
        }
    } else {
        None
    }
}

/// The names bound by `let` on the lines, in order.
pub open spec fn bindings_in(lines: Seq<Seq<char>>) -> Seq<Seq<char>>
    decreases lines.len(),
{
    if lines.len() == 0 {
        seq![]
    } else {
        let rest = bindings_in(lines.drop_last());
        match line_binding(lines.last()) {
            Some(n) => rest.push(n),
            None => rest,
        }
    }
}

/// The braces of a line inside an `input` block from character `k` on: the
/// depth after them, and whether the block closed (the walk stops there).
pub open spec fn brace_walk(t: Seq<char>, k: int, depth: int) -> (int, bool)
    decreases t.len() - k,
{
    if k < 0 || k >= t.len() {
        (depth, false)
    } else if t[k] == '{' {
        brace_walk(t, k + 1, depth + 1)
    } else if t[k] == '}' {
        if depth - 1 == 0 {
            (0, true)
        } else {
            brace_walk(t, k + 1, depth - 1)
        }
    } else {
        brace_walk(t, k + 1, depth)
    }
}

/// The text before the first `:` of a line.
pub open spec fn before_colon(t: Seq<char>) -> int {
    match first_of_from(t, 0, seq![':']) {
        Some(c) => c,
        None => t.len() as int,
    }
}

/// A parameter line `name: type` or `name: type = default`: the name and the
/// type.
pub open spec fn param_of(t: Seq<char>) -> (Seq<char>, Seq<char>) {
    let c = before_colon(t);
    let name = trim(t.take(c));
    let rest = trim(t.skip(c + 1));
    let hint = match first_of_from(rest, 0, seq!['=']) {
        Some(e) => trim(rest.take(e)),
        None => rest,
    };
    (name, hint)
}

/// The parameters declared in `input` blocks from line `k` on.
pub open spec fn input_scan(lines: Seq<Seq<char>>, k: int, in_block: bool, depth: int) -> Seq<
    (Seq<char>, Seq<char>),
>
    decreases lines.len() - k,
{
    if k < 0 || k >= lines.len() {
        seq![]
    } else {
        let t = trim(lines[k]);
        if is_prefix("input "@, t) && has_char(t, '{') {
            input_scan(lines, k + 1, true, 1)
        } else if in_block {
            let (d, closed) = brace_walk(t, 0, depth);
            let here = if d > 0 && has_char(t, ':') && !is_prefix("#"@, t) && param_of(t).0.len()
                > 0 {
                seq![param_of(t)]
            } else {
                seq![]
            };
            here + input_scan(lines, k + 1, !closed, d)
        } else {
            input_scan(lines, k + 1, false, depth)
        }
    }
}

/// The input parameters a text declares, with their types.
pub open spec fn input_params(text: Seq<char>) -> Seq<(Seq<char>, Seq<char>)> {
    input_scan(text_lines(text), 0, false, 0)
}

/// The path a line imports under the given name (`import "path" as name`).
pub open spec fn line_import(l: Seq<char>, module_name: Seq<char>) -> Option<Seq<char>> {
    let t = trim(l);
    if is_prefix("import "@, t) {
        let rest = t.skip(7);
        match first_of_from(rest, 0, seq!['"']) {
            Some(q1) => match first_of_from(rest, q1 + 1, seq!['"']) {
                Some(q2) => {
                    let after = rest.skip(q2 + 1);
                    match find_from(after, " as "@, 0) {
                        Some(a) => if trim(after.skip(a + 4)) == module_name {
                            Some(rest.subrange(q1 + 1, q2))
                        } else {
                            None
                        },
                        None => None,
                    }
                },
                None => None,
            },
            None => None,
        }
    } else {
        None
    }
}

/// The first import path of a module name.
pub open spec fn import_path_in(lines: Seq<Seq<char>>, module_name: Seq<char>) -> Option<Seq<char>>
    decreases lines.len(),
{
    if lines.len() == 0 {
        None
    } else {
        match line_import(lines[0], module_name) {
            Some(p) => Some(p),
            None => import_path_in(lines.drop_first(), module_name),
        }
    }
}

/// The schema type a line declares a resource of, by the first pattern it
/// contains.
pub open spec fn schema_type_of(l: Seq<char>) -> Option<Seq<char>> {
    let t = trim(l);
    if contains_text(t, "aws.s3.bucket"@) {
        Some("s3.bucket"@)
    } else if contains_text(t, "aws.vpc"@) {
        Some("vpc"@)
    } else if contains_text(t, "aws.subnet"@) {
        Some("subnet"@)
    } else if contains_text(t, "aws.internet_gateway"@) {
        Some("internet_gateway"@)
    } else if contains_text(t, "aws.route_table"@) {
        Some("route_table"@)
    } else if contains_text(t, "aws.route"@) {
        Some("route"@)
    } else if contains_text(t, "aws.security_group.ingress_rule"@) {
        Some("security_group.ingress_rule"@)
    } else if contains_text(t, "aws.security_group.egress_rule"@) {
        Some("security_group.egress_rule"@)
    } else if contains_text(t, "aws.security_group"@) {
        Some("security_group"@)
    } else {
        None
    }
}

/// A text without its trailing `{` characters.
pub open spec fn strip_open_braces(s: Seq<char>) -> Seq<char>
    decreases s.len(),
{
    if s.len() > 0 && s.last() == '{' {
        strip_open_braces(s.drop_last())
    } else {
        s
    }
}

/// The module name a trimmed line opens a call block of (`name {`).
pub open spec fn module_call_name(t: Seq<char>) -> Option<Seq<char>> {
    if t.len() > 0 && t.last() == '{' && !is_prefix("let "@, t) && !is_prefix("aws."@, t) && !is_prefix(
        "provider "@,
        t,
    ) && !is_prefix("input "@, t) && !is_prefix("output "@, t) && !is_prefix("#"@, t) {
        let name = trim(strip_open_braces(t));
        if name.len() > 0 && all_word(name) {
            Some(name)
        } else {
            None
        }
    } else {
        None
    }
}

/// What the lines so far say of the position: brace depth, the resource type
/// of the open block and the module of the open call.
pub struct BlockState {
    pub depth: int,
    pub resource_type: Seq<char>,
    pub module_name: Option<Seq<char>>,
}

/// The state after the braces of a line from character `k` on.
pub open spec fn walk_line(l: Seq<char>, k: int, st: BlockState) -> BlockState
    decreases l.len() - k,
{
    if k < 0 || k >= l.len() {
        st
    } else if l[k] == '{' {
        walk_line(l, k + 1, BlockState { depth: st.depth + 1, ..st })
    } else if l[k] == '}' {
        let d = st.depth - 1;
        if d == 0 {
            walk_line(l, k + 1, BlockState { depth: d, resource_type: seq![], module_name: None })
        } else {
            walk_line(l, k + 1, BlockState { depth: d, ..st })
        }
    } else {
        walk_line(l, k + 1, st)
    }
}

/// The state after a line.
pub open spec fn line_state(l: Seq<char>, st: BlockState) -> BlockState {
    let st1 = match schema_type_of(l) {
        Some(r) if st.depth == 0 => BlockState { depth: st.depth, resource_type: r, module_name: None },
        _ => if st.depth == 0 && module_call_name(trim(l)) is Some {
            BlockState {
                depth: st.depth,
                resource_type: seq![],
                module_name: module_call_name(trim(l)),
            }
        } else {
            st
        },
    };
    walk_line(l, 0, st1)
}

/// The state after the first `n` lines.
pub open spec fn block_state(lines: Seq<Seq<char>>, n: int) -> BlockState
    decreases n,
{
    if n <= 0 {
        BlockState { depth: 0, resource_type: seq![], module_name: None }
    } else {
        line_state(lines[n - 1], block_state(lines, n - 1))
    }
}

/// The attribute name before the first `=` of a line prefix.
pub open spec fn attr_name_of(prefix: Seq<char>) -> Seq<char> {
    trim(crate::text::split(prefix, '=')[0])
}

/// Where in the text completion is asked for.
pub open spec fn completion_context(text: Seq<char>, line: nat, character: nat) -> ContextModel {
    context_in(text_lines(text), line, character)
}

/// Where among the lines completion is asked for.
pub open spec fn context_in(lines: Seq<Seq<char>>, line: nat, character: nat) -> ContextModel {
    if line >= lines.len() {
        ContextModel::TopLevel
    } else {
        let cur = lines[line as int];
        let prefix = cur.take(
            if character < cur.len() {
                character as int
            } else {
                cur.len() as int
            },
        );
        if contains_text(prefix, "input."@) || is_suffix("input"@, prefix) {
            ContextModel::AfterInputDot
        } else if contains_text(prefix, "aws.Region."@) || is_suffix("aws.Region"@, prefix) {
            ContextModel::AfterAwsRegion
        } else if is_suffix("ref("@, prefix) || (contains_text(prefix, "ref("@) && !has_char(
            prefix,
            ')',
        )) {
            ContextModel::AfterRefType
        } else {
            let st = block_state(lines, line + 1int);
            let after_eq = trim(crate::text::last_piece(prefix, '='));
            if st.depth > 0 && has_char(prefix, '=') && (!is_prefix("\""@, after_eq) || after_eq
                == "\""@) {
                ContextModel::AfterEquals {
                    resource_type: st.resource_type,
                    attr_name: attr_name_of(prefix),
                }
            } else if st.depth > 0 {
                match st.module_name {
                    Some(m) => ContextModel::InsideModuleCall { module_name: m },
                    None => ContextModel::InsideResourceBlock { resource_type: st.resource_type },
                }
            } else {
                ContextModel::TopLevel
            }
        }
    }
}

// ---------------------------------------------------------------------------
// What is offered
// ---------------------------------------------------------------------------

/// The items for `name.id` references to `let` bindings.
pub open spec fn binding_items(names: Seq<Seq<char>>) -> Seq<CompletionModel> {
    Seq::new(
        names.len(),
        |i: int|
            plain_item(
                names[i] + ".id"@,
                CompletionKind::Reference,
                Some("Reference to "@ + names[i] + "'s ID"@),
                Some(names[i] + ".id"@),
            ),
    )
}

/// The `input` keyword and the `input.name` references.
pub open spec fn input_ref_items(params: Seq<(Seq<char>, Seq<char>)>) -> Seq<CompletionModel> {
    if params.len() == 0 {
        seq![]
    } else {
        seq![
            CompletionModel {
                label: "input"@,
                kind: CompletionKind::Keyword,
                detail: Some("Reference to module input parameters"@),
                insert_text: Some("input."@),
                snippet: false,
                trigger_suggest: true,
            },
        ] + Seq::new(
            params.len(),
            |i: int|
                plain_item(
                    "input."@ + params[i].0,
                    CompletionKind::Field,
                    Some(params[i].1),
                    Some("input."@ + params[i].0),
                ),
        )
    }
}

/// What is offered after `=`: references to bindings (for `..._id`
/// attributes), input references, then the values of the attribute's type
/// (or values of any type).
pub open spec fn value_items(
    schemas: Seq<ResourceSchema>,
    resource_type: Seq<char>,
    attr_name: Seq<char>,
    text: Seq<char>,
) -> Seq<CompletionModel> {
    let refs = if is_suffix("_id"@, attr_name) {
        binding_items(bindings_in(text_lines(text)))
    } else {
        seq![]
    };
    let values = match schema_for(schemas, resource_type) {
        Some(s) => match find_schema(s.attributes@, attr_name) {
            Some(a) => type_items(a.attr_type),
            None => generic_items(),
        },
        None => generic_items(),
    };
    refs + input_ref_items(input_params(text)) + values
}

/// What is offered after `input.`.
pub open spec fn input_param_items(text: Seq<char>) -> Seq<CompletionModel> {
    let ps = input_params(text);
    Seq::new(
        ps.len(),
        |i: int|
            plain_item(
                ps[i].0,
                CompletionKind::Field,
                Some(
                    ps[i].1 + if has_char(ps[i].1, '=') {
                        ""@
                    } else {
                        " (required)"@
                    },
                ),
                Some(ps[i].0),
            ),
    )
}

/// The parameter completions of a module's inputs.
pub open spec fn module_param_items(inputs: Seq<InputParameter>) -> Seq<CompletionModel> {
    Seq::new(
        inputs.len(),
        |i: int|
            CompletionModel {
                label: inputs[i].name@,
                kind: CompletionKind::Property,
                detail: Some(
                    type_text(inputs[i].type_expr@) + if inputs[i].default is Some {
                        ""@
                    } else {
                        " (required)"@
                    },
                ),
                insert_text: Some(inputs[i].name@ + " = "@),
                snippet: false,
                trigger_suggest: true,
            },
    )
}

/// The inputs of a parsed module file, if there is one.
pub open spec fn opt_inputs(m: Option<&ParsedFile>) -> Option<Seq<InputParameter>> {
    match m {
        Some(f) => Some(f.inputs@),
        None => None,
    }
}

/// What is offered at a position of a text (given the inputs of the parsed
/// module file, for a position inside a module call).
pub open spec fn completions_at(
    schemas: Seq<ResourceSchema>,
    text: Seq<char>,
    line: nat,
    character: nat,
    module: Option<Seq<InputParameter>>,
) -> Seq<CompletionModel> {
    match completion_context(text, line, character) {
        ContextModel::TopLevel => top_level_items(),
        ContextModel::InsideResourceBlock { resource_type } => attribute_items(schemas, resource_type),
        ContextModel::InsideModuleCall { module_name } => match import_path_in(
            text_lines(text),
            module_name,
        ) {
            Some(_) => match module {
                Some(inputs) => module_param_items(inputs),
                None => seq![],
            },
            None => seq![],
        },
        ContextModel::AfterEquals { resource_type, attr_name } => value_items(
            schemas,
            resource_type,
            attr_name,
            text,
        ),
        ContextModel::AfterAwsRegion => region_items(),
        ContextModel::AfterRefType => ref_type_items(),
        ContextModel::AfterInputDot => input_param_items(text),
    }
}

// ---------------------------------------------------------------------------
// Building items
// ---------------------------------------------------------------------------

/// Two texts joined.
fn cat(a: &str, b: &str) -> (r: String)
    ensures
        r@ == a@ + b@,
{
    let mut s = str_to_string(a);
    push_str(&mut s, b);
    s
}

/// Three texts joined.
fn cat3(a: &str, b: &str, c: &str) -> (r: String)
    ensures
        r@ == a@ + b@ + c@,
{
    let mut s = cat(a, b);
    push_str(&mut s, c);
    s
}

fn snippet(label: &str, kind: CompletionKind, insert: &str, detail: &str) -> (r: Completion)
    ensures
        r@ == snippet_item(label@, kind, insert@, detail@),
{
    Completion {
        label: str_to_string(label),
        kind,
        detail: Some(str_to_string(detail)),
        insert_text: Some(str_to_string(insert)),
        snippet: true,
        trigger_suggest: false,
    }
}

fn plain(label: String, kind: CompletionKind, detail: Option<String>, insert: Option<String>) -> (r:
    Completion)
    ensures
        r@ == plain_item(label@, kind, opt_text(detail), opt_text(insert)),
{
    Completion { label, kind, detail, insert_text: insert, snippet: false, trigger_suggest: false }
}

fn region(code: &str, name: &str) -> (r: Completion)
    ensures
        r@ == region_item(code@, name@),
{
    plain(
        cat("aws.Region.", code),
        CompletionKind::EnumMember,
        Some(str_to_string(name)),
        Some(cat("aws.Region.", code)),
    )
}

fn protocol(code: &str, description: &str) -> (r: Completion)
    ensures
        r@ == protocol_item(code@, description@),
{
    plain(
        cat("aws.Protocol.", code),
        CompletionKind::EnumMember,
        Some(str_to_string(description)),
        Some(cat("aws.Protocol.", code)),
    )
}

fn cidr(block: &str, description: &str) -> (r: Completion)
    ensures
        r@ == cidr_item(block@, description@),
{
    plain(
        cat3("\"", block, "\""),
        CompletionKind::Value,
        Some(str_to_string(description)),
        Some(cat3("\"", block, "\"")),
    )
}

fn ref_type(type_path: &str, description: &str) -> (r: Completion)
    ensures
        r@ == ref_type_item(type_path@, description@),
{
    plain(
        str_to_string(type_path),
        CompletionKind::TypeParameter,
        Some(str_to_string(description)),
        Some(cat(type_path, ")")),
    )
}

/// What is offered at the top level of a file.
fn top_level_list() -> (r: Vec<Completion>)
    ensures
        items_view(r@) == top_level_items(),
{
    let mut v: Vec<Completion> = Vec::new();
    v.push(snippet("provider", CompletionKind::Keyword, "provider ${1:aws} {\n    region = aws.Region.${2:ap_northeast_1}\n}", "Define a provider block"));
    v.push(snippet("let", CompletionKind::Keyword, "let ${1:name} = ", "Define a named resource or variable"));
    v.push(snippet("input", CompletionKind::Keyword, "input {\n    ${1:param}: ${2:type}\n}", "Define module input parameters"));
    v.push(snippet("output", CompletionKind::Keyword, "output {\n    ${1:name}: ${2:type} = ${3:value}\n}", "Define module output values"));
    v.push(snippet("import", CompletionKind::Keyword, "import \"${1:./modules/name/main.crn}\" as ${2:module_name}", "Import a module"));
    v.push(snippet("ref", CompletionKind::TypeParameter, "ref(${1:aws.vpc})", "Typed resource reference"));
    v.push(snippet("aws.s3.bucket", CompletionKind::Class, "aws.s3.bucket {\n    name = \"${1:bucket-name}\"\n}", "S3 bucket resource"));
    v.push(snippet("aws.vpc", CompletionKind::Class, "aws.vpc {\n    name       = \"${1:vpc-name}\"\n    cidr_block = \"${2:10.0.0.0/16}\"\n}", "VPC resource"));
    v.push(snippet("aws.subnet", CompletionKind::Class, "aws.subnet {\n    name              = \"${1:subnet-name}\"\n    vpc_id            = ${2:vpc.id}\n    cidr_block        = \"${3:10.0.1.0/24}\"\n    availability_zone = aws.AvailabilityZone.${4:ap_northeast_1a}\n}", "Subnet resource"));
    v.push(snippet("aws.internet_gateway", CompletionKind::Class, "aws.internet_gateway {\n    name   = \"${1:igw-name}\"\n    vpc_id = ${2:vpc.id}\n}", "Internet Gateway resource"));
    v.push(snippet("aws.route_table", CompletionKind::Class, "aws.route_table {\n    name   = \"${1:rt-name}\"\n    vpc_id = ${2:vpc.id}\n}", "Route Table resource"));
    v.push(snippet("aws.route", CompletionKind::Class, "aws.route {\n    name                   = \"${1:route-name}\"\n    route_table_id         = ${2:rt.id}\n    destination_cidr_block = \"${3:0.0.0.0/0}\"\n    gateway_id             = ${4:igw.id}\n}", "Route in a Route Table"));
    v.push(snippet("aws.security_group", CompletionKind::Class, "aws.security_group {\n    name        = \"${1:sg-name}\"\n    vpc_id      = ${2:vpc.id}\n    description = \"${3:Security group description}\"\n}", "Security Group resource"));
    v.push(snippet("aws.security_group.ingress_rule", CompletionKind::Class, "aws.security_group.ingress_rule {\n    name              = \"${1:rule-name}\"\n    security_group_id = ${2:sg.id}\n    protocol          = aws.Protocol.${3:tcp}\n    from_port         = ${4:80}\n    to_port           = ${5:80}\n    cidr              = \"${6:0.0.0.0/0}\"\n}", "Security Group Ingress Rule"));
    v.push(snippet("aws.security_group.egress_rule", CompletionKind::Class, "aws.security_group.egress_rule {\n    name              = \"${1:rule-name}\"\n    security_group_id = ${2:sg.id}\n    protocol          = aws.Protocol.${3:all}\n    from_port         = ${4:0}\n    to_port           = ${5:0}\n    cidr              = \"${6:0.0.0.0/0}\"\n}", "Security Group Egress Rule"));
    assert(items_view(v@) =~= top_level_items());
    v
}

/// The region completions.
fn region_list() -> (r: Vec<Completion>)
    ensures
        items_view(r@) == region_items(),
{
    let mut v: Vec<Completion> = Vec::new();
    v.push(region("ap_northeast_1", "Tokyo"));
    v.push(region("ap_northeast_2", "Seoul"));
    v.push(region("ap_northeast_3", "Osaka"));
    v.push(region("ap_south_1", "Mumbai"));
    v.push(region("ap_southeast_1", "Singapore"));
    v.push(region("ap_southeast_2", "Sydney"));
    v.push(region("ca_central_1", "Canada"));
    v.push(region("eu_central_1", "Frankfurt"));
    v.push(region("eu_west_1", "Ireland"));
    v.push(region("eu_west_2", "London"));
    v.push(region("eu_west_3", "Paris"));
    v.push(region("eu_north_1", "Stockholm"));
    v.push(region("sa_east_1", "Sao Paulo"));
    v.push(region("us_east_1", "N. Virginia"));
    v.push(region("us_east_2", "Ohio"));
    v.push(region("us_west_1", "N. California"));
    v.push(region("us_west_2", "Oregon"));
    assert(items_view(v@) =~= region_items());
    v
}

/// The protocol completions.
fn protocol_list() -> (r: Vec<Completion>)
    ensures
        items_view(r@) == protocol_items(),
{
    let mut v: Vec<Completion> = Vec::new();
    v.push(protocol("tcp", "Transmission Control Protocol"));
    v.push(protocol("udp", "User Datagram Protocol"));
    v.push(protocol("icmp", "Internet Control Message Protocol"));
    v.push(protocol("all", "All protocols (-1)"));
    assert(items_view(v@) =~= protocol_items());
    v
}

/// The CIDR completions.
fn cidr_list() -> (r: Vec<Completion>)
    ensures
        items_view(r@) == cidr_items(),
{
    let mut v: Vec<Completion> = Vec::new();
    v.push(cidr("10.0.0.0/16", "VPC CIDR (65,536 IPs)"));
    v.push(cidr("10.0.0.0/24", "Subnet CIDR (256 IPs)"));
    v.push(cidr("10.0.1.0/24", "Subnet CIDR (256 IPs)"));
    v.push(cidr("10.0.2.0/24", "Subnet CIDR (256 IPs)"));
    v.push(cidr("172.16.0.0/16", "VPC CIDR (65,536 IPs)"));
    v.push(cidr("192.168.0.0/16", "VPC CIDR (65,536 IPs)"));
    v.push(cidr("0.0.0.0/0", "All IPv4 addresses"));
    assert(items_view(v@) =~= cidr_items());
    v
}

/// The resource types offered inside `ref(`.
fn ref_type_list() -> (r: Vec<Completion>)
    ensures
        items_view(r@) == ref_type_items(),
{
    let mut v: Vec<Completion> = Vec::new();
    v.push(ref_type("aws.vpc", "VPC resource reference"));
    v.push(ref_type("aws.subnet", "Subnet resource reference"));
    v.push(ref_type("aws.internet_gateway", "Internet Gateway resource reference"));
    v.push(ref_type("aws.route_table", "Route Table resource reference"));
    v.push(ref_type("aws.security_group", "Security Group resource reference"));
    v.push(ref_type("aws.security_group.ingress_rule", "Security Group Ingress Rule reference"));
    v.push(ref_type("aws.security_group.egress_rule", "Security Group Egress Rule reference"));
    v.push(ref_type("aws.s3.bucket", "S3 Bucket resource reference"));
    assert(items_view(v@) =~= ref_type_items());
    v
}

fn bool_list() -> (r: Vec<Completion>)
    ensures
        items_view(r@) == bool_items(),
{
    let mut v: Vec<Completion> = Vec::new();
    v.push(plain(str_to_string("true"), CompletionKind::Value, Some(str_to_string("Boolean true")), None));
    v.push(plain(str_to_string("false"), CompletionKind::Value, Some(str_to_string("Boolean false")), None));
    assert(items_view(v@) =~= bool_items());
    v
}

fn env_completion() -> (r: Completion)
    ensures
        r@ == env_item(),
{
    snippet("env", CompletionKind::Function, "env(\"${1:VAR_NAME}\")", "Read environment variable")
}

/// Appends items to a list.
fn append_items(v: &mut Vec<Completion>, w: Vec<Completion>)
    ensures
        items_view(final(v)@) == items_view(old(v)@) + items_view(w@),
{
    let mut w = w;
    let ghost a = items_view(v@);
    let ghost b = items_view(w@);
    v.append(&mut w);
    assert(items_view(v@) =~= a + b);
}

/// What is offered for a value of unknown type.
fn generic_list() -> (r: Vec<Completion>)
    ensures
        items_view(r@) == generic_items(),
{
    let mut v = bool_list();
    v.push(plain(
        str_to_string("aws.Region.ap_northeast_1"),
        CompletionKind::EnumMember,
        Some(str_to_string("Tokyo region")),
        None,
    ));
    v.push(env_completion());
    let ghost head = items_view(v@);
    assert(head =~= bool_items() + seq![
        plain_item("aws.Region.ap_northeast_1"@, CompletionKind::EnumMember, Some("Tokyo region"@), None),
        env_item(),
    ]);
    append_items(&mut v, region_list());
    v
}

fn zone_region_label(s: &str) -> (r: &'static str)
    ensures
        r@ == zone_region_name(s@),
{
    if str_eq(s, "ap_northeast_1") {
        "Tokyo"
    } else if str_eq(s, "ap_northeast_2") {
        "Seoul"
    } else if str_eq(s, "ap_northeast_3") {
        "Osaka"
    } else if str_eq(s, "ap_southeast_1") {
        "Singapore"
    } else if str_eq(s, "ap_southeast_2") {
        "Sydney"
    } else if str_eq(s, "ap_south_1") {
        "Mumbai"
    } else if str_eq(s, "us_east_1") {
        "N. Virginia"
    } else if str_eq(s, "us_east_2") {
        "Ohio"
    } else if str_eq(s, "us_west_1") {
        "N. California"
    } else if str_eq(s, "us_west_2") {
        "Oregon"
    } else if str_eq(s, "eu_west_1") {
        "Ireland"
    } else if str_eq(s, "eu_west_2") {
        "London"
    } else if str_eq(s, "eu_central_1") {
        "Frankfurt"
    } else {
        ""
    }
}

/// Whether a value looks like an availability zone (see `zone_like`).
fn zone_like_chars(v: &[char]) -> (r: bool)
    ensures
        r == zone_like(v@),
{
    let n = v.len();
    if n == 0 {
        return false;
    }
    let mut extra: usize = 0;
    let mut k: usize = 0;
    proof {
        assert(v@.take(0) =~= Seq::<char>::empty());
    }
    while k < n && extra < 2
        invariant
            k <= n == v.len(),
            extra <= 4,
            extra as int == byte_len(v@.take(k as int)) - k,
        decreases n - k,
    {
        proof {
            crate::text::lemma_byte_len_take(v@, k as int);
        }
        extra = extra + char_width(v[k]) - 1;
        k += 1;
    }
    proof {
        crate::text::lemma_byte_len_split(v@, k as int, n as int);
        crate::text::lemma_len_le_byte_len(v@.subrange(k as int, n as int));
        assert(v@.take(n as int) =~= v@);
    }
    if extra >= 2 {
        return false;
    }
    if !(n > 2 || (n == 2 && extra == 1)) {
        return false;
    }
    let idx = if extra == 0 {
        n - 2
    } else {
        n - 1
    };
    ascii_lower(v[n - 1]) && ascii_digit(v[idx])
}

/// Whether `pat` occurs in the slice.
fn contains_chars(v: &[char], pat: &str) -> (r: bool)
    ensures
        r == contains_text(v@, pat@),
{
    let p = chars_of(pat);
    find_chars_from(v, p.as_slice(), 0).is_some()
}

/// An availability zone completion.
fn zone_completion(v: &[char]) -> (r: Completion)
    requires
        v.len() > 0,
    ensures
        r@ == zone_item(v@),
{
    let region_part = string_of(&v[0..v.len() - 1]);
    assert(region_part@ =~= v@.drop_last());
    let name = zone_region_label(region_part.as_str());
    let letter = v[v.len() - 1];
    let mut detail = if name.is_empty() {
        str_to_string("Zone ")
    } else {
        cat(name, " Zone ")
    };
    push_char(&mut detail, letter);
    let vs = string_of(v);
    let mut label = str_to_string("aws.AvailabilityZone.");
    push_str(&mut label, vs.as_str());
    let mut insert = str_to_string("aws.AvailabilityZone.");
    push_str(&mut insert, vs.as_str());
    proof {
        assert(detail@ =~= (if zone_region_name(v@.drop_last()).len() == 0 {
            "Zone "@ + seq![v@.last()]
        } else {
            zone_region_name(v@.drop_last()) + " Zone "@ + seq![v@.last()]
        }));
    }
    plain(label, CompletionKind::EnumMember, Some(detail), Some(insert))
}

/// The completions of an enum's values.
fn enum_list(vs: &Vec<String>) -> (r: Vec<Completion>)
    requires
        zones_cut(strings_view(vs@)),
    ensures
        items_view(r@) == enum_items(strings_view(vs@)),
{
    let ghost sv = strings_view(vs@);
    let mut zone = false;
    let mut region_like = false;
    let mut proto = false;
    let mut i: usize = 0;
    while i < vs.len()
        invariant
            i <= vs.len(),
            sv == strings_view(vs@),
            zone == exists|j: int| 0 <= j < i && zone_like(#[trigger] sv[j]),
            region_like == exists|j: int|
                0 <= j < i && (contains_text(#[trigger] sv[j], "northeast"@) || contains_text(
                    sv[j],
                    "east_1"@,
                )),
            proto == exists|j: int|
                0 <= j < i && (#[trigger] sv[j] == "tcp"@ || sv[j] == "udp"@ || sv[j] == "icmp"@),
        decreases vs.len() - i,
    {
        let c = chars_of(vs[i].as_str());
        assert(sv[i as int] == c@);
        if zone_like_chars(c.as_slice()) {
            zone = true;
        }
        if contains_chars(c.as_slice(), "northeast") || contains_chars(c.as_slice(), "east_1") {
            region_like = true;
        }
        let s = vs[i].as_str();
        if str_eq(s, "tcp") || str_eq(s, "udp") || str_eq(s, "icmp") {
            proto = true;
        }
        i += 1;
    }
    if zone {
        let mut out: Vec<Completion> = Vec::new();
        let mut k: usize = 0;
        while k < vs.len()
            invariant
                k <= vs.len(),
                sv == strings_view(vs@),
                has_zone(sv),
                zones_cut(sv),
                items_view(out@) == Seq::new(k as nat, |j: int| zone_item(sv[j])),
            decreases vs.len() - k,
        {
            let c = chars_of(vs[k].as_str());
            assert(sv[k as int] == c@);
            assert(sv[k as int].len() > 0);
            let item = zone_completion(c.as_slice());
            let ghost before = items_view(out@);
            out.push(item);
            assert(items_view(out@) =~= before.push(zone_item(sv[k as int])));
            assert(before.push(zone_item(sv[k as int])) =~= Seq::new(
                (k + 1) as nat,
                |j: int| zone_item(sv[j]),
            ));
            k += 1;
        }
        assert(items_view(out@) =~= enum_items(sv));
        out
    } else if region_like {
        region_list()
    } else if proto {
        protocol_list()
    } else {
        let mut out: Vec<Completion> = Vec::new();
        let mut k: usize = 0;
        while k < vs.len()
            invariant
                k <= vs.len(),
                sv == strings_view(vs@),
                items_view(out@) == Seq::new(
                    k as nat,
                    |j: int| plain_item(sv[j], CompletionKind::EnumMember, None, None),
                ),
            decreases vs.len() - k,
        {
            assert(sv[k as int] == vs@[k as int]@);
            let ghost before = items_view(out@);
            let name = vs[k].clone();
            assert(name@ == sv[k as int]);
            out.push(plain(name, CompletionKind::EnumMember, None, None));
            assert(items_view(out@) =~= before.push(
                plain_item(sv[k as int], CompletionKind::EnumMember, None, None),
            ));
            assert(items_view(out@) =~= Seq::new(
                (k + 1) as nat,
                |j: int| plain_item(sv[j], CompletionKind::EnumMember, None, None),
            ));
            k += 1;
        }
        assert(items_view(out@) =~= enum_items(sv));
        out
    }
}

/// What is offered for a value of a type.
fn type_list(t: &AttributeType) -> (r: Vec<Completion>)
    requires
        type_zones_cut(*t),
    ensures
        items_view(r@) == type_items(*t),
{
    match t {
        AttributeType::Bool => bool_list(),
        AttributeType::Enum(vs) => enum_list(vs),
        AttributeType::Int => {
            let v: Vec<Completion> = Vec::new();
            assert(items_view(v@) =~= Seq::<CompletionModel>::empty());
            v
        },
        AttributeType::Custom { name, .. } => {
            if str_eq(name.as_str(), "Cidr") {
                cidr_list()
            } else {
                let mut v: Vec<Completion> = Vec::new();
                v.push(env_completion());
                assert(items_view(v@) =~= seq![env_item()]);
                v
            }
        },
        AttributeType::String => {
            let mut v: Vec<Completion> = Vec::new();
            v.push(env_completion());
            assert(items_view(v@) =~= seq![env_item()]);
            v
        },
        _ => generic_list(),
    }
}

/// Whether some attribute schema has the given name.
pub open spec fn has_name(s: Seq<AttributeSchema>, n: Seq<char>) -> bool {
    exists|j: int| 0 <= j < s.len() && (#[trigger] s[j]).name@ == n
}

/// Keeping the first attribute of each name keeps every name.
pub proof fn lemma_first_by_name_names(s: Seq<AttributeSchema>, n: Seq<char>)
    ensures
        has_name(first_by_name(s), n) == has_name(s, n),
    decreases s.len(),
{
    if s.len() > 0 {
        let p = s.drop_last();
        lemma_first_by_name_names(p, n);
        lemma_first_by_name_names(p, s.last().name@);
        let rest = first_by_name(p);
        if exists|j: int| 0 <= j < s.len() - 1 && #[trigger] s[j].name@ == s.last().name@ {
            let j = choose|j: int| 0 <= j < s.len() - 1 && #[trigger] s[j].name@ == s.last().name@;
            assert(p[j] == s[j]);
            if has_name(s, n) {
                let k = choose|k: int| 0 <= k < s.len() && (#[trigger] s[k]).name@ == n;
                if k < s.len() - 1 {
                    assert(p[k] == s[k]);
                }
            }
            if has_name(p, n) {
                let k = choose|k: int| 0 <= k < p.len() && (#[trigger] p[k]).name@ == n;
                assert(s[k] == p[k]);
            }
        } else {
            let r = rest.push(s.last());
            if has_name(s, n) {
                let k = choose|k: int| 0 <= k < s.len() && (#[trigger] s[k]).name@ == n;
                if k < s.len() - 1 {
                    assert(p[k] == s[k]);
                    let m = choose|m: int| 0 <= m < rest.len() && (#[trigger] rest[m]).name@ == n;
                    assert(r[m] == rest[m]);
                } else {
                    assert(r[rest.len() as int] == s.last());
                }
            }
            if has_name(r, n) {
                let m = choose|m: int| 0 <= m < r.len() && (#[trigger] r[m]).name@ == n;
                if m < rest.len() {
                    assert(r[m] == rest[m]);
                    let k = choose|k: int| 0 <= k < p.len() && (#[trigger] p[k]).name@ == n;
                    assert(s[k] == p[k]);
                } else {
                    assert(s[s.len() - 1] == s.last());
                }
            }
        }
    }
}

/// An attribute name completion.
fn attr_completion(a: &AttributeSchema) -> (r: Completion)
    ensures
        r@ == attr_item(*a),
{
    let detail = match &a.description {
        Some(d) => {
            let mut s = d.clone();
            if a.required {
                push_str(&mut s, " (required)");
            } else {
                proof {
                    reveal_strlit("");
                }
                assert(s@ =~= d@ + ""@);
            }
            Some(s)
        },
        None => None,
    };
    let mut insert = a.name.clone();
    push_str(&mut insert, " = ");
    Completion {
        label: a.name.clone(),
        kind: CompletionKind::Property,
        detail,
        insert_text: Some(insert),
        snippet: false,
        trigger_suggest: true,
    }
}

/// The names of a list of strings, as text.
fn has_string(v: &Vec<String>, s: &String) -> (r: bool)
    ensures
        r == exists|k: int| 0 <= k < v.len() && (#[trigger] v@[k])@ == s@,
{
    let mut k: usize = 0;
    while k < v.len()
        invariant
            k <= v.len(),
            forall|m: int| 0 <= m < k ==> (#[trigger] v@[m])@ != s@,
        decreases v.len() - k,
    {
        if str_eq(v[k].as_str(), s.as_str()) {
            return true;
        }
        k += 1;
    }
    false
}

/// The attribute names offered inside a block of a resource type.
fn attribute_list(schemas: &Vec<ResourceSchema>, resource_type: &str) -> (r: Vec<Completion>)
    ensures
        items_view(r@) == attribute_items(schemas@, resource_type@),
{
    let mut out: Vec<Completion> = Vec::new();
    match find_schema_for(schemas, resource_type) {
        Some(s) => {
            let mut j: usize = 0;
            while j < s.attributes.len()
                invariant
                    j <= s.attributes.len(),
                    items_view(out@) == attr_items(s.attributes@.take(j as int)),
                decreases s.attributes.len() - j,
            {
                let ghost before = items_view(out@);
                out.push(attr_completion(&s.attributes[j]));
                assert(items_view(out@) =~= before.push(attr_item(s.attributes@[j as int])));
                assert(items_view(out@) =~= attr_items(s.attributes@.take(j + 1)));
                j += 1;
            }
            assert(s.attributes@.take(j as int) =~= s.attributes@);
            out
        },
        None => {
            let mut seen: Vec<String> = Vec::new();
            let mut i: usize = 0;
            proof {
                assert(schemas@.take(0) =~= Seq::<ResourceSchema>::empty());
            }
            while i < schemas.len()
                invariant
                    i <= schemas.len(),
                    items_view(out@) == attr_items(first_by_name(all_attributes(schemas@.take(i as int)))),
                    seen.len() == first_by_name(all_attributes(schemas@.take(i as int))).len(),
                    forall|k: int| 0 <= k < seen.len() ==> (#[trigger] seen@[k])@ == first_by_name(
                        all_attributes(schemas@.take(i as int)),
                    )[k].name@,
                decreases schemas.len() - i,
            {
                let attrs = &schemas[i].attributes;
                let ghost base = all_attributes(schemas@.take(i as int));
                let mut j: usize = 0;
                proof {
                    assert(base + attrs@.take(0) =~= base);
                }
                while j < attrs.len()
                    invariant
                        j <= attrs.len(),
                        items_view(out@) == attr_items(first_by_name(base + attrs@.take(j as int))),
                        seen.len() == first_by_name(base + attrs@.take(j as int)).len(),
                        forall|k: int| 0 <= k < seen.len() ==> (#[trigger] seen@[k])@ == first_by_name(
                            base + attrs@.take(j as int),
                        )[k].name@,
                    decreases attrs.len() - j,
                {
                    let ghost pre = base + attrs@.take(j as int);
                    let ghost post = base + attrs@.take(j + 1);
                    let a = &attrs[j];
                    proof {
                        assert(post.drop_last() =~= pre);
                        assert(post.last() == *a);
                        lemma_first_by_name_names(pre, a.name@);
                    }
                    let found = has_string(&seen, &a.name);
                    proof {
                        let f = first_by_name(pre);
                        if found {
                            let k = choose|k: int| 0 <= k < seen.len() && (#[trigger] seen@[k])@ == a.name@;
                            assert(f[k].name@ == a.name@);
                            assert(has_name(f, a.name@));
                            let m = choose|m: int| 0 <= m < pre.len() && (#[trigger] pre[m]).name@ == a.name@;
                            assert(post[m] == pre[m]);
                        } else {
                            if exists|m: int| 0 <= m < post.len() - 1 && #[trigger] post[m].name@ == post.last().name@ {
                                let m = choose|m: int| 0 <= m < post.len() - 1 && #[trigger] post[m].name@ == post.last().name@;
                                assert(pre[m] == post[m]);
                                assert(has_name(pre, a.name@));
                                let k = choose|k: int| 0 <= k < f.len() && (#[trigger] f[k]).name@ == a.name@;
                                assert(seen@[k]@ == a.name@);
                            }
                        }
                    }
                    if !found {
                        let ghost before = items_view(out@);
                        out.push(attr_completion(a));
                        seen.push(a.name.clone());
                        proof {
                            assert(first_by_name(post) == first_by_name(pre).push(*a));
                            assert(items_view(out@) =~= before.push(attr_item(*a)));
                            assert(items_view(out@) =~= attr_items(first_by_name(post)));
                        }
                    } else {
                        assert(first_by_name(post) == first_by_name(pre));
                    }
                    j += 1;
                }
                proof {
                    assert(schemas@.take(i + 1).drop_last() =~= schemas@.take(i as int));
                    assert(attrs@.take(j as int) =~= attrs@);
                    assert(all_attributes(schemas@.take(i + 1)) == base + attrs@);
                }
                i += 1;
            }
            proof {
                assert(schemas@.take(i as int) =~= schemas@);
            }
            out
        },
    }
}

/// One character as a vector.
fn single(c: char) -> (r: Vec<char>)
    ensures
        r@ == seq![c],
{
    let mut v: Vec<char> = Vec::new();
    v.push(c);
    assert(v@ =~= seq![c]);
    v
}

/// Whether every character is alphanumeric or `_` (exec).
fn all_word_chars(s: &[char]) -> (r: bool)
    ensures
        r == all_word(s@),
{
    let mut i: usize = 0;
    while i < s.len()
        invariant
            i <= s.len(),
            forall|j: int| 0 <= j < i ==> alnum_char(#[trigger] s@[j]) || s@[j] == '_',
        decreases s.len() - i,
    {
        if !(char_is_alphanumeric(s[i]) || s[i] == '_') {
            return false;
        }
        i += 1;
    }
    true
}

/// The name a line binds with `let` (exec).
fn binding_of(l: &[char]) -> (r: Option<Vec<char>>)
    ensures
        match line_binding(l@) {
            Some(n) => r matches Some(v) && v@ == n,
            None => r is None,
        },
{
    let t = trim_chars(l);
    let kw = chars_of("let ");
    proof {
        reveal_strlit("let ");
    }
    if !starts_with(t.as_slice(), kw.as_slice()) {
        return None;
    }
    let rest = slice_chars(t.as_slice(), 4, t.len());
    assert(rest@ =~= t@.skip(4));
    let eq = single('=');
    proof {
        lemma_first_of_from_bounds(rest@, 0, seq!['=']);
    }
    match find_any(rest.as_slice(), 0, eq.as_slice()) {
        Some(q) => {
            let before = slice_chars(rest.as_slice(), 0, q);
            assert(before@ =~= rest@.take(q as int));
            let name = trim_chars(before.as_slice());
            if name.len() > 0 && all_word_chars(name.as_slice()) {
                Some(name)
            } else {
                None
            }
        },
        None => None,
    }
}

/// The names bound by `let` on the lines.
fn bindings_list(lines: &Vec<Vec<char>>) -> (r: Vec<String>)
    ensures
        strings_view(r@) == bindings_in(views(lines@)),
{
    let mut out: Vec<String> = Vec::new();
    let mut i: usize = 0;
    proof {
        assert(views(lines@).take(0) =~= Seq::<Seq<char>>::empty());
        assert(strings_view(out@) =~= Seq::<Seq<char>>::empty());
    }
    while i < lines.len()
        invariant
            i <= lines.len(),
            strings_view(out@) == bindings_in(views(lines@).take(i as int)),
        decreases lines.len() - i,
    {
        proof {
            assert(views(lines@).take(i + 1).drop_last() =~= views(lines@).take(i as int));
            assert(views(lines@).take(i + 1).last() == lines@[i as int]@);
        }
        let ghost before = strings_view(out@);
        match binding_of(lines[i].as_slice()) {
            Some(n) => {
                out.push(string_of(n.as_slice()));
                assert(strings_view(out@) =~= before.push(n@));
            },
            None => {},
        }
        i += 1;
    }
    proof {
        assert(views(lines@).take(i as int) =~= views(lines@));
    }
    out
}

/// The braces of a line inside an `input` block (see `brace_walk`).
fn walk_input_braces(t: &[char], depth: i64) -> (r: (i64, bool))
    requires
        1 <= depth,
        depth + t.len() <= i64::MAX,
    ensures
        (r.0 as int, r.1) == brace_walk(t@, 0, depth as int),
        r.1 ==> r.0 == 0,
        !r.1 ==> 1 <= r.0 <= depth + t.len(),
{
    let mut d = depth;
    let mut k: usize = 0;
    while k < t.len()
        invariant
            k <= t.len(),
            1 <= d <= depth + k,
            depth + t.len() <= i64::MAX,
            brace_walk(t@, 0, depth as int) == brace_walk(t@, k as int, d as int),
        decreases t.len() - k,
    {
        if t[k] == '{' {
            d = d + 1;
        } else if t[k] == '}' {
            if d - 1 == 0 {
                return (0, true);
            }
            d = d - 1;
        }
        k += 1;
    }
    (d, false)
}

/// A parameter line split into name and type (see `param_of`).
fn param_parts(t: &[char]) -> (r: (Vec<char>, Vec<char>))
    requires
        has_char(t@, ':'),
    ensures
        (r.0@, r.1@) == param_of(t@),
{
    let colon = single(':');
    proof {
        lemma_first_of_from_bounds(t@, 0, seq![':']);
        let j = choose|j: int| 0 <= j < t@.len() && t@[j] == ':';
        assert(seq![':'][0] == ':');
        assert(has_char(seq![':'], t@[j]));
        lemma_first_of_from_complete(t@, 0, j, seq![':']);
    }
    assert(first_of_from(t@, 0, colon@) is Some);
    assert(t@.len() == t.len());
    let c = match find_any(t, 0, colon.as_slice()) {
        Some(c) => c,
        None => t.len(),
    };
    assert(first_of_from(t@, 0, colon@) == Some(c as int));
    assert(c < t.len());
    let head = slice_chars(t, 0, c);
    assert(head@ =~= t@.take(c as int));
    let name = trim_chars(head.as_slice());
    let tail = slice_chars(t, c + 1, t.len());
    assert(tail@ =~= t@.skip(c + 1));
    let rest = trim_chars(tail.as_slice());
    let eq = single('=');
    proof {
        lemma_first_of_from_bounds(rest@, 0, seq!['=']);
    }
    assert(rest@.len() == rest.len());
    assert(before_colon(t@) == c as int);
    let hint = match find_any(rest.as_slice(), 0, eq.as_slice()) {
        Some(e) => {
            assert(first_of_from(rest@, 0, seq!['=']) == Some(e as int));
            let h = slice_chars(rest.as_slice(), 0, e);
            assert(h@ =~= rest@.take(e as int));
            trim_chars(h.as_slice())
        },
        None => rest,
    };
    (name, hint)
}

/// The texts of a list of string pairs.
pub open spec fn pairs_view(v: Seq<(String, String)>) -> Seq<(Seq<char>, Seq<char>)> {
    Seq::new(v.len(), |i: int| (v[i].0@, v[i].1@))
}

/// The parameters declared in `input` blocks of the lines.
fn input_param_list(lines: &Vec<Vec<char>>) -> (r: Vec<(String, String)>)
    requires
        total_len(views(lines@)) <= i32::MAX,
    ensures
        pairs_view(r@) == input_scan(views(lines@), 0, false, 0),
{
    let ghost ls = views(lines@);
    let mut out: Vec<(String, String)> = Vec::new();
    let mut in_block = false;
    let mut depth: i64 = 0;
    let mut li: usize = 0;
    proof {
        assert(ls.take(0) =~= Seq::<Seq<char>>::empty());
        assert(pairs_view(out@) =~= Seq::<(Seq<char>, Seq<char>)>::empty());
    }
    while li < lines.len()
        invariant
            li <= lines.len(),
            ls == views(lines@),
            total_len(ls) <= i32::MAX,
            0 <= depth <= 1 + total_len(ls.take(li as int)),
            in_block ==> 1 <= depth,
            pairs_view(out@) + input_scan(ls, li as int, in_block, depth as int) == input_scan(
                ls,
                0,
                false,
                0,
            ),
        decreases lines.len() - li,
    {
        proof {
            crate::text::lemma_total_prefix(ls, li as int);
            assert(ls[li as int] == lines@[li as int]@);
            crate::text::lemma_trim_len(ls[li as int]);
        }
        let ghost before = pairs_view(out@);
        let ghost old_in = in_block;
        let ghost old_depth = depth as int;
        let t = trim_chars(lines[li].as_slice());
        let input_kw = chars_of("input ");
        if starts_with(t.as_slice(), input_kw.as_slice()) && crate::text::contains_char(
            t.as_slice(),
            '{',
        ) {
            in_block = true;
            depth = 1;
        } else if in_block {
            let (d, closed) = walk_input_braces(t.as_slice(), depth);
            let hash = chars_of("#");
            if d > 0 && crate::text::contains_char(t.as_slice(), ':') && !starts_with(
                t.as_slice(),
                hash.as_slice(),
            ) {
                let (n, h) = param_parts(t.as_slice());
                if n.len() > 0 {
                    out.push((string_of(n.as_slice()), string_of(h.as_slice())));
                    assert(pairs_view(out@) =~= before.push(param_of(t@)));
                }
            }
            in_block = !closed;
            depth = d;
        }
        proof {
            assert(pairs_view(out@) + input_scan(ls, li + 1, in_block, depth as int) =~= before
                + input_scan(ls, li as int, old_in, old_depth));
        }
        li += 1;
    }
    proof {
        assert(pairs_view(out@) + input_scan(ls, li as int, in_block, depth as int) =~= pairs_view(
            out@,
        ));
    }
    out
}

/// The path a line imports under the given name (exec).
fn import_of(l: &[char], name: &[char]) -> (r: Option<Vec<char>>)
    ensures
        match line_import(l@, name@) {
            Some(p) => r matches Some(v) && v@ == p,
            None => r is None,
        },
{
    let t = trim_chars(l);
    let kw = chars_of("import ");
    proof {
        reveal_strlit("import ");
    }
    if !starts_with(t.as_slice(), kw.as_slice()) {
        return None;
    }
    let rest = slice_chars(t.as_slice(), 7, t.len());
    assert(rest@ =~= t@.skip(7));
    assert(rest@.len() == rest.len());
    let quote = single('"');
    proof {
        lemma_first_of_from_bounds(rest@, 0, seq!['"']);
    }
    let q1 = match find_any(rest.as_slice(), 0, quote.as_slice()) {
        Some(q) => q,
        None => {
            return None;
        },
    };
    proof {
        lemma_first_of_from_bounds(rest@, q1 + 1, seq!['"']);
    }
    let q2 = match find_any(rest.as_slice(), q1 + 1, quote.as_slice()) {
        Some(q) => q,
        None => {
            return None;
        },
    };
    let after = slice_chars(rest.as_slice(), q2 + 1, rest.len());
    assert(after@ =~= rest@.skip(q2 + 1));
    assert(after@.len() == after.len());
    let as_word = chars_of(" as ");
    proof {
        reveal_strlit(" as ");
        lemma_find_from_bounds(after@, as_word@, 0);
    }
    match find_chars_from(after.as_slice(), as_word.as_slice(), 0) {
        Some(a) => {
            assert(find_from(after@, " as "@, 0) == Some(a as int));
            let tail = slice_chars(after.as_slice(), a + 4, after.len());
            assert(tail@ =~= after@.skip(a + 4));
            let alias = trim_chars(tail.as_slice());
            if chars_eq(alias.as_slice(), name) {
                let p = slice_chars(rest.as_slice(), q1 + 1, q2);
                Some(p)
            } else {
                None
            }
        },
        None => None,
    }
}

/// The first import path of a module name among the lines.
fn import_path_list(lines: &Vec<Vec<char>>, name: &[char]) -> (r: Option<Vec<char>>)
    ensures
        match import_path_in(views(lines@), name@) {
            Some(p) => r matches Some(v) && v@ == p,
            None => r is None,
        },
{
    let ghost ls = views(lines@);
    let mut i: usize = 0;
    proof {
        assert(ls.skip(0) =~= ls);
    }
    while i < lines.len()
        invariant
            i <= lines.len(),
            ls == views(lines@),
            import_path_in(ls, name@) == import_path_in(ls.skip(i as int), name@),
        decreases lines.len() - i,
    {
        proof {
            assert(ls.skip(i as int)[0] == lines@[i as int]@);
            assert(ls.skip(i as int).drop_first() =~= ls.skip(i + 1));
        }
        match import_of(lines[i].as_slice(), name) {
            Some(p) => {
                return Some(p);
            },
            None => {},
        }
        i += 1;
    }
    proof {
        assert(ls.skip(i as int).len() == 0);
    }
    None
}

/// Whether the slice ends with the given text.
fn ends_with(v: &[char], p: &str) -> (r: bool)
    ensures
        r == is_suffix(p@, v@),
{
    let pc = chars_of(p);
    if pc.len() > v.len() {
        return false;
    }
    let start = v.len() - pc.len();
    let tail = slice_chars(v, start, v.len());
    assert(tail@ =~= v@.skip(start as int));
    chars_eq(tail.as_slice(), pc.as_slice())
}

/// The schema type a line declares a resource of (exec).
fn schema_type_chars(l: &[char]) -> (r: Option<&'static str>)
    ensures
        match schema_type_of(l@) {
            Some(s) => r matches Some(x) && x@ == s,
            None => r is None,
        },
{
    let t = trim_chars(l);
    if contains_chars(t.as_slice(), "aws.s3.bucket") {
        Some("s3.bucket")
    } else if contains_chars(t.as_slice(), "aws.vpc") {
        Some("vpc")
    } else if contains_chars(t.as_slice(), "aws.subnet") {
        Some("subnet")
    } else if contains_chars(t.as_slice(), "aws.internet_gateway") {
        Some("internet_gateway")
    } else if contains_chars(t.as_slice(), "aws.route_table") {
        Some("route_table")
    } else if contains_chars(t.as_slice(), "aws.route") {
        Some("route")
    } else if contains_chars(t.as_slice(), "aws.security_group.ingress_rule") {
        Some("security_group.ingress_rule")
    } else if contains_chars(t.as_slice(), "aws.security_group.egress_rule") {
        Some("security_group.egress_rule")
    } else if contains_chars(t.as_slice(), "aws.security_group") {
        Some("security_group")
    } else {
        None
    }
}

/// A text without its trailing `{` characters (exec).
fn strip_open_braces_chars(s: &[char]) -> (r: Vec<char>)
    ensures
        r@ == strip_open_braces(s@),
{
    let mut n = s.len();
    proof {
        assert(s@.take(n as int) =~= s@);
    }
    while n > 0 && s[n - 1] == '{'
        invariant
            n <= s.len(),
            strip_open_braces(s@) == strip_open_braces(s@.take(n as int)),
        decreases n,
    {
        proof {
            assert(s@.take(n as int).drop_last() =~= s@.take(n - 1));
        }
        n -= 1;
    }
    let r = slice_chars(s, 0, n);
    assert(r@ =~= s@.take(n as int));
    r
}

/// The module name a trimmed line opens a call block of (exec).
fn module_call_chars(t: &[char]) -> (r: Option<Vec<char>>)
    ensures
        match module_call_name(t@) {
            Some(n) => r matches Some(v) && v@ == n,
            None => r is None,
        },
{
    let n = t.len();
    if !(n > 0 && t[n - 1] == '{') {
        return None;
    }
    let let_kw = chars_of("let ");
    let aws_kw = chars_of("aws.");
    let provider_kw = chars_of("provider ");
    let input_kw = chars_of("input ");
    let output_kw = chars_of("output ");
    let hash = chars_of("#");
    if starts_with(t, let_kw.as_slice()) || starts_with(t, aws_kw.as_slice()) || starts_with(
        t,
        provider_kw.as_slice(),
    ) || starts_with(t, input_kw.as_slice()) || starts_with(t, output_kw.as_slice())
        || starts_with(t, hash.as_slice()) {
        return None;
    }
    let stripped = strip_open_braces_chars(t);
    let name = trim_chars(stripped.as_slice());
    if name.len() > 0 && all_word_chars(name.as_slice()) {
        Some(name)
    } else {
        None
    }
}

/// The model of a block state held in exec values.
pub open spec fn state_of(depth: i64, rt: Seq<char>, module: Option<Vec<char>>) -> BlockState {
    BlockState {
        depth: depth as int,
        resource_type: rt,
        module_name: match module {
            Some(m) => Some(m@),
            None => None,
        },
    }
}

/// The braces of a line (see `walk_line`).
fn walk_line_exec(l: &[char], depth: &mut i64, rt: &mut Vec<char>, module: &mut Option<Vec<char>>)
    requires
        -(i32::MAX as int) <= *old(depth) - l.len() && *old(depth) + l.len() <= i32::MAX,
    ensures
        state_of(*final(depth), final(rt)@, *final(module)) == walk_line(
            l@,
            0,
            state_of(*old(depth), old(rt)@, *old(module)),
        ),
        *old(depth) - l.len() <= *final(depth) <= *old(depth) + l.len(),
{
    let ghost start = state_of(*depth, rt@, *module);
    let ghost d0 = *depth as int;
    let mut k: usize = 0;
    while k < l.len()
        invariant
            k <= l.len(),
            d0 - k <= *depth <= d0 + k,
            -(i32::MAX as int) <= d0 - l.len() && d0 + l.len() <= i32::MAX,
            walk_line(l@, 0, start) == walk_line(l@, k as int, state_of(*depth, rt@, *module)),
        decreases l.len() - k,
    {
        if l[k] == '{' {
            *depth = *depth + 1;
        } else if l[k] == '}' {
            *depth = *depth - 1;
            if *depth == 0 {
                *rt = Vec::new();
                *module = None;
                assert(rt@ =~= Seq::<char>::empty());
            }
        }
        k += 1;
    }
}

/// The block state after the first `n` lines (see `block_state`).
fn block_scan(lines: &Vec<Vec<char>>, n: usize) -> (r: (i64, Vec<char>, Option<Vec<char>>))
    requires
        n <= lines.len(),
        total_len(views(lines@)) <= i32::MAX,
    ensures
        state_of(r.0, r.1@, r.2) == block_state(views(lines@), n as int),
{
    let ghost ls = views(lines@);
    let mut depth: i64 = 0;
    let mut rt: Vec<char> = Vec::new();
    let mut module: Option<Vec<char>> = None;
    let mut i: usize = 0;
    proof {
        assert(ls.take(0) =~= Seq::<Seq<char>>::empty());
        assert(rt@ =~= Seq::<char>::empty());
    }
    while i < n
        invariant
            i <= n <= lines.len(),
            ls == views(lines@),
            total_len(ls) <= i32::MAX,
            -(total_len(ls.take(i as int)) as int) <= depth <= total_len(ls.take(i as int)),
            state_of(depth, rt@, module) == block_state(ls, i as int),
        decreases n - i,
    {
        proof {
            crate::text::lemma_total_prefix(ls, i as int);
            assert(ls[i as int] == lines@[i as int]@);
        }
        let l = lines[i].as_slice();
        let ghost before = state_of(depth, rt@, module);
        match schema_type_chars(l) {
            Some(r) if depth == 0 => {
                rt = chars_of(r);
                module = None;
            },
            _ => {
                if depth == 0 {
                    let t = trim_chars(l);
                    match module_call_chars(t.as_slice()) {
                        Some(m) => {
                            rt = Vec::new();
                            module = Some(m);
                            assert(rt@ =~= Seq::<char>::empty());
                        },
                        None => {},
                    }
                }
            },
        }
        walk_line_exec(l, &mut depth, &mut rt, &mut module);
        assert(state_of(depth, rt@, module) == line_state(ls[i as int], before));
        i += 1;
    }
    (depth, rt, module)
}

/// Where among the lines completion is asked for (exec).
fn context_at(lines: &Vec<Vec<char>>, line: u32, character: u32) -> (r: CompletionContext)
    requires
        total_len(views(lines@)) <= i32::MAX,
    ensures
        r@ == context_in(views(lines@), line as nat, character as nat),
{
    let ghost ls = views(lines@);
    let li = line as usize;
    if li >= lines.len() {
        return CompletionContext::TopLevel;
    }
    let cur = lines[li].as_slice();
    assert(ls[li as int] == cur@);
    let k = if (character as usize) < cur.len() {
        character as usize
    } else {
        cur.len()
    };
    let prefix = slice_chars(cur, 0, k);
    assert(prefix@ =~= cur@.take(k as int));
    let p = prefix.as_slice();
    if contains_chars(p, "input.") || ends_with(p, "input") {
        return CompletionContext::AfterInputDot;
    }
    if contains_chars(p, "aws.Region.") || ends_with(p, "aws.Region") {
        return CompletionContext::AfterAwsRegion;
    }
    if ends_with(p, "ref(") || (contains_chars(p, "ref(") && !crate::text::contains_char(p, ')')) {
        return CompletionContext::AfterRefType;
    }
    let (depth, rt, module) = block_scan(lines, li + 1);
    let after_eq = trim_chars(last_piece_chars(p, '=').as_slice());
    let quote = chars_of("\"");
    if depth > 0 && crate::text::contains_char(p, '=') && (!starts_with(
        after_eq.as_slice(),
        quote.as_slice(),
    ) || chars_eq(after_eq.as_slice(), quote.as_slice())) {
        let pieces = split_chars(p, '=');
        proof {
            assert(views(pieces@)[0] == pieces@[0]@);
        }
        let attr = trim_chars(pieces[0].as_slice());
        return CompletionContext::AfterEquals {
            resource_type: string_of(rt.as_slice()),
            attr_name: string_of(attr.as_slice()),
        };
    }
    if depth > 0 {
        match module {
            Some(m) => CompletionContext::InsideModuleCall { module_name: string_of(m.as_slice()) },
            None => CompletionContext::InsideResourceBlock { resource_type: string_of(rt.as_slice()) },
        }
    } else {
        CompletionContext::TopLevel
    }
}

/// The `name.id` references to `let` bindings.
fn binding_refs(names: &Vec<String>) -> (r: Vec<Completion>)
    ensures
        items_view(r@) == binding_items(strings_view(names@)),
{
    let ghost sv = strings_view(names@);
    let mut out: Vec<Completion> = Vec::new();
    let mut i: usize = 0;
    while i < names.len()
        invariant
            i <= names.len(),
            sv == strings_view(names@),
            items_view(out@) == binding_items(sv.take(i as int)),
        decreases names.len() - i,
    {
        let n = names[i].as_str();
        assert(sv[i as int] == n@);
        let ghost before = items_view(out@);
        out.push(plain(
            cat(n, ".id"),
            CompletionKind::Reference,
            Some(cat3("Reference to ", n, "'s ID")),
            Some(cat(n, ".id")),
        ));
        let ghost it = plain_item(
            sv[i as int] + ".id"@,
            CompletionKind::Reference,
            Some("Reference to "@ + sv[i as int] + "'s ID"@),
            Some(sv[i as int] + ".id"@),
        );
        assert(items_view(out@) =~= before.push(it));
        assert(binding_items(sv.take(i + 1)) =~= binding_items(sv.take(i as int)).push(it));
        i += 1;
    }
    assert(sv.take(i as int) =~= sv);
    out
}

/// The `input` keyword and the `input.name` references.
fn input_refs(params: &Vec<(String, String)>) -> (r: Vec<Completion>)
    ensures
        items_view(r@) == input_ref_items(pairs_view(params@)),
{
    let ghost pv = pairs_view(params@);
    let mut out: Vec<Completion> = Vec::new();
    if params.len() == 0 {
        assert(items_view(out@) =~= Seq::<CompletionModel>::empty());
        return out;
    }
    out.push(Completion {
        label: str_to_string("input"),
        kind: CompletionKind::Keyword,
        detail: Some(str_to_string("Reference to module input parameters")),
        insert_text: Some(str_to_string("input.")),
        snippet: false,
        trigger_suggest: true,
    });
    let ghost head = items_view(out@);
    let mut i: usize = 0;
    while i < params.len()
        invariant
            i <= params.len(),
            out.len() >= 1,
            pv == pairs_view(params@),
            pv.len() > 0,
            items_view(out@) == head + Seq::new(
                i as nat,
                |j: int|
                    plain_item(
                        "input."@ + pv[j].0,
                        CompletionKind::Field,
                        Some(pv[j].1),
                        Some("input."@ + pv[j].0),
                    ),
            ),
        decreases params.len() - i,
    {
        let (n, h) = (&params[i].0, &params[i].1);
        assert(pv[i as int] == (n@, h@));
        let ghost before = items_view(out@);
        out.push(plain(cat("input.", n.as_str()), CompletionKind::Field, Some(h.clone()), Some(cat("input.", n.as_str()))));
        let ghost it = plain_item(
            "input."@ + pv[i as int].0,
            CompletionKind::Field,
            Some(pv[i as int].1),
            Some("input."@ + pv[i as int].0),
        );
        assert(items_view(out@) =~= before.push(it));
        assert(items_view(out@) =~= head + Seq::new(
            (i + 1) as nat,
            |j: int|
                plain_item(
                    "input."@ + pv[j].0,
                    CompletionKind::Field,
                    Some(pv[j].1),
                    Some("input."@ + pv[j].0),
                ),
        ));
        i += 1;
    }
    assert(items_view(out@) =~= input_ref_items(pv));
    out
}

/// Whether a type's zone values can be cut, for every attribute of every
/// schema.
pub open spec fn schemas_zones_cut(schemas: Seq<ResourceSchema>) -> bool {
    forall|i: int, j: int|
        0 <= i < schemas.len() && 0 <= j < schemas[i].attributes@.len() ==> type_zones_cut(
            #[trigger] schemas[i].attributes@[j].attr_type,
        )
}

proof fn lemma_schema_for_member(schemas: Seq<ResourceSchema>, key: Seq<char>)
    ensures
        schema_for(schemas, key) matches Some(s) ==> exists|i: int| 0 <= i < schemas.len() && schemas[i] == s,
    decreases schemas.len(),
{
    if schemas.len() > 0 {
        lemma_schema_for_member(schemas.drop_last(), key);
        match schema_for(schemas, key) {
            Some(s) => {
                if schemas.last().resource_type@ == key {
                    assert(schemas[schemas.len() - 1] == s);
                } else {
                    let i = choose|i: int| 0 <= i < schemas.len() - 1 && schemas.drop_last()[i] == s;
                    assert(schemas[i] == s);
                }
            },
            None => {},
        }
    }
}

proof fn lemma_find_schema_member(attrs: Seq<AttributeSchema>, name: Seq<char>)
    ensures
        find_schema(attrs, name) matches Some(a) ==> exists|j: int| 0 <= j < attrs.len() && attrs[j] == a,
    decreases attrs.len(),
{
    if attrs.len() > 0 {
        lemma_find_schema_member(attrs.drop_first(), name);
        match find_schema(attrs, name) {
            Some(a) => {
                if attrs[0].name@ == name {
                    assert(attrs[0] == a);
                } else {
                    let j = choose|j: int| 0 <= j < attrs.len() - 1 && attrs.drop_first()[j] == a;
                    assert(attrs[j + 1] == a);
                }
            },
            None => {},
        }
    }
}

/// What is offered after `=` (exec).
fn value_list(
    schemas: &Vec<ResourceSchema>,
    resource_type: &str,
    attr_name: &str,
    lines: &Vec<Vec<char>>,
    params: &Vec<(String, String)>,
) -> (r: Vec<Completion>)
    requires
        schemas_zones_cut(schemas@),
    ensures
        items_view(r@) == ({
            let refs = if is_suffix("_id"@, attr_name@) {
                binding_items(bindings_in(views(lines@)))
            } else {
                seq![]
            };
            let values = match schema_for(schemas@, resource_type@) {
                Some(s) => match find_schema(s.attributes@, attr_name@) {
                    Some(a) => type_items(a.attr_type),
                    None => generic_items(),
                },
                None => generic_items(),
            };
            refs + input_ref_items(pairs_view(params@)) + values
        }),
{
    let name_chars = chars_of(attr_name);
    let mut out: Vec<Completion> = if ends_with(name_chars.as_slice(), "_id") {
        let names = bindings_list(lines);
        binding_refs(&names)
    } else {
        let v: Vec<Completion> = Vec::new();
        assert(items_view(v@) =~= Seq::<CompletionModel>::empty());
        v
    };
    append_items(&mut out, input_refs(params));
    proof {
        lemma_schema_for_member(schemas@, resource_type@);
    }
    let values = match find_schema_for(schemas, resource_type) {
        Some(s) => {
            proof {
                lemma_find_schema_member(s.attributes@, attr_name@);
            }
            match s.get_attribute(attr_name) {
                Some(a) => {
                    proof {
                        let i = choose|i: int| 0 <= i < schemas@.len() && schemas@[i] == *s;
                        let j = choose|j: int| 0 <= j < s.attributes@.len() && s.attributes@[j] == *a;
                        assert(type_zones_cut(schemas@[i].attributes@[j].attr_type));
                    }
                    type_list(&a.attr_type)
                },
                None => generic_list(),
            }
        },
        None => generic_list(),
    };
    append_items(&mut out, values);
    out
}

/// What is offered after `input.` (exec).
fn input_param_completions(params: &Vec<(String, String)>) -> (r: Vec<Completion>)
    ensures
        items_view(r@) == Seq::new(
            pairs_view(params@).len(),
            |i: int|
                plain_item(
                    pairs_view(params@)[i].0,
                    CompletionKind::Field,
                    Some(
                        pairs_view(params@)[i].1 + if has_char(pairs_view(params@)[i].1, '=') {
                            ""@
                        } else {
                            " (required)"@
                        },
                    ),
                    Some(pairs_view(params@)[i].0),
                ),
        ),
{
    let ghost pv = pairs_view(params@);
    let mut out: Vec<Completion> = Vec::new();
    let mut i: usize = 0;
    proof {
        reveal_strlit("");
    }
    while i < params.len()
        invariant
            i <= params.len(),
            pv == pairs_view(params@),
            items_view(out@) == Seq::new(
                i as nat,
                |j: int|
                    plain_item(
                        pv[j].0,
                        CompletionKind::Field,
                        Some(
                            pv[j].1 + if has_char(pv[j].1, '=') {
                                ""@
                            } else {
                                " (required)"@
                            },
                        ),
                        Some(pv[j].0),
                    ),
            ),
        decreases params.len() - i,
    {
        let (n, h) = (&params[i].0, &params[i].1);
        assert(pv[i as int] == (n@, h@));
        proof {
            reveal_strlit("");
        }
        let mut detail = h.clone();
        let hc = chars_of(h.as_str());
        if !crate::text::contains_char(hc.as_slice(), '=') {
            push_str(&mut detail, " (required)");
        } else {
            assert(detail@ =~= h@ + ""@);
        }
        let ghost before = items_view(out@);
        let ghost d = detail@;
        out.push(plain(n.clone(), CompletionKind::Field, Some(detail), Some(n.clone())));
        assert(items_view(out@) =~= before.push(
            plain_item(pv[i as int].0, CompletionKind::Field, Some(d), Some(pv[i as int].0)),
        ));
        assert(items_view(out@) =~= Seq::new(
            (i + 1) as nat,
            |j: int|
                plain_item(
                    pv[j].0,
                    CompletionKind::Field,
                    Some(
                        pv[j].1 + if has_char(pv[j].1, '=') {
                            ""@
                        } else {
                            " (required)"@
                        },
                    ),
                    Some(pv[j].0),
                ),
        ));
        i += 1;
    }
    out
}

/// The parameter completions of a module's inputs (exec).
fn module_param_list(inputs: &Vec<InputParameter>) -> (r: Vec<Completion>)
    ensures
        items_view(r@) == module_param_items(inputs@),
{
    let mut out: Vec<Completion> = Vec::new();
    let mut i: usize = 0;
    proof {
        reveal_strlit("");
    }
    while i < inputs.len()
        invariant
            i <= inputs.len(),
            items_view(out@) == module_param_items(inputs@.take(i as int)),
        decreases inputs.len() - i,
    {
        let p = &inputs[i];
        proof {
            reveal_strlit("");
        }
        let mut detail = p.type_expr.to_text();
        if p.default.is_none() {
            push_str(&mut detail, " (required)");
        } else {
            assert(detail@ =~= type_text(p.type_expr@) + ""@);
        }
        let mut insert = p.name.clone();
        push_str(&mut insert, " = ");
        let ghost before = items_view(out@);
        out.push(Completion {
            label: p.name.clone(),
            kind: CompletionKind::Property,
            detail: Some(detail),
            insert_text: Some(insert),
            snippet: false,
            trigger_suggest: true,
        });
        assert(items_view(out@) =~= before.push(module_param_items(inputs@)[i as int]));
        assert(module_param_items(inputs@.take(i + 1)) =~= module_param_items(inputs@.take(i as int)).push(
            module_param_items(inputs@)[i as int],
        ));
        i += 1;
    }
    assert(inputs@.take(i as int) =~= inputs@);
    out
}

// ---------------------------------------------------------------------------
// The provider
// ---------------------------------------------------------------------------

/// Every value of the list is non-empty and ends with a one-byte character.
pub open spec fn ends_ascii(vs: Seq<Seq<char>>) -> bool {
    forall|i: int| 0 <= i < vs.len() ==> #[trigger] vs[i].len() > 0 && (vs[i].last() as u32) < 0x80
}

proof fn lemma_zone_values_end_ascii()
    ensures
        ends_ascii(crate::aws::vpc::availability_zones()),
{
    reveal_strlit("ap_northeast_1a");
    reveal_strlit("ap_northeast_1c");
    reveal_strlit("ap_northeast_1d");
    reveal_strlit("ap_northeast_2a");
    reveal_strlit("ap_northeast_2b");
    reveal_strlit("ap_northeast_2c");
    reveal_strlit("ap_northeast_2d");
    reveal_strlit("ap_northeast_3a");
    reveal_strlit("ap_northeast_3b");
    reveal_strlit("ap_northeast_3c");
    reveal_strlit("ap_southeast_1a");
    reveal_strlit("ap_southeast_1b");
    reveal_strlit("ap_southeast_1c");
    reveal_strlit("ap_southeast_2a");
    reveal_strlit("ap_southeast_2b");
    reveal_strlit("ap_southeast_2c");
    reveal_strlit("ap_south_1a");
    reveal_strlit("ap_south_1b");
    reveal_strlit("ap_south_1c");
    reveal_strlit("us_east_1a");
    reveal_strlit("us_east_1b");
    reveal_strlit("us_east_1c");
    reveal_strlit("us_east_1d");
    reveal_strlit("us_east_1e");
    reveal_strlit("us_east_1f");
    reveal_strlit("us_east_2a");
    reveal_strlit("us_east_2b");
    reveal_strlit("us_east_2c");
    reveal_strlit("us_west_1a");
    reveal_strlit("us_west_1b");
    reveal_strlit("us_west_2a");
    reveal_strlit("us_west_2b");
    reveal_strlit("us_west_2c");
    reveal_strlit("us_west_2d");
    reveal_strlit("eu_west_1a");
    reveal_strlit("eu_west_1b");
    reveal_strlit("eu_west_1c");
    reveal_strlit("eu_west_2a");
    reveal_strlit("eu_west_2b");
    reveal_strlit("eu_west_2c");
    reveal_strlit("eu_central_1a");
    reveal_strlit("eu_central_1b");
    reveal_strlit("eu_central_1c");
}

proof fn lemma_protocol_values_end_ascii()
    ensures
        ends_ascii(crate::aws::vpc::protocols()),
{
    reveal_strlit("tcp");
    reveal_strlit("udp");
    reveal_strlit("icmp");
    reveal_strlit("all");
    reveal_strlit("-1");
    reveal_strlit("Protocol.tcp");
    reveal_strlit("Protocol.udp");
    reveal_strlit("Protocol.icmp");
    reveal_strlit("Protocol.all");
    reveal_strlit("aws.Protocol.tcp");
    reveal_strlit("aws.Protocol.udp");
    reveal_strlit("aws.Protocol.icmp");
    reveal_strlit("aws.Protocol.all");
}

proof fn lemma_acl_values_end_ascii()
    ensures
        ends_ascii(seq!["private"@, "public_read"@, "public_read_write"@, "authenticated_read"@]),
{
    reveal_strlit("private");
    reveal_strlit("public_read");
    reveal_strlit("public_read_write");
    reveal_strlit("authenticated_read");
}

/// Whether each attribute type of a schema has cuttable zone values.
pub open spec fn schema_zones_cut(r: ResourceSchema) -> bool {
    forall|j: int| 0 <= j < r.attributes@.len() ==> type_zones_cut(#[trigger] r.attributes@[j].attr_type)
}

proof fn lemma_builtin_schemas_zones_cut(r: Seq<ResourceSchema>)
    requires
        r.len() == 9,
        crate::aws::s3::is_bucket_schema(r[0]),
        crate::aws::vpc::are_vpc_schemas(r.subrange(1, 9)),
    ensures
        schemas_zones_cut(r),
{
    lemma_zone_values_end_ascii();
    lemma_protocol_values_end_ascii();
    lemma_acl_values_end_ascii();
    let v = r.subrange(1, 9);
    assert(schema_zones_cut(r[0]));
    assert forall|k: int| 0 <= k < 8 implies schema_zones_cut(#[trigger] v[k]) by {
        assert(crate::aws::vpc::are_vpc_schemas(v));
    }
    assert forall|i: int, j: int|
        0 <= i < r.len() && 0 <= j < r[i].attributes@.len() implies type_zones_cut(
        #[trigger] r[i].attributes@[j].attr_type,
    ) by {
        if i == 0 {
            assert(schema_zones_cut(r[0]));
        } else {
            assert(r[i] == v[i - 1]);
            assert(schema_zones_cut(v[i - 1]));
        }
    }
}

/// Offers completions for `.crn` text.
pub struct CompletionProvider {
    /// The resource schemas, in registration order.
    pub schemas: Vec<ResourceSchema>,
}

impl CompletionProvider {
    /// A provider over the AWS schemas.
    pub fn new() -> (r: Self)
        ensures
            r.schemas.len() == 9,
            crate::aws::s3::is_bucket_schema(r.schemas@[0]),
            crate::aws::vpc::are_vpc_schemas(r.schemas@.subrange(1, 9)),
            schemas_zones_cut(r.schemas@),
    {
        let schemas = crate::aws::all_schemas();
        proof {
            lemma_builtin_schemas_zones_cut(schemas@);
        }
        CompletionProvider { schemas }
    }

    /// Where in the text completion is asked for (line and character count
    /// from 0).
    pub fn get_completion_context(&self, text: &str, line: u32, character: u32) -> (r:
        CompletionContext)
        requires
            text@.len() <= i32::MAX,
        ensures
            r@ == completion_context(text@, line as nat, character as nat),
    {
        let chars = chars_of(text);
        let lines = lines_of(chars.as_slice());
        proof {
            crate::text::lemma_lines_total(text@);
        }
        context_at(&lines, line, character)
    }

    /// What is offered at the top level of a file.
    pub fn top_level_completions(&self) -> (r: Vec<Completion>)
        ensures
            items_view(r@) == top_level_items(),
    {
        top_level_list()
    }

    /// The attribute names offered inside a block of a resource type.
    pub fn attribute_completions_for_type(&self, resource_type: &str) -> (r: Vec<Completion>)
        ensures
            items_view(r@) == attribute_items(self.schemas@, resource_type@),
    {
        attribute_list(&self.schemas, resource_type)
    }

    /// What is offered for a value of a type.
    pub fn completions_for_type(&self, attr_type: &AttributeType) -> (r: Vec<Completion>)
        requires
            type_zones_cut(*attr_type),
        ensures
            items_view(r@) == type_items(*attr_type),
    {
        type_list(attr_type)
    }

    /// What is offered for a value of unknown type.
    pub fn generic_value_completions(&self) -> (r: Vec<Completion>)
        ensures
            items_view(r@) == generic_items(),
    {
        generic_list()
    }

    /// The region completions.
    pub fn region_completions(&self) -> (r: Vec<Completion>)
        ensures
            items_view(r@) == region_items(),
    {
        region_list()
    }

    /// The protocol completions.
    pub fn protocol_completions(&self) -> (r: Vec<Completion>)
        ensures
            items_view(r@) == protocol_items(),
    {
        protocol_list()
    }

    /// The CIDR completions.
    pub fn cidr_completions(&self) -> (r: Vec<Completion>)
        ensures
            items_view(r@) == cidr_items(),
    {
        cidr_list()
    }

    /// The resource types offered inside `ref(`.
    pub fn ref_type_completions(&self) -> (r: Vec<Completion>)
        ensures
            items_view(r@) == ref_type_items(),
    {
        ref_type_list()
    }

    /// The text of a type expression.
    pub fn format_type_expr(&self, type_expr: &TypeExpr) -> (r: String)
        ensures
            r@ == type_text(type_expr@),
    {
        type_expr.to_text()
    }

    /// The schema type a line declares a resource of.
    pub fn extract_resource_type(&self, line: &str) -> (r: Option<String>)
        ensures
            match schema_type_of(line@) {
                Some(s) => r matches Some(x) && x@ == s,
                None => r is None,
            },
    {
        let l = chars_of(line);
        match schema_type_chars(l.as_slice()) {
            Some(s) => Some(str_to_string(s)),
            None => None,
        }
    }

    /// The attribute name before the first `=` of a line prefix.
    pub fn extract_attr_name(&self, prefix: &str) -> (r: String)
        ensures
            r@ == attr_name_of(prefix@),
    {
        let p = chars_of(prefix);
        let pieces = split_chars(p.as_slice(), '=');
        proof {
            assert(views(pieces@)[0] == pieces@[0]@);
        }
        string_of(trim_chars(pieces[0].as_slice()).as_slice())
    }

    /// The names bound by `let` in a text.
    pub fn extract_resource_bindings(&self, text: &str) -> (r: Vec<String>)
        ensures
            strings_view(r@) == bindings_in(text_lines(text@)),
    {
        let chars = chars_of(text);
        let lines = lines_of(chars.as_slice());
        bindings_list(&lines)
    }

    /// The input parameters a text declares, with their types.
    pub fn extract_input_parameters(&self, text: &str) -> (r: Vec<(String, String)>)
        requires
            text@.len() <= i32::MAX,
        ensures
            pairs_view(r@) == input_params(text@),
    {
        let chars = chars_of(text);
        let lines = lines_of(chars.as_slice());
        proof {
            crate::text::lemma_lines_total(text@);
        }
        input_param_list(&lines)
    }

    /// The path a module name is imported from.
    pub fn find_module_import_path(&self, module_name: &str, text: &str) -> (r: Option<String>)
        ensures
            match import_path_in(text_lines(text@), module_name@) {
                Some(p) => r matches Some(x) && x@ == p,
                None => r is None,
            },
    {
        let chars = chars_of(text);
        let lines = lines_of(chars.as_slice());
        let name = chars_of(module_name);
        match import_path_list(&lines, name.as_slice()) {
            Some(p) => Some(string_of(p.as_slice())),
            None => None,
        }
    }

    /// What is offered after `input.`.
    pub fn input_parameter_completions(&self, text: &str) -> (r: Vec<Completion>)
        requires
            text@.len() <= i32::MAX,
        ensures
            items_view(r@) == input_param_items(text@),
    {
        let params = self.extract_input_parameters(text);
        input_param_completions(&params)
    }

    /// What is offered after `=`.
    pub fn value_completions_for_attr(&self, resource_type: &str, attr_name: &str, text: &str) -> (r:
        Vec<Completion>)
        requires
            text@.len() <= i32::MAX,
            schemas_zones_cut(self.schemas@),
        ensures
            items_view(r@) == value_items(self.schemas@, resource_type@, attr_name@, text@),
    {
        let chars = chars_of(text);
        let lines = lines_of(chars.as_slice());
        proof {
            crate::text::lemma_lines_total(text@);
        }
        let params = input_param_list(&lines);
        value_list(&self.schemas, resource_type, attr_name, &lines, &params)
    }

    /// The parameters of the module a call block names, taken from the
    /// module's parsed file (read from the import path by the caller).
    pub fn module_parameter_completions(
        &self,
        module_name: &str,
        text: &str,
        module: Option<&ParsedFile>,
    ) -> (r: Vec<Completion>)
        ensures
            items_view(r@) == match import_path_in(text_lines(text@), module_name@) {
                Some(_) => match module {
                    Some(f) => module_param_items(f.inputs@),
                    None => seq![],
                },
                None => seq![],
            },
    {
        let path = self.find_module_import_path(module_name, text);
        match (path, module) {
            (Some(_), Some(f)) => module_param_list(&f.inputs),
            _ => {
                let v: Vec<Completion> = Vec::new();
                assert(items_view(v@) =~= Seq::<CompletionModel>::empty());
                v
            },
        }
    }

    /// The import path of the module whose call block holds the position, if
    /// any (the file the caller reads and parses for `complete`).
    pub fn module_import_at(&self, text: &str, line: u32, character: u32) -> (r: Option<String>)
        requires
            text@.len() <= i32::MAX,
        ensures
            match completion_context(text@, line as nat, character as nat) {
                ContextModel::InsideModuleCall { module_name } => match import_path_in(
                    text_lines(text@),
                    module_name,
                ) {
                    Some(p) => r matches Some(x) && x@ == p,
                    None => r is None,
                },
                _ => r is None,
            },
    {
        match self.get_completion_context(text, line, character) {
            CompletionContext::InsideModuleCall { module_name } => self.find_module_import_path(
                module_name.as_str(),
                text,
            ),
            _ => None,
        }
    }

    /// What is offered at a position of a text. `module` is the parsed file of
    /// the module whose call block holds the position (see
    /// `module_import_at`), when it could be read and parsed.
    pub fn complete(&self, text: &str, line: u32, character: u32, module: Option<&ParsedFile>) -> (r:
        Vec<Completion>)
        requires
            text@.len() <= i32::MAX,
            schemas_zones_cut(self.schemas@),
        ensures
            items_view(r@) == completions_at(
                self.schemas@,
                text@,
                line as nat,
                character as nat,
                opt_inputs(module),
            ),
    {
        match self.get_completion_context(text, line, character) {
            CompletionContext::TopLevel => self.top_level_completions(),
            CompletionContext::InsideResourceBlock { resource_type } => self.attribute_completions_for_type(
                resource_type.as_str(),
            ),
            CompletionContext::InsideModuleCall { module_name } => self.module_parameter_completions(
                module_name.as_str(),
                text,
                module,
            ),
            CompletionContext::AfterEquals { resource_type, attr_name } => self.value_completions_for_attr(
                resource_type.as_str(),
                attr_name.as_str(),
                text,
            ),
            CompletionContext::AfterAwsRegion => self.region_completions(),
            CompletionContext::AfterRefType => self.ref_type_completions(),
            CompletionContext::AfterInputDot => self.input_parameter_completions(text),
        }
    }
}

} // verus!
