//! Diagnostics for `.crn` text: the parse error, unknown resource types, and
//! resource references given where a string is expected.

use vstd::prelude::*;

use crate::lsp::semantic_tokens::{col, find_any, first_of_from, lemma_find_from_bounds, lemma_first_of_from_bounds};
use crate::parser::grammar::ErrModel;
use crate::parser::{error_text, ParseError, ParsedFile};
use crate::resource::{Resource, Value, ValueModel};
use crate::schema::{find_schema, AttributeType, ResourceSchema};
use crate::text::{
    byte_len, byte_offsets, chars_of, find_chars_from, find_from, is_prefix, is_suffix, lines_of,
    push_chars, push_str, replace_char, replace_char_chars, slice_chars, starts_with, str_eq,
    str_to_string, string_of, text_lines, views,
};

verus! {

/// How serious a diagnostic is.
#[derive(Debug, Clone, Copy, PartialEq, Eq, Structural)]
pub enum DiagnosticSeverity {
    Error,
    Warning,
}

/// A diagnostic: a range of the text (line and character from 0), its
/// severity, where it comes from and what it says.
#[derive(Debug, Clone)]
pub struct Diagnostic {
    pub start_line: u32,
    pub start_character: u32,
    pub end_line: u32,
    pub end_character: u32,
    pub severity: DiagnosticSeverity,
    pub source: String,
    pub message: String,
}

/// The mathematical content of a diagnostic.
pub struct DiagnosticModel {
    pub start_line: u32,
    pub start_character: u32,
    pub end_line: u32,
    pub end_character: u32,
    pub severity: DiagnosticSeverity,
    pub source: Seq<char>,
    pub message: Seq<char>,
}

impl View for Diagnostic {
    type V = DiagnosticModel;

    open spec fn view(&self) -> DiagnosticModel {
        DiagnosticModel {
            start_line: self.start_line,
            start_character: self.start_character,
            end_line: self.end_line,
            end_character: self.end_character,
            severity: self.severity,
            source: self.source@,
            message: self.message@,
        }
    }
}

/// The models of a list of diagnostics.
pub open spec fn diags_view(v: Seq<Diagnostic>) -> Seq<DiagnosticModel> {
    Seq::new(v.len(), |i: int| v[i]@)
}

/// A diagnostic of this tool over one line.
pub open spec fn diag(
    line: u32,
    start: u32,
    end: u32,
    severity: DiagnosticSeverity,
    message: Seq<char>,
) -> DiagnosticModel {
    DiagnosticModel {
        start_line: line,
        start_character: start,
        end_line: line,
        end_character: end,
        severity,
        source: "carina"@,
        message,
    }
}

/// The diagnostic of a parse error.
pub open spec fn parse_error_diag(e: ErrModel) -> DiagnosticModel {
    match e {
        ErrModel::Syntax { line, column } => {
            let l = (if line > 0 {
                line - 1
            } else {
                0
            }) as u32;
            diag(
                l,
                (if column > 0 {
                    column - 1
                } else {
                    0
                }) as u32,
                column as u32,
                DiagnosticSeverity::Error,
                error_text(e),
            )
        },
        ErrModel::InvalidExpression { line, message } => {
            let l = line as u32;
            let l1 = (if l > 0 {
                l - 1
            } else {
                0
            }) as u32;
            diag(l1, 0, 100, DiagnosticSeverity::Error, message)
        },
        ErrModel::EnvVarNotSet(_) => diag(0, 0, 0, DiagnosticSeverity::Warning, error_text(e)),
        _ => diag(0, 0, 0, DiagnosticSeverity::Error, error_text(e)),
    }
}

/// The resource types the editor knows.
pub open spec fn known_resource_type(t: Seq<char>) -> bool {
    t == "s3_bucket"@ || t == "vpc"@ || t == "subnet"@ || t == "internet_gateway"@ || t
        == "route_table"@ || t == "security_group"@ || t == "security_group.ingress_rule"@ || t
        == "security_group.egress_rule"@
}

/// How a resource type is written in the DSL.
pub open spec fn dsl_type(t: Seq<char>) -> Seq<char> {
    if t == "s3_bucket"@ {
        "aws.s3.bucket"@
    } else {
        "aws."@ + replace_char(t, '_', '.')
    }
}

/// The first line holding a text, and the byte column where it starts there.
pub open spec fn first_line_with(lines: Seq<Seq<char>>, pat: Seq<char>, k: int) -> Option<(int, int)>
    decreases lines.len() - k,
{
    if k < 0 || k >= lines.len() {
        None
    } else {
        match find_from(lines[k], pat, 0) {
            Some(p) => Some((k, col(lines[k], p))),
            None => first_line_with(lines, pat, k + 1),
        }
    }
}

/// Where a value stands after the `=` of the first line that holds `name `
/// and `=` and holds the value after its first `=`.
pub open spec fn value_line(lines: Seq<Seq<char>>, name: Seq<char>, value: Seq<char>, k: int) -> Option<
    (int, int),
>
    decreases lines.len() - k,
{
    if k < 0 || k >= lines.len() {
        None
    } else {
        let l = lines[k];
        let next = value_line(lines, name, value, k + 1);
        if find_from(l, name + " "@, 0) is Some {
            match first_of_from(l, 0, seq!['=']) {
                Some(q) => match find_from(l.skip(q + 1), value, 0) {
                    Some(v) => Some((k, col(l, q + 1 + v))),
                    None => next,
                },
                None => next,
            }
        } else {
            next
        }
    }
}

/// The warning for a resource reference given where a string is expected.
pub open spec fn reference_warning(at: (int, int), binding: Seq<char>) -> DiagnosticModel {
    diag(
        at.0 as u32,
        at.1 as u32,
        (at.1 + byte_len(binding)) as u32,
        DiagnosticSeverity::Warning,
        "Expected string, got resource reference '"@ + binding + "'. Did you mean '"@ + binding
            + ".name'?"@,
    )
}

/// The binding a `${binding}` text stands for.
pub open spec fn placeholder_binding(s: Seq<char>) -> Option<Seq<char>> {
    if is_prefix("${"@, s) && is_suffix("}"@, s.skip(2)) {
        Some(s.subrange(2, s.len() - 1))
    } else {
        None
    }
}

/// The warnings for one attribute of a resource with a schema.
pub open spec fn attribute_warnings(
    lines: Seq<Seq<char>>,
    schema: ResourceSchema,
    name: Seq<char>,
    value: ValueModel,
) -> Seq<DiagnosticModel> {
    let expects_string = match find_schema(schema.attributes@, name) {
        Some(a) => a.attr_type is String,
        None => false,
    };
    if is_prefix("_"@, name) || !expects_string {
        seq![]
    } else {
        let from_ref = match value {
            ValueModel::ResourceRef(b, _) => match value_line(lines, name, b, 0) {
                Some(at) => seq![reference_warning(at, b)],
                None => seq![],
            },
            _ => seq![],
        };
        let from_placeholder = match value {
            ValueModel::Str(s) => match placeholder_binding(s) {
                Some(b) => match value_line(lines, name, b, 0) {
                    Some(at) => seq![reference_warning(at, b)],
                    None => seq![],
                },
                None => seq![],
            },
            _ => seq![],
        };
        from_ref + from_placeholder
    }
}

/// The warnings for the attributes of a resource, in attribute order.
pub open spec fn attributes_warnings(
    lines: Seq<Seq<char>>,
    schema: ResourceSchema,
    attrs: Seq<(Seq<char>, ValueModel)>,
) -> Seq<DiagnosticModel>
    decreases attrs.len(),
{
    if attrs.len() == 0 {
        seq![]
    } else {
        attributes_warnings(lines, schema, attrs.drop_last()) + attribute_warnings(
            lines,
            schema,
            attrs.last().0,
            attrs.last().1,
        )
    }
}

/// The warnings for the resources, in order.
pub open spec fn resources_diags(
    lines: Seq<Seq<char>>,
    valid: Seq<Seq<char>>,
    schemas: Seq<(Seq<char>, ResourceSchema)>,
    rs: Seq<Resource>,
) -> Seq<DiagnosticModel>
    decreases rs.len(),
{
    if rs.len() == 0 {
        seq![]
    } else {
        resources_diags(lines, valid, schemas, rs.drop_last()) + resource_diags(
            lines,
            valid,
            schemas,
            rs.last(),
        )
    }
}

/// The schema checked for a resource type.
pub open spec fn schema_in(schemas: Seq<(Seq<char>, ResourceSchema)>, t: Seq<char>) -> Option<
    ResourceSchema,
>
    decreases schemas.len(),
{
    if schemas.len() == 0 {
        None
    } else if schemas[0].0 == t {
        Some(schemas[0].1)
    } else {
        schema_in(schemas.drop_first(), t)
    }
}

/// The diagnostics of one resource: an unknown type, then the warnings of its
/// attributes.
pub open spec fn resource_diags(
    lines: Seq<Seq<char>>,
    valid: Seq<Seq<char>>,
    schemas: Seq<(Seq<char>, ResourceSchema)>,
    r: Resource,
) -> Seq<DiagnosticModel> {
    let t = r.id.resource_type@;
    let unknown = if !valid.contains(t) {
        match first_line_with(lines, dsl_type(t), 0) {
            Some((l, c)) => seq![
                diag(
                    l as u32,
                    c as u32,
                    (c + byte_len(t) + 4) as u32,
                    DiagnosticSeverity::Error,
                    "Unknown resource type: aws."@ + replace_char(t, '_', '.'),
                ),
            ],
            None => seq![],
        }
    } else {
        seq![]
    };
    let warnings = match schema_in(schemas, t) {
        Some(s) => attributes_warnings(lines, s, r.attributes@),
        None => seq![],
    };
    unknown + warnings
}

/// The diagnostics of a text and the outcome of parsing it.
pub open spec fn analysis(
    text: Seq<char>,
    valid: Seq<Seq<char>>,
    schemas: Seq<(Seq<char>, ResourceSchema)>,
    parsed: Result<ParsedFile, ParseError>,
) -> Seq<DiagnosticModel> {
    match parsed {
        Err(e) => seq![parse_error_diag(e@)],
        Ok(f) => resources_diags(text_lines(text), valid, schemas, f.resources@),
    }
}

/// Lines whose byte lengths fit in `u32` columns, and whose count fits in
/// `u32` line numbers.
pub open spec fn lines_fit(lines: Seq<Seq<char>>) -> bool {
    &&& lines.len() <= u32::MAX
    &&& forall|i: int| 0 <= i < lines.len() ==> byte_len(#[trigger] lines[i]) <= u32::MAX
}

/// The diagnostic of a parse error (exec).
pub fn parse_error_to_diagnostic(error: &ParseError) -> (r: Diagnostic)
    ensures
        r@ == parse_error_diag(error@),
{
    let source = str_to_string("carina");
    match error {
        ParseError::Syntax { line, column } => {
            let l = (if *line > 0 {
                *line - 1
            } else {
                0
            }) as u32;
            let c = (if *column > 0 {
                *column - 1
            } else {
                0
            }) as u32;
            Diagnostic {
                start_line: l,
                start_character: c,
                end_line: l,
                end_character: *column as u32,
                severity: DiagnosticSeverity::Error,
                source,
                message: error.message(),
            }
        },
        ParseError::InvalidExpression { line, message } => {
            let l = *line as u32;
            let l1 = if l > 0 {
                l - 1
            } else {
                0
            };
            Diagnostic {
                start_line: l1,
                start_character: 0,
                end_line: l1,
                end_character: 100,
                severity: DiagnosticSeverity::Error,
                source,
                message: message.clone(),
            }
        },
        ParseError::EnvVarNotSet(_) => Diagnostic {
            start_line: 0,
            start_character: 0,
            end_line: 0,
            end_character: 0,
            severity: DiagnosticSeverity::Warning,
            source,
            message: error.message(),
        },
        _ => Diagnostic {
            start_line: 0,
            start_character: 0,
            end_line: 0,
            end_character: 0,
            severity: DiagnosticSeverity::Error,
            source,
            message: error.message(),
        },
    }
}

/// The first line holding a text (see `first_line_with`), with where the text
/// ends there.
fn find_line_with(lines: &Vec<Vec<char>>, pat: &[char]) -> (r: Option<(usize, usize)>)
    requires
        lines_fit(views(lines@)),
    ensures
        match first_line_with(views(lines@), pat@, 0) {
            Some((l, c)) => r == Some((l as usize, c as usize)) && 0 <= l < lines.len() && 0 <= c
                && c + byte_len(pat@) <= byte_len(lines@[l]@),
            None => r is None,
        },
{
    let ghost ls = views(lines@);
    let mut k: usize = 0;
    while k < lines.len()
        invariant
            k <= lines.len(),
            ls == views(lines@),
            lines_fit(ls),
            first_line_with(ls, pat@, 0) == first_line_with(ls, pat@, k as int),
        decreases lines.len() - k,
    {
        let l = lines[k].as_slice();
        assert(ls[k as int] == l@);
        proof {
            lemma_find_from_bounds(l@, pat@, 0);
        }
        match find_chars_from(l, pat, 0) {
            Some(p) => {
                assert(l@.len() == l.len());
                assert(find_from(l@, pat@, 0) == Some(p as int));
                let off = byte_offsets(l);
                proof {
                    assert(l@.subrange(p as int, p + pat.len()) == pat@);
                    crate::text::lemma_byte_len_sub(l@, p as int, p + pat.len());
                    crate::text::lemma_byte_len_mono(l@, p + pat.len(), l.len() as int);
                    assert(l@.take(l.len() as int) =~= l@);
                }
                return Some((k, off[p]));
            },
            None => {},
        }
        k += 1;
    }
    None
}

/// Where a value stands after the `=` of a line (see `value_line`), with
/// where it ends there.
fn find_value_line(lines: &Vec<Vec<char>>, name: &[char], value: &[char]) -> (r: Option<
    (usize, usize),
>)
    requires
        lines_fit(views(lines@)),
    ensures
        match value_line(views(lines@), name@, value@, 0) {
            Some((l, c)) => r == Some((l as usize, c as usize)) && 0 <= l < lines.len() && 0 <= c
                && c + byte_len(value@) <= byte_len(lines@[l]@),
            None => r is None,
        },
{
    let ghost ls = views(lines@);
    let mut pattern = crate::text::copy_chars(name);
    pattern.push(' ');
    let ghost pat = name@ + " "@;
    proof {
        reveal_strlit(" ");
        assert(pattern@ =~= pat);
    }
    let mut eq: Vec<char> = Vec::new();
    eq.push('=');
    assert(eq@ =~= seq!['=']);
    let mut k: usize = 0;
    while k < lines.len()
        invariant
            k <= lines.len(),
            ls == views(lines@),
            lines_fit(ls),
            pattern@ == name@ + " "@,
            eq@ == seq!['='],
            value_line(ls, name@, value@, 0) == value_line(ls, name@, value@, k as int),
        decreases lines.len() - k,
    {
        let l = lines[k].as_slice();
        assert(ls[k as int] == l@);
        if find_chars_from(l, pattern.as_slice(), 0).is_some() {
            proof {
                lemma_first_of_from_bounds(l@, 0, seq!['=']);
            }
            match find_any(l, 0, eq.as_slice()) {
                Some(q) => {
                    assert(l@.len() == l.len());
                    assert(first_of_from(l@, 0, seq!['=']) == Some(q as int));
                    let after = slice_chars(l, q + 1, l.len());
                    assert(after@ =~= l@.skip(q + 1));
                    proof {
                        lemma_find_from_bounds(after@, value@, 0);
                    }
                    match find_chars_from(after.as_slice(), value, 0) {
                        Some(v) => {
                            assert(find_from(after@, value@, 0) == Some(v as int));
                            let off = byte_offsets(l);
                            let at = q + 1 + v;
                            proof {
                                assert(l@.subrange(at as int, at + value.len()) =~= after@.subrange(
                                    v as int,
                                    v + value.len(),
                                ));
                                crate::text::lemma_byte_len_sub(l@, at as int, at + value.len());
                                crate::text::lemma_byte_len_mono(l@, at + value.len(), l.len() as int);
                                assert(l@.take(l.len() as int) =~= l@);
                            }
                            return Some((k, off[at]));
                        },
                        None => {},
                    }
                },
                None => {},
            }
        }
        k += 1;
    }
    None
}

/// The warning for a resource reference at a place (exec).
fn reference_warning_at(at: (usize, usize), binding: &[char]) -> (r: Diagnostic)
    requires
        at.0 <= u32::MAX,
        at.1 + byte_len(binding@) <= u32::MAX,
    ensures
        r@ == reference_warning((at.0 as int, at.1 as int), binding@),
{
    proof {
        crate::text::lemma_byte_len_mono(binding@, binding.len() as int, binding.len() as int);
    }
    let n = crate::text::bytes_of(binding);
    let mut message = str_to_string("Expected string, got resource reference '");
    push_chars(&mut message, binding);
    push_str(&mut message, "'. Did you mean '");
    push_chars(&mut message, binding);
    push_str(&mut message, ".name'?");
    Diagnostic {
        start_line: at.0 as u32,
        start_character: at.1 as u32,
        end_line: at.0 as u32,
        end_character: (at.1 + n) as u32,
        severity: DiagnosticSeverity::Warning,
        source: str_to_string("carina"),
        message,
    }
}

/// The binding a `${binding}` text stands for (exec).
fn placeholder_of(s: &[char]) -> (r: Option<Vec<char>>)
    ensures
        match placeholder_binding(s@) {
            Some(b) => r matches Some(v) && v@ == b,
            None => r is None,
        },
{
    let open = chars_of("${");
    proof {
        reveal_strlit("${");
        reveal_strlit("}");
    }
    if !starts_with(s, open.as_slice()) {
        return None;
    }
    let rest = slice_chars(s, 2, s.len());
    assert(rest@ =~= s@.skip(2));
    if rest.len() >= 1 && rest[rest.len() - 1] == '}' {
        assert(rest@.skip(rest@.len() - 1) =~= "}"@);
        let b = slice_chars(s, 2, s.len() - 1);
        Some(b)
    } else {
        proof {
            if is_suffix("}"@, rest@) {
                assert(rest@.skip(rest@.len() - 1)[0] == '}');
            }
        }
        None
    }
}

/// Appends the warnings for one attribute of a resource with a schema.
fn push_attribute_warnings(
    lines: &Vec<Vec<char>>,
    schema: &ResourceSchema,
    name: &String,
    value: &Value,
    out: &mut Vec<Diagnostic>,
)
    requires
        lines_fit(views(lines@)),
    ensures
        diags_view(final(out)@) == diags_view(old(out)@) + attribute_warnings(
            views(lines@),
            *schema,
            name@,
            value@,
        ),
{
    let ghost before = diags_view(out@);
    let nc = chars_of(name.as_str());
    let underscore = chars_of("_");
    let expects_string = match schema.get_attribute(name.as_str()) {
        Some(a) => match a.attr_type {
            AttributeType::String => true,
            _ => false,
        },
        None => false,
    };
    if starts_with(nc.as_slice(), underscore.as_slice()) || !expects_string {
        assert(diags_view(out@) =~= before + Seq::<DiagnosticModel>::empty());
        return;
    }
    match value {
        Value::ResourceRef(b, _) => {
            let bc = chars_of(b.as_str());
            match find_value_line(lines, nc.as_slice(), bc.as_slice()) {
                Some(at) => {
                    proof {
                        assert(views(lines@)[at.0 as int] == lines@[at.0 as int]@);
                        assert(byte_len(lines@[at.0 as int]@) <= u32::MAX);
                    }
                    out.push(reference_warning_at(at, bc.as_slice()));
                },
                None => {},
            }
        },
        _ => {},
    }
    let ghost mid = diags_view(out@);
    match value {
        Value::String(s) => {
            let sc = chars_of(s.as_str());
            match placeholder_of(sc.as_slice()) {
                Some(b) => match find_value_line(lines, nc.as_slice(), b.as_slice()) {
                    Some(at) => {
                        proof {
                            assert(views(lines@)[at.0 as int] == lines@[at.0 as int]@);
                        assert(byte_len(lines@[at.0 as int]@) <= u32::MAX);
                        }
                        out.push(reference_warning_at(at, b.as_slice()));
                    },
                    None => {},
                },
                None => {},
            }
        },
        _ => {},
    }
    assert(diags_view(out@) =~= before + attribute_warnings(views(lines@), *schema, name@, value@));
}

/// The table of schemas by resource type, as text.
pub open spec fn table_view(v: Seq<(String, ResourceSchema)>) -> Seq<(Seq<char>, ResourceSchema)> {
    Seq::new(v.len(), |i: int| (v[i].0@, v[i].1))
}

proof fn lemma_dsl_type_bytes(t: Seq<char>)
    ensures
        dsl_type(t) == "aws."@ + replace_char(t, '_', '.'),
        byte_len(dsl_type(t)) == byte_len(t) + 4,
{
    reveal_strlit("aws.");
    reveal_strlit("s3_bucket");
    reveal_strlit("aws.s3.bucket");
    if t == "s3_bucket"@ {
        assert("aws.s3.bucket"@ =~= "aws."@ + replace_char(t, '_', '.'));
    }
    crate::text::lemma_byte_len_concat("aws."@, replace_char(t, '_', '.'));
    crate::text::lemma_replace_char_bytes(t, '_', '.');
    reveal_with_fuel(byte_len, 5);
    assert(byte_len("aws."@) == 4);
}

/// Reports problems in `.crn` text.
pub struct DiagnosticEngine {
    /// The resource types the editor knows.
    pub valid_resource_types: Vec<String>,
    /// The schemas whose string attributes are checked, by resource type.
    pub schemas: Vec<(String, ResourceSchema)>,
}

/// The resource types the editor knows, in a list.
pub open spec fn known_types() -> Seq<Seq<char>> {
    seq![
        "s3_bucket"@,
        "vpc"@,
        "subnet"@,
        "internet_gateway"@,
        "route_table"@,
        "security_group"@,
        "security_group.ingress_rule"@,
        "security_group.egress_rule"@,
    ]
}

/// The resource types whose string attributes are checked, in table order.
pub open spec fn checked_types() -> Seq<Seq<char>> {
    seq![
        "vpc"@,
        "subnet"@,
        "internet_gateway"@,
        "route_table"@,
        "security_group"@,
        "security_group.ingress_rule"@,
        "security_group.egress_rule"@,
    ]
}

impl DiagnosticEngine {
    /// An engine over the known resource types and the EC2 schemas.
    pub fn new() -> (r: Self)
        ensures
            crate::schema::strings_view(r.valid_resource_types@) == known_types(),
            r.schemas.len() == 7,
            forall|i: int| 0 <= i < 7 ==> (#[trigger] r.schemas@[i]).0@ == checked_types()[i],
            crate::ec2::is_vpc_schema(r.schemas@[0].1),
            crate::ec2::is_subnet_schema(r.schemas@[1].1),
            crate::ec2::is_internet_gateway_schema(r.schemas@[2].1),
            crate::ec2::is_route_table_schema(r.schemas@[3].1),
            crate::ec2::is_security_group_schema(r.schemas@[4].1),
            crate::ec2::is_ingress_rule_schema(r.schemas@[5].1),
            crate::ec2::is_egress_rule_schema(r.schemas@[6].1),
    {
        let mut valid: Vec<String> = Vec::new();
        valid.push(str_to_string("s3_bucket"));
        valid.push(str_to_string("vpc"));
        valid.push(str_to_string("subnet"));
        valid.push(str_to_string("internet_gateway"));
        valid.push(str_to_string("route_table"));
        valid.push(str_to_string("security_group"));
        valid.push(str_to_string("security_group.ingress_rule"));
        valid.push(str_to_string("security_group.egress_rule"));
        assert(crate::schema::strings_view(valid@) =~= known_types());
        let mut schemas: Vec<(String, ResourceSchema)> = Vec::new();
        schemas.push((str_to_string("vpc"), crate::ec2::vpc_schema()));
        schemas.push((str_to_string("subnet"), crate::ec2::subnet_schema()));
        schemas.push((str_to_string("internet_gateway"), crate::ec2::internet_gateway_schema()));
        schemas.push((str_to_string("route_table"), crate::ec2::route_table_schema()));
        schemas.push((str_to_string("security_group"), crate::ec2::security_group_schema()));
        schemas.push(
            (
                str_to_string("security_group.ingress_rule"),
                crate::ec2::security_group_ingress_rule_schema(),
            ),
        );
        schemas.push(
            (
                str_to_string("security_group.egress_rule"),
                crate::ec2::security_group_egress_rule_schema(),
            ),
        );
        DiagnosticEngine { valid_resource_types: valid, schemas }
    }

    /// The schema whose string attributes are checked for a resource type.
    pub fn get_schema_for_type(&self, resource_type: &str) -> (r: Option<&ResourceSchema>)
        ensures
            match schema_in(table_view(self.schemas@), resource_type@) {
                Some(s) => r matches Some(x) && *x == s,
                None => r is None,
            },
    {
        let ghost tv = table_view(self.schemas@);
        let mut i: usize = 0;
        proof {
            assert(tv.skip(0) =~= tv);
        }
        while i < self.schemas.len()
            invariant
                i <= self.schemas.len(),
                tv == table_view(self.schemas@),
                schema_in(tv, resource_type@) == schema_in(tv.skip(i as int), resource_type@),
            decreases self.schemas.len() - i,
        {
            proof {
                assert(tv.skip(i as int)[0] == tv[i as int]);
                assert(tv.skip(i as int).drop_first() =~= tv.skip(i + 1));
            }
            if str_eq(self.schemas[i].0.as_str(), resource_type) {
                return Some(&self.schemas[i].1);
            }
            i += 1;
        }
        None
    }

    /// Whether the editor knows a resource type.
    fn is_known(&self, t: &String) -> (r: bool)
        ensures
            r == crate::schema::strings_view(self.valid_resource_types@).contains(t@),
    {
        let ghost sv = crate::schema::strings_view(self.valid_resource_types@);
        let mut i: usize = 0;
        while i < self.valid_resource_types.len()
            invariant
                i <= self.valid_resource_types.len(),
                sv == crate::schema::strings_view(self.valid_resource_types@),
                forall|j: int| 0 <= j < i ==> sv[j] != t@,
            decreases self.valid_resource_types.len() - i,
        {
            if str_eq(self.valid_resource_types[i].as_str(), t.as_str()) {
                assert(sv[i as int] == t@);
                return true;
            }
            i += 1;
        }
        false
    }

    /// Appends the diagnostics of one resource.
    fn push_resource_diags(&self, lines: &Vec<Vec<char>>, r: &Resource, out: &mut Vec<Diagnostic>)
        requires
            lines_fit(views(lines@)),
        ensures
            diags_view(final(out)@) == diags_view(old(out)@) + resource_diags(
                views(lines@),
                crate::schema::strings_view(self.valid_resource_types@),
                table_view(self.schemas@),
                *r,
            ),
    {
        let ghost before = diags_view(out@);
        let t = &r.id.resource_type;
        if !self.is_known(t) {
            let tc = chars_of(t.as_str());
            let replaced = replace_char_chars(tc.as_slice(), '_', '.');
            let mut dsl = chars_of("aws.");
            let mut rep = replaced.clone();
            dsl.append(&mut rep);
            proof {
                lemma_dsl_type_bytes(t@);
                assert(dsl@ =~= dsl_type(t@));
            }
            match find_line_with(lines, dsl.as_slice()) {
                Some((l, c)) => {
                    proof {
                        assert(views(lines@)[l as int] == lines@[l as int]@);
                        assert(byte_len(lines@[l as int]@) <= u32::MAX);
                    }
                    let n = crate::text::bytes_of(tc.as_slice());
                    let mut message = str_to_string("Unknown resource type: aws.");
                    push_chars(&mut message, replaced.as_slice());
                    out.push(Diagnostic {
                        start_line: l as u32,
                        start_character: c as u32,
                        end_line: l as u32,
                        end_character: (c + n + 4) as u32,
                        severity: DiagnosticSeverity::Error,
                        source: str_to_string("carina"),
                        message,
                    });
                },
                None => {},
            }
        }
        let ghost mid = diags_view(out@);
        match self.get_schema_for_type(t.as_str()) {
            Some(s) => {
                let entries = &r.attributes.entries;
                let mut k: usize = 0;
                proof {
                    assert(r.attributes@.take(0) =~= Seq::<(Seq<char>, ValueModel)>::empty());
                    assert(diags_view(out@) =~= mid + attributes_warnings(
                        views(lines@),
                        *s,
                        r.attributes@.take(0),
                    ));
                }
                while k < entries.len()
                    invariant
                        k <= entries.len(),
                        entries@ == r.attributes.entries@,
                        lines_fit(views(lines@)),
                        diags_view(out@) == mid + attributes_warnings(
                            views(lines@),
                            *s,
                            r.attributes@.take(k as int),
                        ),
                    decreases entries.len() - k,
                {
                    proof {
                        assert(r.attributes@.take(k + 1).drop_last() =~= r.attributes@.take(k as int));
                        assert(r.attributes@[k as int] == (entries@[k as int].0@, entries@[k as int].1@));
                    }
                    push_attribute_warnings(lines, s, &entries[k].0, &entries[k].1, out);
                    k += 1;
                }
                proof {
                    assert(r.attributes@.take(k as int) =~= r.attributes@);
                }
            },
            None => {},
        }
        assert(diags_view(out@) =~= before + resource_diags(
            views(lines@),
            crate::schema::strings_view(self.valid_resource_types@),
            table_view(self.schemas@),
            *r,
        ));
    }

    /// The diagnostics of a text and the outcome of parsing it: the parse
    /// error, or the problems of each resource in turn.
    pub fn analyze(&self, text: &str, parsed: &Result<ParsedFile, ParseError>) -> (r: Vec<Diagnostic>)
        requires
            byte_len(text@) <= u32::MAX,
        ensures
            diags_view(r@) == analysis(
                text@,
                crate::schema::strings_view(self.valid_resource_types@),
                table_view(self.schemas@),
                *parsed,
            ),
    {
        let mut out: Vec<Diagnostic> = Vec::new();
        match parsed {
            Err(e) => {
                out.push(parse_error_to_diagnostic(e));
                assert(diags_view(out@) =~= seq![parse_error_diag(e@)]);
            },
            Ok(f) => {
                let chars = chars_of(text);
                let lines = lines_of(chars.as_slice());
                proof {
                    crate::text::lemma_lines_count(text@);
                    crate::text::lemma_len_le_byte_len(text@);
                    assert forall|i: int| 0 <= i < views(lines@).len() implies byte_len(
                        #[trigger] views(lines@)[i],
                    ) <= u32::MAX by {
                        assert(views(lines@)[i] == lines@[i]@);
                    }
                }
                let rs = &f.resources;
                let mut k: usize = 0;
                proof {
                    assert(rs@.take(0) =~= Seq::<Resource>::empty());
                    assert(diags_view(out@) =~= Seq::<DiagnosticModel>::empty());
                }
                while k < rs.len()
                    invariant
                        k <= rs.len(),
                        lines_fit(views(lines@)),
                        views(lines@) == text_lines(text@),
                        diags_view(out@) == resources_diags(
                            views(lines@),
                            crate::schema::strings_view(self.valid_resource_types@),
                            table_view(self.schemas@),
                            rs@.take(k as int),
                        ),
                    decreases rs.len() - k,
                {
                    proof {
                        assert(rs@.take(k + 1).drop_last() =~= rs@.take(k as int));
                    }
                    self.push_resource_diags(&lines, &rs[k], &mut out);
                    k += 1;
                }
                proof {
                    assert(rs@.take(k as int) =~= rs@);
                }
            },
        }
        out
    }
}

} // verus!
