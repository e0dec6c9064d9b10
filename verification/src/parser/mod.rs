//! Parser - Parse .crn files

pub mod expr;
pub mod grammar;
pub mod lexer;
pub mod resolve;
pub mod statements;

use vstd::prelude::*;

use crate::parser::grammar::{Entries, ErrModel, ParamModel, ResModel, TypeModel};
use crate::resource::{Resource, ResourceTypePath, Value, ValueMap};
use crate::text::{push_chars, push_str, str_to_string, usize_text};

verus! {

/// Parse error
#[derive(Debug, Clone)]
pub enum ParseError {
    /// The text does not follow the grammar; the position of the offending
    /// character or token, counted from 1.
    Syntax { line: usize, column: usize },
    InvalidExpression { line: usize, message: String },
    UndefinedVariable(String),
    EnvVarNotSet(String),
    InvalidResourceType(String),
    DuplicateModule(String),
    ModuleNotFound(String),
}

impl View for ParseError {
    type V = ErrModel;

    open spec fn view(&self) -> ErrModel {
        match self {
            ParseError::Syntax { line, column } => ErrModel::Syntax {
                line: *line as nat,
                column: *column as nat,
            },
            ParseError::InvalidExpression { line, message } => ErrModel::InvalidExpression {
                line: *line as nat,
                message: message@,
            },
            ParseError::UndefinedVariable(s) => ErrModel::UndefinedVariable(s@),
            ParseError::EnvVarNotSet(s) => ErrModel::EnvVarNotSet(s@),
            ParseError::InvalidResourceType(s) => ErrModel::InvalidResourceType(s@),
            ParseError::DuplicateModule(s) => ErrModel::DuplicateModule(s@),
            ParseError::ModuleNotFound(s) => ErrModel::ModuleNotFound(s@),
        }
    }
}

/// The message of a parse error.
pub open spec fn error_text(e: ErrModel) -> Seq<char> {
    match e {
        ErrModel::Syntax { line, column } => "Syntax error at line "@ + crate::text::nat_digits(line)
            + ", column "@ + crate::text::nat_digits(column),
        ErrModel::InvalidExpression { line, message } => "Invalid expression at line "@
            + crate::text::nat_digits(line) + ": "@ + message,
        ErrModel::UndefinedVariable(s) => "Undefined variable: "@ + s,
        ErrModel::EnvVarNotSet(s) => "Environment variable not set: "@ + s,
        ErrModel::InvalidResourceType(s) => "Invalid resource type: "@ + s,
        ErrModel::DuplicateModule(s) => "Duplicate module definition: "@ + s,
        ErrModel::ModuleNotFound(s) => "Module not found: "@ + s,
    }
}

impl ParseError {
    /// The error's message (what `Display` prints).
    pub fn message(&self) -> (r: String)
        ensures
            r@ == error_text(self@),
    {
        match self {
            ParseError::Syntax { line, column } => {
                let mut s = str_to_string("Syntax error at line ");
                push_chars(&mut s, usize_text(*line).as_slice());
                push_str(&mut s, ", column ");
                push_chars(&mut s, usize_text(*column).as_slice());
                s
            },
            ParseError::InvalidExpression { line, message } => {
                let mut s = str_to_string("Invalid expression at line ");
                push_chars(&mut s, usize_text(*line).as_slice());
                push_str(&mut s, ": ");
                push_str(&mut s, message.as_str());
                s
            },
            ParseError::UndefinedVariable(v) => {
                let mut s = str_to_string("Undefined variable: ");
                push_str(&mut s, v.as_str());
                s
            },
            ParseError::EnvVarNotSet(v) => {
                let mut s = str_to_string("Environment variable not set: ");
                push_str(&mut s, v.as_str());
                s
            },
            ParseError::InvalidResourceType(v) => {
                let mut s = str_to_string("Invalid resource type: ");
                push_str(&mut s, v.as_str());
                s
            },
            ParseError::DuplicateModule(v) => {
                let mut s = str_to_string("Duplicate module definition: ");
                push_str(&mut s, v.as_str());
                s
            },
            ParseError::ModuleNotFound(v) => {
                let mut s = str_to_string("Module not found: ");
                push_str(&mut s, v.as_str());
                s
            },
        }
    }
}


/// Type expression for input/output parameters
#[derive(Debug, PartialEq)]
pub enum TypeExpr {
    String,
    Bool,
    Int,
    /// CIDR block (e.g., "10.0.0.0/16")
    Cidr,
    List(Box<TypeExpr>),
    /// Map from names to values of one type
    Dict(Box<TypeExpr>),
    /// Reference to a resource type (e.g., ref(aws.vpc))
    Ref(ResourceTypePath),
}

impl View for TypeExpr {
    type V = TypeModel;

    open spec fn view(&self) -> TypeModel
        decreases self,
    {
        match self {
            TypeExpr::String => TypeModel::String,
            TypeExpr::Bool => TypeModel::Bool,
            TypeExpr::Int => TypeModel::Int,
            TypeExpr::Cidr => TypeModel::Cidr,
            TypeExpr::List(inner) => TypeModel::List(Box::new((**inner).view())),
            TypeExpr::Dict(inner) => TypeModel::Dict(Box::new((**inner).view())),
            TypeExpr::Ref(p) => TypeModel::Ref(p.provider@, p.resource_type@),
        }
    }
}

/// The text of a type expression, as written in the DSL.
pub open spec fn type_text(t: TypeModel) -> Seq<char>
    decreases t,
{
    match t {
        TypeModel::String => "string"@,
        TypeModel::Bool => "bool"@,
        TypeModel::Int => "int"@,
        TypeModel::Cidr => "cidr"@,
        TypeModel::List(inner) => "list("@ + type_text(*inner) + ")"@,
        TypeModel::Dict(inner) => "map("@ + type_text(*inner) + ")"@,
        TypeModel::Ref(p, r) => "ref("@ + p + "."@ + r + ")"@,
    }
}

impl TypeExpr {
    /// The text of the type (what `Display` prints).
    pub fn to_text(&self) -> (r: String)
        ensures
            r@ == type_text(self@),
        decreases self,
    {
        match self {
            TypeExpr::String => str_to_string("string"),
            TypeExpr::Bool => str_to_string("bool"),
            TypeExpr::Int => str_to_string("int"),
            TypeExpr::Cidr => str_to_string("cidr"),
            TypeExpr::List(inner) => {
                let mut s = str_to_string("list(");
                let i = inner.to_text();
                push_str(&mut s, i.as_str());
                push_str(&mut s, ")");
                s
            },
            TypeExpr::Dict(inner) => {
                let mut s = str_to_string("map(");
                let i = inner.to_text();
                push_str(&mut s, i.as_str());
                push_str(&mut s, ")");
                s
            },
            TypeExpr::Ref(p) => {
                let mut s = str_to_string("ref(");
                push_str(&mut s, p.provider.as_str());
                push_str(&mut s, ".");
                push_str(&mut s, p.resource_type.as_str());
                push_str(&mut s, ")");
                s
            },
        }
    }

    /// A copy of the type.
    pub fn copy(&self) -> (r: Self)
        ensures
            r@ == self@,
        decreases self,
    {
        match self {
            TypeExpr::String => TypeExpr::String,
            TypeExpr::Bool => TypeExpr::Bool,
            TypeExpr::Int => TypeExpr::Int,
            TypeExpr::Cidr => TypeExpr::Cidr,
            TypeExpr::List(inner) => TypeExpr::List(Box::new(inner.copy())),
            TypeExpr::Dict(inner) => TypeExpr::Dict(Box::new(inner.copy())),
            TypeExpr::Ref(p) => TypeExpr::Ref(crate::resource::copy_path(p)),
        }
    }
}

impl Clone for TypeExpr {
    fn clone(&self) -> (r: Self)
        ensures
            r@ == self@,
    {
        self.copy()
    }
}

/// Input parameter definition
#[derive(Debug, Clone)]
pub struct InputParameter {
    pub name: String,
    pub type_expr: TypeExpr,
    pub default: Option<Value>,
}

/// Output parameter definition
#[derive(Debug, Clone)]
pub struct OutputParameter {
    pub name: String,
    pub type_expr: TypeExpr,
    pub value: Option<Value>,
}

/// The model of an optional value.
pub open spec fn opt_value(v: Option<Value>) -> Option<crate::resource::ValueModel> {
    match v {
        Some(x) => Some(x@),
        None => None,
    }
}

impl View for InputParameter {
    type V = ParamModel;

    open spec fn view(&self) -> ParamModel {
        (self.name@, self.type_expr@, opt_value(self.default))
    }
}

impl View for OutputParameter {
    type V = ParamModel;

    open spec fn view(&self) -> ParamModel {
        (self.name@, self.type_expr@, opt_value(self.value))
    }
}

/// Import statement
#[derive(Debug, Clone)]
pub struct ImportStatement {
    pub path: String,
    pub alias: String,
}

/// Module call (instantiation)
#[derive(Debug, Clone)]
pub struct ModuleCall {
    pub module_name: String,
    pub binding_name: Option<String>,
    pub arguments: ValueMap,
}

/// Provider configuration
#[derive(Debug, Clone)]
pub struct ProviderConfig {
    pub name: String,
    pub attributes: ValueMap,
}

/// Backend configuration for state storage
#[derive(Debug, Clone)]
pub struct BackendConfig {
    /// Backend type (e.g., "s3", "gcs", "local")
    pub backend_type: String,
    /// Backend-specific attributes
    pub attributes: ValueMap,
}

/// Parse result
#[derive(Debug, Clone)]
pub struct ParsedFile {
    pub providers: Vec<ProviderConfig>,
    pub resources: Vec<Resource>,
    pub variables: ValueMap,
    /// Import statements
    pub imports: Vec<ImportStatement>,
    /// Module calls (instantiations)
    pub module_calls: Vec<ModuleCall>,
    /// Top-level input parameters (directory-based module style)
    pub inputs: Vec<InputParameter>,
    /// Top-level output parameters (directory-based module style)
    pub outputs: Vec<OutputParameter>,
    /// Backend configuration for state storage
    pub backend: Option<BackendConfig>,
}

/// The mathematical content of a parsed file.
pub struct ParsedModel {
    pub providers: Seq<(Seq<char>, Entries)>,
    pub resources: Seq<ResModel>,
    pub variables: Entries,
    pub imports: Seq<(Seq<char>, Seq<char>)>,
    pub module_calls: Seq<(Seq<char>, Option<Seq<char>>, Entries)>,
    pub inputs: Seq<ParamModel>,
    pub outputs: Seq<ParamModel>,
    pub backend: Option<(Seq<char>, Entries)>,
}

/// The model of a resource.
pub open spec fn res_view(r: Resource) -> ResModel {
    (r.id@, r.attributes@)
}

impl View for ParsedFile {
    type V = ParsedModel;

    open spec fn view(&self) -> ParsedModel {
        ParsedModel {
            providers: Seq::new(self.providers.len() as nat, |i: int| (self.providers@[i].name@, self.providers@[i].attributes@)),
            resources: Seq::new(self.resources.len() as nat, |i: int| res_view(self.resources@[i])),
            variables: self.variables@,
            imports: Seq::new(self.imports.len() as nat, |i: int| (self.imports@[i].path@, self.imports@[i].alias@)),
            module_calls: Seq::new(
                self.module_calls.len() as nat,
                |i: int|
                    (
                        self.module_calls@[i].module_name@,
                        crate::resource::opt_str_view(self.module_calls@[i].binding_name),
                        self.module_calls@[i].arguments@,
                    ),
            ),
            inputs: Seq::new(self.inputs.len() as nat, |i: int| self.inputs@[i]@),
            outputs: Seq::new(self.outputs.len() as nat, |i: int| self.outputs@[i]@),
            backend: match self.backend {
                Some(b) => Some((b.backend_type@, b.attributes@)),
                None => None,
            },
        }
    }
}

/// The environment variables a parse can read, as name and value pairs.
#[derive(Debug, Clone)]
pub struct Environment {
    pub vars: Vec<(String, String)>,
}

impl View for Environment {
    type V = Seq<(Seq<char>, Seq<char>)>;

    open spec fn view(&self) -> Seq<(Seq<char>, Seq<char>)> {
        crate::parser::expr::env_model(self.vars@)
    }
}

impl Environment {
    /// An environment with no variables.
    pub fn new() -> (r: Self)
        ensures
            r@ == Seq::<(Seq<char>, Seq<char>)>::empty(),
    {
        let r = Environment { vars: Vec::new() };
        proof {
            assert(r@ =~= Seq::<(Seq<char>, Seq<char>)>::empty());
        }
        r
    }

    /// The environment with one more variable; an earlier one of the same
    /// name is seen first.
    pub fn set(&mut self, name: &str, value: &str)
        ensures
            final(self)@ == old(self)@.push((name@, value@)),
    {
        self.vars.push((str_to_string(name), str_to_string(value)));
        proof {
            assert(self@ =~= old(self)@.push((name@, value@)));
        }
    }
}

} // verus!
