//! Parsing statements and whole files.

use vstd::prelude::*;

use crate::parser::expr::{
    attr_res, env_model, is_dotted, is_ident, is_keyword, is_punct, is_str, map_res,
    parse_attrs, parse_block, parse_expression, tokens_ok, unescape_text, value_res, ParseContext,
    PError, perr_view,
};
use crate::parser::grammar::{
    apply_stmt, empty_file, line_col, p_file, p_statement_from, parse_text, parse_tokens,
    syntax_error_at, text_numbers_fit, token_pos, FileModel, StmtModel, tokens_wf, numbers_fit,
    env_at, env_only, keyword_at, make_resource, p_let_value, p_named_block, p_param, p_params,
    p_type, path_parts, resource_at, unchecked, Entries, ErrModel, ExprCtx, PErr, PRes,
    ParamModel, ResModel, TypeModel,
};
use crate::parser::lexer::{tokens_view, Token};
use crate::parser::{
    res_view, BackendConfig, Environment, ImportStatement, InputParameter, ModuleCall,
    OutputParameter, ParseError, ParsedFile, ParsedModel, ProviderConfig, TypeExpr,
};
use crate::resource::{lookup, Resource, ResourceId, ResourceTypePath, Value, ValueMap, ValueModel};
use crate::text::{
    chars_of, copy_string, join, join_chars, push_str, split, split_chars, str_eq, str_to_string,
    string_of, views,
};

verus! {

/// The provider and the joined rest of a dotted path.
fn path_pieces(s: &str) -> (r: Option<(String, String)>)
    ensures
        match path_parts(s@) {
            Some((p, q)) => r matches Some((a, b)) && a@ == p && b@ == q,
            None => r is None,
        },
{
    let c = chars_of(s);
    let parts = split_chars(c.as_slice(), '.');
    if parts.len() >= 2 {
        let mut rest: Vec<Vec<char>> = Vec::new();
        let mut k: usize = 1;
        while k < parts.len()
            invariant
                1 <= k <= parts.len(),
                views(rest@) == views(parts@).subrange(1, k as int),
            decreases parts.len() - k,
        {
            let ghost before = views(rest@);
            rest.push(crate::text::copy_chars(parts[k].as_slice()));
            proof {
                assert(views(rest@) =~= before.push(parts@[k as int]@));
                assert(views(parts@).subrange(1, k + 1) =~= views(parts@).subrange(1, k as int).push(
                    views(parts@)[k as int],
                ));
            }
            k += 1;
        }
        let dot: Vec<char> = vec!['.'];
        let joined = join_chars(rest.as_slice(), dot.as_slice());
        proof {
            assert(views(parts@).subrange(1, parts.len() as int) =~= views(parts@).skip(1));
            assert(dot@ =~= seq!['.']);
            assert(views(parts@)[0] == parts@[0]@);
        }
        Some((string_of(parts[0].as_slice()), string_of(joined.as_slice())))
    } else {
        None
    }
}

impl ResourceTypePath {
    /// Parse from a dot-separated string (e.g., "aws.vpc" or "aws.security_group")
    pub fn parse(s: &str) -> (r: Option<Self>)
        ensures
            match path_parts(s@) {
                Some((p, q)) => r matches Some(x) && x@ == (p, q),
                None => r is None,
            },
    {
        match path_pieces(s) {
            Some((p, q)) => Some(ResourceTypePath { provider: p, resource_type: q }),
            None => None,
        }
    }
}

/// Printing a resource type path and parsing the text gives the path back,
/// when the provider holds no dot.
pub proof fn lemma_type_path_round_trip(p: Seq<char>, q: Seq<char>)
    requires
        !crate::text::has_char(p, '.'),
    ensures
        crate::parser::grammar::path_parts(crate::resource::path_text((p, q))) == Some((p, q)),
{
    crate::text::lemma_split_concat(p, q, '.');
    crate::text::lemma_split_no_sep(p, '.');
    crate::text::lemma_join_split(q, '.');
    crate::text::lemma_split_nonempty(q, '.');
    let parts = crate::text::split(crate::resource::path_text((p, q)), '.');
    assert(parts =~= seq![p] + crate::text::split(q, '.'));
    assert(parts.skip(1) =~= crate::text::split(q, '.'));
}

pub open spec fn type_res(r: Result<(TypeExpr, usize), PError>) -> PRes<TypeModel> {
    match r {
        Ok((t, j)) => Ok((t@, j as nat)),
        Err(e) => Err(perr_view(e)),
    }
}

/// `type`
fn parse_type(t: &[Token], i: usize, ev: bool) -> (r: Result<(TypeExpr, usize), PError>)
    ensures
        type_res(r) == p_type(tokens_view(t@), i as nat, ev),
    decreases t.len() - i,
{
    proof {
        assert(tokens_view(t@).len() == t@.len());
    }
    proof {
        reveal_strlit("list");
        reveal_strlit("map");
        reveal_strlit("ref");
    }
    if (is_keyword(t, i, "list") || is_keyword(t, i, "map")) && is_punct(t, i + 1, '(') {
        match parse_type(t, i + 2, ev) {
            Ok((inner, j)) => if i + 2 < j && j <= t.len() && is_punct(t, j, ')') {
                if is_keyword(t, i, "list") {
                    Ok((TypeExpr::List(Box::new(inner)), j + 1))
                } else {
                    Ok((TypeExpr::Dict(Box::new(inner)), j + 1))
                }
            } else {
                Err(PError::Syntax(i))
            },
            Err(PError::Semantic(e)) => Err(PError::Semantic(e)),
            Err(PError::Syntax(_)) => Err(PError::Syntax(i)),
        }
    } else if is_keyword(t, i, "ref") && is_punct(t, i + 1, '(') && crate::parser::expr::is_word(t, i + 2)
        && is_punct(t, i + 3, ')') {
        proof {
            assert(tokens_view(t@)[i + 2int] == t@[i + 2int]@);
        }
        match ResourceTypePath::parse(t[i + 2].text.as_str()) {
            Some(p) => Ok((TypeExpr::Ref(p), i + 4)),
            None => if ev {
                let mut m = str_to_string("Invalid resource type path: ");
                push_str(&mut m, t[i + 2].text.as_str());
                Err(PError::Semantic(ParseError::InvalidResourceType(m)))
            } else {
                Ok((TypeExpr::String, i + 4))
            },
        }
    } else if is_keyword(t, i, "string") {
        Ok((TypeExpr::String, i + 1))
    } else if is_keyword(t, i, "bool") {
        Ok((TypeExpr::Bool, i + 1))
    } else if is_keyword(t, i, "int") {
        Ok((TypeExpr::Int, i + 1))
    } else if is_keyword(t, i, "cidr") {
        Ok((TypeExpr::Cidr, i + 1))
    } else {
        Err(PError::Syntax(i))
    }
}

/// A parameter: name, type and optional value.
pub type Param = (String, TypeExpr, Option<Value>);

pub open spec fn param_view(p: Param) -> ParamModel {
    (p.0@, p.1@, crate::parser::opt_value(p.2))
}

pub open spec fn params_view(v: Seq<Param>) -> Seq<ParamModel> {
    Seq::new(v.len(), |k: int| param_view(v[k]))
}

/// `IDENT ":" type ("=" expression)?`
fn parse_param(t: &[Token], i: usize, ctx: &ParseContext, ev: bool) -> (r: Result<(Param, usize), PError>)
    requires
        tokens_ok(t@),
    ensures
        match r {
            Ok((p, j)) => p_param(tokens_view(t@), i as nat, ctx@, ev) == Ok::<(ParamModel, nat), PErr>((param_view(p), j as nat)),
            Err(e) => p_param(tokens_view(t@), i as nat, ctx@, ev) == Err::<(ParamModel, nat), PErr>(perr_view(e)),
        },
{
    proof {
        assert(tokens_view(t@).len() == t@.len());
    }
    if is_ident(t, i) && is_punct(t, i + 1, ':') {
        proof {
            assert(tokens_view(t@)[i as int] == t@[i as int]@);
        }
        match parse_type(t, i + 2, ev) {
            Ok((ty, j)) => if is_punct(t, j, '=') {
                match parse_expression(t, j + 1, ctx, ev) {
                    Ok((v, k)) => Ok(((copy_string(&t[i].text), ty, Some(v)), k)),
                    Err(e) => Err(e),
                }
            } else {
                Ok(((copy_string(&t[i].text), ty, None), j))
            },
            Err(e) => Err(e),
        }
    } else {
        Err(PError::Syntax(i))
    }
}

/// `param* "}"`
fn parse_params(t: &[Token], i: usize, ctx: &ParseContext, ev: bool) -> (r: Result<(Vec<Param>, usize), PError>)
    requires
        tokens_ok(t@),
    ensures
        match r {
            Ok((ps, j)) => p_params(tokens_view(t@), i as nat, ctx@, ev) == Ok::<(Seq<ParamModel>, nat), PErr>((params_view(ps@), j as nat)),
            Err(e) => p_params(tokens_view(t@), i as nat, ctx@, ev) == Err::<(Seq<ParamModel>, nat), PErr>(perr_view(e)),
        },
    decreases t.len() - i,
{
    match parse_param(t, i, ctx, ev) {
        Ok((p, j)) => if i < j && j <= t.len() {
            match parse_params(t, j, ctx, ev) {
                Ok((mut rest, k)) => {
                    let ghost pm = param_view(p);
                    let ghost rm = params_view(rest@);
                    let mut out = Vec::new();
                    out.push(p);
                    out.append(&mut rest);
                    proof {
                        assert(params_view(out@) =~= seq![pm] + rm);
                    }
                    Ok((out, k))
                },
                Err(e) => Err(e),
            }
        } else {
            Err(PError::Syntax(i))
        },
        Err(PError::Semantic(e)) => Err(PError::Semantic(e)),
        Err(PError::Syntax(_)) => if is_punct(t, i, '}') {
            let out: Vec<Param> = Vec::new();
            proof {
                assert(params_view(out@) =~= seq![]);
            }
            Ok((out, i + 1))
        } else {
            Err(PError::Syntax(i))
        },
    }
}

/// The resource a block declares.
fn build_resource(type_text: &String, attrs: ValueMap, binding: Option<&String>) -> (r: Result<Resource, ParseError>)
    ensures
        match make_resource(
            type_text@,
            attrs@,
            match binding {
                Some(b) => Some(b@),
                None => None,
            },
        ) {
            Ok(m) => r matches Ok(x) && res_view(x) == m,
            Err(e) => r matches Err(x) && x@ == e,
        },
{
    let c = chars_of(type_text.as_str());
    let parts = split_chars(c.as_slice(), '.');
    proof {
        assert(views(parts@) == split(type_text@, '.'));
        reveal_strlit("name");
    }
    if parts.len() < 2 {
        return Err(ParseError::InvalidResourceType(copy_string(type_text)));
    }
    let name = match attrs.get("name") {
        Some(Value::String(s)) => copy_string(s),
        _ => {
            let message = match binding {
                Some(b) => {
                    let mut m = str_to_string("Resource bound to '");
                    push_str(&mut m, b.as_str());
                    push_str(&mut m, "' must have a 'name' attribute");
                    m
                },
                None => str_to_string("Anonymous resource must have a 'name' attribute"),
            };
            return Err(ParseError::InvalidExpression { line: 0, message });
        },
    };
    let pieces = path_pieces(type_text.as_str());
    let (provider, resource_type) = match pieces {
        Some(x) => x,
        None => {
            return Err(ParseError::InvalidResourceType(copy_string(type_text)));
        },
    };
    proof {
        assert(views(parts@)[0] == parts@[0]@);
    }
    let mut a = attrs;
    a.insert(str_to_string("_provider"), Value::String(provider));
    a.insert(str_to_string("_type"), Value::String(copy_string(type_text)));
    match binding {
        Some(b) => {
            a.insert(str_to_string("_binding"), Value::String(copy_string(b)));
        },
        None => {},
    }
    Ok(Resource { id: ResourceId { resource_type, name }, attributes: a })
}

/// Whether a resource expression starts at `i`.
fn resource_here(t: &[Token], i: usize, ctx: &ParseContext) -> (r: bool)
    requires
        tokens_ok(t@),
    ensures
        r == resource_at(tokens_view(t@), i as nat, ctx@),
        r ==> i + 1 < t.len(),
{
    proof {
        assert(tokens_view(t@).len() == t@.len());
    }
    if is_dotted(t, i) && is_punct(t, i + 1, '{') {
        parse_block(t, i + 2, ctx, false).is_ok()
    } else {
        false
    }
}

/// Whether an environment read starts at `i`.
fn env_here(t: &[Token], i: usize) -> (r: bool)
    ensures
        r == env_at(tokens_view(t@), i as nat),
{
    proof {
        assert(tokens_view(t@).len() == t@.len());
    }
    proof {
        reveal_strlit("env");
    }
    is_keyword(t, i, "env") && is_punct(t, i + 1, '(') && is_str(t, i + 2) && is_punct(t, i + 3, ')')
}

pub open spec fn opt_res(r: Option<Resource>) -> Option<ResModel> {
    match r {
        Some(x) => Some(res_view(x)),
        None => None,
    }
}

/// The expression of a `let`.
fn parse_let_value(t: &[Token], i: usize, ctx: &ParseContext, ev: bool, name: &String) -> (r: Result<((Value, Option<Resource>), usize), PError>)
    requires
        tokens_ok(t@),
    ensures
        match r {
            Ok(((v, res), j)) => p_let_value(tokens_view(t@), i as nat, ctx@, ev, name@) == Ok::<((ValueModel, Option<ResModel>), nat), PErr>(((v@, opt_res(res)), j as nat)),
            Err(e) => p_let_value(tokens_view(t@), i as nat, ctx@, ev, name@) == Err::<((ValueModel, Option<ResModel>), nat), PErr>(perr_view(e)),
        },
{
    proof {
        assert(tokens_view(t@).len() == t@.len());
    }
    if !env_here(t, i) && resource_here(t, i, ctx) {
        match parse_block(t, i + 2, ctx, ev) {
            Ok((attrs, j)) => {
                let k = if i + 2 < j && j <= t.len() {
                    crate::parser::expr::parse_calls_pub(t, j)
                } else {
                    j
                };
                if ev {
                    proof {
                        assert(tokens_view(t@)[i as int] == t@[i as int]@);
                    }
                    match build_resource(&t[i].text, attrs, Some(name)) {
                        Ok(res) => {
                            let mut v = str_to_string("${");
                            push_str(&mut v, name.as_str());
                            push_str(&mut v, "}");
                            Ok(((Value::String(v), Some(res)), k))
                        },
                        Err(e) => Err(PError::Semantic(e)),
                    }
                } else {
                    Ok(((Value::Bool(false), None), k))
                }
            },
            Err(e) => Err(e),
        }
    } else {
        match parse_expression(t, i, ctx, ev) {
            Ok((v, j)) => Ok(((v, None), j)),
            Err(e) => Err(e),
        }
    }
}

/// `KEYWORD IDENT "{" attribute* "}"`
fn parse_named_block(t: &[Token], i: usize, ctx: &ParseContext, ev: bool, kw: &str) -> (r: Result<((String, ValueMap), usize), PError>)
    requires
        tokens_ok(t@),
    ensures
        match r {
            Ok(((n, m), j)) => p_named_block(tokens_view(t@), i as nat, ctx@, ev, kw@) == Ok::<((Seq<char>, Entries), nat), PErr>(((n@, m@), j as nat)),
            Err(e) => p_named_block(tokens_view(t@), i as nat, ctx@, ev, kw@) == Err::<((Seq<char>, Entries), nat), PErr>(perr_view(e)),
        },
{
    proof {
        assert(tokens_view(t@).len() == t@.len());
    }
    if is_keyword(t, i, kw) && is_ident(t, i + 1) && is_punct(t, i + 2, '{') {
        proof {
            assert(tokens_view(t@)[i + 1int] == t@[i + 1int]@);
        }
        match parse_attrs(t, i + 3, ctx, ev, ValueMap::new()) {
            Ok((m, j)) => Ok(((copy_string(&t[i + 1].text), m), j)),
            Err(e) => Err(e),
        }
    } else {
        Err(PError::Syntax(i))
    }
}


/// What a statement declares.
pub enum Stmt {
    Import(String, String),
    Backend(String, ValueMap),
    Provider(String, ValueMap),
    Input(Vec<Param>),
    Output(Vec<Param>),
    Let(String, Value, Option<Resource>),
    ModuleCall(String, ValueMap),
    Anonymous(Resource),
}

pub open spec fn stmt_view(s: Stmt) -> StmtModel {
    match s {
        Stmt::Import(p, a) => StmtModel::Import(p@, a@),
        Stmt::Backend(n, m) => StmtModel::Backend(n@, m@),
        Stmt::Provider(n, m) => StmtModel::Provider(n@, m@),
        Stmt::Input(ps) => StmtModel::Input(params_view(ps@)),
        Stmt::Output(ps) => StmtModel::Output(params_view(ps@)),
        Stmt::Let(n, v, r) => StmtModel::Let(n@, v@, opt_res(r)),
        Stmt::ModuleCall(n, m) => StmtModel::ModuleCall(n@, m@),
        Stmt::Anonymous(r) => StmtModel::Anonymous(res_view(r)),
    }
}

/// A copy of the environment.
fn copy_env(env: &Vec<(String, String)>) -> (r: Vec<(String, String)>)
    ensures
        env_model(r@) == env_model(env@),
{
    let mut out: Vec<(String, String)> = Vec::new();
    let mut i: usize = 0;
    while i < env.len()
        invariant
            i <= env.len(),
            out.len() == i,
            forall|j: int| 0 <= j < i ==> (#[trigger] out@[j]).0@ == env@[j].0@ && out@[j].1@ == env@[j].1@,
        decreases env.len() - i,
    {
        out.push((copy_string(&env[i].0), copy_string(&env[i].1)));
        i += 1;
    }
    proof {
        assert(env_model(out@) =~= env_model(env@));
    }
    out
}

/// A context that sees only the environment of `ctx`.
fn env_only_context(ctx: &ParseContext) -> (r: ParseContext)
    ensures
        r@ == env_only(ctx@),
{
    let r = ParseContext {
        variables: ValueMap::new(),
        resource_bindings: Vec::new(),
        in_module: false,
        env: copy_env(&ctx.env),
    };
    proof {
        assert(crate::parser::expr::strings_model(r.resource_bindings@) =~= seq![]);
    }
    r
}

/// The statement alternatives from `k` on, tried in order.
fn parse_statement_from(t: &[Token], i: usize, ctx: &ParseContext, ev: bool, k: usize) -> (r: Result<(Stmt, usize), PError>)
    requires
        tokens_ok(t@),
    ensures
        match r {
            Ok((st, j)) => p_statement_from(tokens_view(t@), i as nat, ctx@, ev, k as nat) == Ok::<(StmtModel, nat), PErr>((stmt_view(st), j as nat)),
            Err(e) => p_statement_from(tokens_view(t@), i as nat, ctx@, ev, k as nat) == Err::<(StmtModel, nat), PErr>(perr_view(e)),
        },
    decreases 8 - k,
{
    proof {
        reveal(p_statement_from);
        assert(tokens_view(t@).len() == t@.len());
        reveal_strlit("import");
        reveal_strlit("as");
        reveal_strlit("backend");
        reveal_strlit("provider");
        reveal_strlit("input");
        reveal_strlit("output");
        reveal_strlit("let");
    }
    if k >= 8 {
        return Err(PError::Syntax(i));
    }
    let r: Result<(Stmt, usize), PError> = if k == 0 {
        if is_keyword(t, i, "import") && is_str(t, i + 1) && is_keyword(t, i + 2, "as") && is_ident(t, i + 3) {
            proof {
                assert(tokens_view(t@)[i + 1int] == t@[i + 1int]@);
                assert(tokens_view(t@)[i + 3int] == t@[i + 3int]@);
            }
            Ok((Stmt::Import(unescape_text(t[i + 1].text.as_str()), copy_string(&t[i + 3].text)), i + 4))
        } else {
            Err(PError::Syntax(i))
        }
    } else if k == 1 {
        match parse_named_block(t, i, ctx, ev, "backend") {
            Ok(((n, m), j)) => Ok((Stmt::Backend(n, m), j)),
            Err(e) => Err(e),
        }
    } else if k == 2 {
        match parse_named_block(t, i, ctx, ev, "provider") {
            Ok(((n, m), j)) => Ok((Stmt::Provider(n, m), j)),
            Err(e) => Err(e),
        }
    } else if k == 3 {
        if is_keyword(t, i, "input") && is_punct(t, i + 1, '{') {
            let c0 = env_only_context(ctx);
            match parse_params(t, i + 2, &c0, ev) {
                Ok((ps, j)) => Ok((Stmt::Input(ps), j)),
                Err(e) => Err(e),
            }
        } else {
            Err(PError::Syntax(i))
        }
    } else if k == 4 {
        if is_keyword(t, i, "output") && is_punct(t, i + 1, '{') {
            match parse_params(t, i + 2, ctx, ev) {
                Ok((ps, j)) => Ok((Stmt::Output(ps), j)),
                Err(e) => Err(e),
            }
        } else {
            Err(PError::Syntax(i))
        }
    } else if k == 5 {
        if is_keyword(t, i, "let") && is_ident(t, i + 1) && is_punct(t, i + 2, '=') {
            proof {
                assert(tokens_view(t@)[i + 1int] == t@[i + 1int]@);
            }
            let name = copy_string(&t[i + 1].text);
            match parse_let_value(t, i + 3, ctx, ev, &name) {
                Ok(((v, res), j)) => Ok((Stmt::Let(name, v, res), j)),
                Err(e) => Err(e),
            }
        } else {
            Err(PError::Syntax(i))
        }
    } else if k == 6 {
        if is_ident(t, i) && is_punct(t, i + 1, '{') {
            proof {
                assert(tokens_view(t@)[i as int] == t@[i as int]@);
            }
            match parse_attrs(t, i + 2, ctx, ev, ValueMap::new()) {
                Ok((m, j)) => Ok((Stmt::ModuleCall(copy_string(&t[i].text), m), j)),
                Err(e) => Err(e),
            }
        } else {
            Err(PError::Syntax(i))
        }
    } else {
        if is_dotted(t, i) && is_punct(t, i + 1, '{') {
            proof {
                assert(tokens_view(t@)[i as int] == t@[i as int]@);
            }
            match parse_block(t, i + 2, ctx, ev) {
                Ok((attrs, j)) => if ev {
                    match build_resource(&t[i].text, attrs, None) {
                        Ok(res) => Ok((Stmt::Anonymous(res), j)),
                        Err(e) => Err(PError::Semantic(e)),
                    }
                } else {
                    proof {
                        reveal_strlit("");
                    }
                    let res = Resource::new("", "");
                    proof {
                        assert(res_view(res) == ((Seq::<char>::empty(), Seq::<char>::empty()), Seq::<(Seq<char>, ValueModel)>::empty()));
                    }
                    Ok((Stmt::Anonymous(res), j))
                },
                Err(e) => Err(e),
            }
        } else {
            Err(PError::Syntax(i))
        }
    };
    match r {
        Ok(x) => Ok(x),
        Err(PError::Semantic(e)) => Err(PError::Semantic(e)),
        Err(PError::Syntax(_)) => parse_statement_from(t, i, ctx, ev, k + 1),
    }
}

/// A file being parsed: what expressions see, and what has been declared.
pub struct FileState {
    pub ctx: ParseContext,
    pub file: ParsedFile,
}

/// Whether a state holds what a file model holds.
pub open spec fn state_is(st: FileState, f: FileModel) -> bool {
    let p = st.file@;
    &&& st.ctx@ == f.ctx
    &&& p.providers == f.providers
    &&& p.resources == f.resources
    &&& p.imports == f.imports
    &&& p.module_calls == f.module_calls
    &&& p.inputs == f.inputs
    &&& p.outputs == f.outputs
    &&& p.backend == f.backend
}

/// The model of a parsed file, from the model of a whole file.
pub open spec fn parsed_of(f: FileModel) -> ParsedModel {
    ParsedModel {
        providers: f.providers,
        resources: f.resources,
        variables: f.ctx.vars,
        imports: f.imports,
        module_calls: f.module_calls,
        inputs: f.inputs,
        outputs: f.outputs,
        backend: f.backend,
    }
}

fn copy_param_value(v: &Option<Value>) -> (r: Option<Value>)
    ensures
        crate::parser::opt_value(r) == crate::parser::opt_value(*v),
{
    match v {
        Some(x) => Some(crate::resource::copy_value(x)),
        None => None,
    }
}

fn to_inputs(ps: Vec<Param>) -> (r: Vec<InputParameter>)
    ensures
        Seq::new(r.len() as nat, |k: int| r@[k]@) == params_view(ps@),
{
    let mut out: Vec<InputParameter> = Vec::new();
    let mut k: usize = 0;
    while k < ps.len()
        invariant
            k <= ps.len(),
            out.len() == k,
            forall|j: int| 0 <= j < k ==> (#[trigger] out@[j])@ == param_view(ps@[j]),
        decreases ps.len() - k,
    {
        out.push(
            InputParameter {
                name: copy_string(&ps[k].0),
                type_expr: ps[k].1.copy(),
                default: copy_param_value(&ps[k].2),
            },
        );
        k += 1;
    }
    proof {
        assert(Seq::new(out.len() as nat, |k: int| out@[k]@) =~= params_view(ps@));
    }
    out
}

fn to_outputs(ps: Vec<Param>) -> (r: Vec<OutputParameter>)
    ensures
        Seq::new(r.len() as nat, |k: int| r@[k]@) == params_view(ps@),
{
    let mut out: Vec<OutputParameter> = Vec::new();
    let mut k: usize = 0;
    while k < ps.len()
        invariant
            k <= ps.len(),
            out.len() == k,
            forall|j: int| 0 <= j < k ==> (#[trigger] out@[j])@ == param_view(ps@[j]),
        decreases ps.len() - k,
    {
        out.push(
            OutputParameter {
                name: copy_string(&ps[k].0),
                type_expr: ps[k].1.copy(),
                value: copy_param_value(&ps[k].2),
            },
        );
        k += 1;
    }
    proof {
        assert(Seq::new(out.len() as nat, |k: int| out@[k]@) =~= params_view(ps@));
    }
    out
}

/// The state after one more statement.
fn apply(st: &mut FileState, s: Stmt)
    ensures
        forall|f: FileModel| state_is(*old(st), f) ==> state_is(*final(st), apply_stmt(f, stmt_view(s))),
{
    let ghost p0 = st.file@;
    let ghost c0 = st.ctx@;
    let ghost sv = stmt_view(s);
    match s {
        Stmt::Import(path, alias) => {
            st.file.imports.push(ImportStatement { path, alias });
            proof {
                assert(st.file@.imports =~= p0.imports.push((sv->Import_0, sv->Import_1)));
            }
        },
        Stmt::Backend(n, m) => {
            st.file.backend = Some(BackendConfig { backend_type: n, attributes: m });
        },
        Stmt::Provider(n, m) => {
            st.file.providers.push(ProviderConfig { name: n, attributes: m });
            proof {
                assert(st.file@.providers =~= p0.providers.push((sv->Provider_0, sv->Provider_1)));
            }
        },
        Stmt::Input(ps) => {
            let mut ins = to_inputs(ps);
            st.file.inputs.append(&mut ins);
            st.ctx.in_module = true;
            proof {
                assert(st.file@.inputs =~= p0.inputs + sv->Input_0);
            }
        },
        Stmt::Output(ps) => {
            let mut outs = to_outputs(ps);
            st.file.outputs.append(&mut outs);
            proof {
                assert(st.file@.outputs =~= p0.outputs + sv->Output_0);
            }
        },
        Stmt::Let(name, v, res) => {
            match res {
                Some(r) => {
                    let bound = copy_string(&name);
                    st.ctx.variables.insert(name, v);
                    st.ctx.resource_bindings.push(bound);
                    st.file.resources.push(r);
                    proof {
                        assert(crate::parser::expr::strings_model(st.ctx.resource_bindings@) =~= c0.bindings.push(sv->Let_0));
                        assert(st.file@.resources =~= p0.resources.push(sv->Let_2->Some_0));
                    }
                },
                None => {
                    st.ctx.variables.insert(name, v);
                },
            }
        },
        Stmt::ModuleCall(n, m) => {
            st.file.module_calls.push(ModuleCall { module_name: n, binding_name: None, arguments: m });
            proof {
                assert(st.file@.module_calls =~= p0.module_calls.push((sv->ModuleCall_0, None, sv->ModuleCall_1)));
            }
        },
        Stmt::Anonymous(r) => {
            st.file.resources.push(r);
            proof {
                assert(st.file@.resources =~= p0.resources.push(sv->Anonymous_0));
            }
        },
    }
}

/// The statements from position 0 to the end of the tokens.
fn parse_file(t: &[Token], env: &Vec<(String, String)>, ev: bool) -> (r: Result<FileState, PError>)
    requires
        tokens_ok(t@),
    ensures
        match r {
            Ok(st) => p_file(tokens_view(t@), 0, empty_file(env_model(env@)), ev) matches Ok(f) && state_is(st, f),
            Err(e) => p_file(tokens_view(t@), 0, empty_file(env_model(env@)), ev) == Err::<FileModel, PErr>(perr_view(e)),
        },
{
    let mut st = FileState {
        ctx: ParseContext {
            variables: ValueMap::new(),
            resource_bindings: Vec::new(),
            in_module: false,
            env: copy_env(env),
        },
        file: ParsedFile {
            providers: Vec::new(),
            resources: Vec::new(),
            variables: ValueMap::new(),
            imports: Vec::new(),
            module_calls: Vec::new(),
            inputs: Vec::new(),
            outputs: Vec::new(),
            backend: None,
        },
    };
    let ghost f0 = empty_file(env_model(env@));
    proof {
        assert(crate::parser::expr::strings_model(st.ctx.resource_bindings@) =~= seq![]);
        assert(st.file@.providers =~= f0.providers);
        assert(st.file@.resources =~= f0.resources);
        assert(st.file@.imports =~= f0.imports);
        assert(st.file@.module_calls =~= f0.module_calls);
        assert(st.file@.inputs =~= f0.inputs);
        assert(st.file@.outputs =~= f0.outputs);
    }
    let ghost mut f = f0;
    let mut i: usize = 0;
    while i < t.len()
        invariant
            tokens_ok(t@),
            i <= t.len(),
            state_is(st, f),
            f0 == empty_file(env_model(env@)),
            p_file(tokens_view(t@), 0, f0, ev) == p_file(tokens_view(t@), i as nat, f, ev),
        decreases t.len() - i,
    {
        proof {
            reveal(p_file);
        }
        match parse_statement_from(t, i, &st.ctx, ev, 0) {
            Ok((s, j)) => {
                if i < j && j <= t.len() {
                    let ghost sv = stmt_view(s);
                    apply(&mut st, s);
                    proof {
                        f = apply_stmt(f, sv);
                    }
                    i = j;
                } else {
                    proof {
                        assert(p_file(tokens_view(t@), i as nat, f, ev) == Err::<FileModel, PErr>(PErr::Syntax(i as nat)));
                    }
                    return Err(PError::Syntax(i));
                }
            },
            Err(e) => {
                proof {
                    assert(p_file(tokens_view(t@), i as nat, f, ev) == Err::<FileModel, PErr>(perr_view(e)));
                }
                return Err(e);
            },
        }
    }
    proof {
        reveal(p_file);
    }
    Ok(st)
}

/// The line and column of a character position.
fn line_col_of(s: &[char], p: usize) -> (r: (usize, usize))
    requires
        p <= s.len(),
        s.len() < usize::MAX,
    ensures
        r.0 as nat == line_col(s@, p as nat).0,
        r.1 as nat == line_col(s@, p as nat).1,
{
    let mut line: usize = 1;
    let mut col: usize = 1;
    let mut k: usize = 0;
    while k < p
        invariant
            k <= p <= s.len(),
            line as nat == line_col(s@, k as nat).0,
            col as nat == line_col(s@, k as nat).1,
            line <= k + 1,
            col <= k + 1,
            s.len() < usize::MAX,
        decreases p - k,
    {
        if s[k] == '\n' {
            line += 1;
            col = 1;
        } else {
            col += 1;
        }
        k += 1;
    }
    (line, col)
}

fn syntax_error(s: &[char], p: usize) -> (r: ParseError)
    requires
        p <= s.len(),
        s.len() < usize::MAX,
    ensures
        r@ == syntax_error_at(s@, p as nat),
{
    let (line, column) = line_col_of(s, p);
    ParseError::Syntax { line, column }
}

/// Parse a .crn file, reading `env(...)` from the given environment
pub fn parse(input: &str, env: &Environment) -> (r: Result<ParsedFile, ParseError>)
    requires
        text_numbers_fit(input@),
        input@.len() < usize::MAX,
    ensures
        match parse_text(input@, env@) {
            Ok(f) => r matches Ok(p) && p@ == parsed_of(f),
            Err(e) => r matches Err(x) && x@ == e,
        },
{
    let s = chars_of(input);
    let toks = match crate::parser::lexer::tokenize(input) {
        Ok(v) => v,
        Err(p) => {
            proof {
                crate::parser::lexer::lemma_lex_bounds(input@, 0);
            }
            return Err(syntax_error(s.as_slice(), p));
        },
    };
    proof {
        crate::parser::lexer::lemma_lex_wf(input@, 0);
        crate::parser::lexer::lemma_lex_bounds(input@, 0);
    }
    let t = toks.as_slice();
    let ghost tv = tokens_view(t@);
    match parse_file(t, &env.vars, false) {
        Err(PError::Syntax(k)) => {
            let pos = if k < t.len() {
                proof {
                    assert(tv[k as int] == t@[k as int]@);
                }
                t[k].start
            } else {
                s.len()
            };
            return Err(syntax_error(s.as_slice(), pos));
        },
        Err(PError::Semantic(e)) => {
            return Err(e);
        },
        Ok(_) => {},
    }
    match parse_file(t, &env.vars, true) {
        Ok(st) => {
            let mut file = st.file;
            file.variables = st.ctx.variables;
            Ok(file)
        },
        Err(PError::Syntax(k)) => {
            let pos = if k < t.len() {
                proof {
                    assert(tv[k as int] == t@[k as int]@);
                }
                t[k].start
            } else {
                s.len()
            };
            Err(syntax_error(s.as_slice(), pos))
        },
        Err(PError::Semantic(e)) => Err(e),
    }
}

/// Whether the digits of a number token, read as a value, fit in an `i64`.
fn number_fits(s: &str) -> (r: bool)
    requires
        crate::parser::grammar::num_wf(s@),
    ensures
        r == (i64::MIN <= crate::parser::grammar::num_value(s@) <= i64::MAX),
{
    let c = chars_of(s);
    let neg = c[0] == '-';
    let start: usize = if neg {
        1
    } else {
        0
    };
    let limit: u64 = if neg {
        9223372036854775808
    } else {
        9223372036854775807
    };
    assert(c@ == s@);
    let ghost d = s@.skip(start as int);
    proof {
        if neg {
            assert(d =~= s@.drop_first());
        } else {
            assert(d =~= s@);
        }
        assert(d.take(0) =~= Seq::<char>::empty());
    }
    let mut acc: u64 = 0;
    let mut k: usize = start;
    while k < c.len()
        invariant
            start <= k <= c.len(),
            c@ == s@,
            d == s@.skip(start as int),
            crate::text::all_digits(d),
            acc == crate::text::digits_value(d.take(k - start)),
            acc <= limit,
            neg ==> limit == 9223372036854775808u64 && start == 1 && d == s@.drop_first()
                && s@.len() > 0 && s@[0] == '-',
            !neg ==> limit == 9223372036854775807u64 && start == 0 && d == s@ && !(s@.len() > 0
                && s@[0] == '-'),
        decreases c.len() - k,
    {
        let ghost j = (k - start) as int;
        proof {
            assert(d.take(j + 1).drop_last() =~= d.take(j));
            assert(d[j] == c@[k as int]);
            assert(crate::text::is_ascii_digit(d[j]));
        }
        let dig = (c[k] as u32 - '0' as u32) as u64;
        if acc > (limit - dig) / 10 {
            proof {
                crate::text::lemma_digits_value_mono(d, j + 1);
                assert(crate::text::digits_value(d.take(j + 1)) > limit) by (nonlinear_arith)
                    requires
                        crate::text::digits_value(d.take(j + 1)) == acc * 10 + dig,
                        acc > (limit - dig) / 10,
                        dig <= 9,
                        limit > 9,
                ;
            }
            return false;
        }
        proof {
            assert(acc * 10 + dig <= limit) by (nonlinear_arith)
                requires
                    acc <= (limit - dig) / 10,
                    dig <= 9,
                    limit > 9,
            ;
        }
        acc = acc * 10 + dig;
        k += 1;
    }
    proof {
        assert(d.take(c.len() - start) =~= d);
    }
    true
}

/// Whether every number in a text fits in an `i64` (what `parse` needs).
pub fn numbers_fit_text(input: &str) -> (r: bool)
    ensures
        r == text_numbers_fit(input@),
{
    proof {
        crate::parser::lexer::lemma_lex_wf(input@, 0);
    }
    match crate::parser::lexer::tokenize(input) {
        Err(_) => true,
        Ok(toks) => {
            let ghost tv = tokens_view(toks@);
            assert(crate::parser::lexer::lex_from(input@, 0) == Ok::<
                Seq<crate::parser::lexer::TokenModel>,
                nat,
            >(tv));
            let mut k: usize = 0;
            while k < toks.len()
                invariant
                    k <= toks.len(),
                    tv == tokens_view(toks@),
                    tokens_wf(tv),
                    crate::parser::lexer::lex_from(input@, 0) == Ok::<
                        Seq<crate::parser::lexer::TokenModel>,
                        nat,
                    >(tv),
                    forall|m: int|
                        0 <= m < k && #[trigger] tv[m].kind == crate::parser::lexer::TokenKind::Num
                            ==> i64::MIN <= crate::parser::grammar::num_value(tv[m].text) <= i64::MAX,
                decreases toks.len() - k,
            {
                proof {
                    assert(tv[k as int] == toks@[k as int]@);
                }
                match toks[k].kind {
                    crate::parser::lexer::TokenKind::Num => {
                        assert(tv[k as int].kind == crate::parser::lexer::TokenKind::Num);
                        assert(tv[k as int].text == toks@[k as int].text@);
                        assert(crate::parser::grammar::num_wf(tv[k as int].text));
                        if !number_fits(toks[k].text.as_str()) {
                            assert(!numbers_fit(tv));
                            return false;
                        }
                    },
                    _ => {},
                }
                k += 1;
            }
            true
        },
    }
}

} // verus!
