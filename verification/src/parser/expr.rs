//! Parsing and evaluating expressions and blocks over tokens.
//!
//! Each function follows the grammar function of the same shape in
//! `grammar`, and yields exactly what that function describes. With `ev`
//! false only the syntax is checked.

use vstd::prelude::*;

use crate::parser::grammar::{
    dot_parts, dotted_at, dotted_value, env_lookup, ident_at, keyword_at, num_at, num_value,
    numbers_fit, p_attribute, p_attrs, p_block, p_block_items, p_call, p_call_args, p_calls,
    p_expression, p_list_items, p_map_entries, p_nested, p_primary, p_primary_rest, pipe_at,
    punct_at, replace_all, str_at, num_wf, tokens_wf, unchecked, unescape, word_at, add_nested, with_nested, BlockAcc,
    ErrModel, ExprCtx, PErr, PRes,
};
use crate::parser::lexer::{tokens_view, Token, TokenKind, TokenModel};
use crate::parser::ParseError;
use crate::resource::{insert_entry, lookup, Value, ValueMap, ValueModel};
use crate::text::{
    all_digits, chars_of, copy_string, digits_value, has_char, is_ascii_digit, is_prefix,
    lemma_digits_value_mono, split, split_chars, str_contains_char, str_eq, string_of, views,
};

verus! {

broadcast use vstd::std_specs::vec::axiom_vec_index_decreases;

/// An error of the expression parser.
#[derive(Debug, Clone)]
pub enum PError {
    /// No construct of the grammar matches at this token position.
    Syntax(usize),
    /// A well-formed construct means nothing.
    Semantic(ParseError),
}

pub open spec fn perr_view(e: PError) -> PErr {
    match e {
        PError::Syntax(p) => PErr::Syntax(p as nat),
        PError::Semantic(e) => PErr::Semantic(e@),
    }
}

pub open spec fn value_res(r: Result<(Value, usize), PError>) -> PRes<ValueModel> {
    match r {
        Ok((v, j)) => Ok((v@, j as nat)),
        Err(e) => Err(perr_view(e)),
    }
}

pub open spec fn values_res(r: Result<(Vec<Value>, usize), PError>) -> PRes<Seq<ValueModel>> {
    match r {
        Ok((v, j)) => Ok((crate::resource::values_view(v@), j as nat)),
        Err(e) => Err(perr_view(e)),
    }
}

pub open spec fn map_res(r: Result<(ValueMap, usize), PError>) -> PRes<Seq<(Seq<char>, ValueModel)>> {
    match r {
        Ok((m, j)) => Ok((m@, j as nat)),
        Err(e) => Err(perr_view(e)),
    }
}

pub open spec fn attr_res(r: Result<((String, Value), usize), PError>) -> PRes<(Seq<char>, ValueModel)> {
    match r {
        Ok(((k, v), j)) => Ok(((k@, v@), j as nat)),
        Err(e) => Err(perr_view(e)),
    }
}

/// What expressions see while a file is parsed.
pub struct ParseContext {
    pub variables: ValueMap,
    pub resource_bindings: Vec<String>,
    pub in_module: bool,
    pub env: Vec<(String, String)>,
}

pub open spec fn strings_model(v: Seq<String>) -> Seq<Seq<char>> {
    Seq::new(v.len(), |i: int| v[i]@)
}

pub open spec fn env_model(v: Seq<(String, String)>) -> Seq<(Seq<char>, Seq<char>)> {
    Seq::new(v.len(), |i: int| (v[i].0@, v[i].1@))
}

impl View for ParseContext {
    type V = ExprCtx;

    open spec fn view(&self) -> ExprCtx {
        ExprCtx {
            vars: self.variables@,
            bindings: strings_model(self.resource_bindings@),
            in_module: self.in_module,
            env: env_model(self.env@),
        }
    }
}

/// A context with no variables and no environment, for function-call
/// arguments, whose values are never used.
fn empty_context() -> (r: ParseContext)
    ensures
        r@ == (ExprCtx { vars: seq![], bindings: seq![], in_module: false, env: seq![] }),
{
    let r = ParseContext {
        variables: ValueMap::new(),
        resource_bindings: Vec::new(),
        in_module: false,
        env: Vec::new(),
    };
    proof {
        assert(strings_model(r.resource_bindings@) =~= seq![]);
        assert(env_model(r.env@) =~= seq![]);
    }
    r
}

// ---------------------------------------------------------------------------
// Token tests
// ---------------------------------------------------------------------------

fn text_is(s: &String, c: char) -> (r: bool)
    ensures
        r == (s@ == seq![c]),
{
    let v = chars_of(s.as_str());
    if v.len() == 1 && v[0] == c {
        proof {
            assert(v@ =~= seq![c]);
        }
        true
    } else {
        proof {
            if s@ == seq![c] {
                assert(v@.len() == 1 && v@[0] == c);
            }
        }
        false
    }
}

pub fn is_punct(t: &[Token], i: usize, p: char) -> (r: bool)
    ensures
        r == punct_at(tokens_view(t@), i as nat, p),
        r ==> i < t.len(),
{
    i < t.len() && t[i].kind == TokenKind::Punct && text_is(&t[i].text, p)
}

fn is_pipe(t: &[Token], i: usize) -> (r: bool)
    ensures
        r == pipe_at(tokens_view(t@), i as nat),
        r ==> i < t.len(),
{
    proof {
        reveal_strlit("|>");
        assert("|>"@ =~= seq!['|', '>']);
    }
    i < t.len() && t[i].kind == TokenKind::Punct && str_eq(t[i].text.as_str(), "|>")
}

pub fn is_word(t: &[Token], i: usize) -> (r: bool)
    ensures
        r == word_at(tokens_view(t@), i as nat),
        r ==> i < t.len(),
{
    i < t.len() && t[i].kind == TokenKind::Word
}

pub fn is_ident(t: &[Token], i: usize) -> (r: bool)
    ensures
        r == ident_at(tokens_view(t@), i as nat),
        r ==> i < t.len(),
{
    is_word(t, i) && !str_contains_char(t[i].text.as_str(), '.')
}

pub fn is_dotted(t: &[Token], i: usize) -> (r: bool)
    ensures
        r == dotted_at(tokens_view(t@), i as nat),
        r ==> i < t.len(),
{
    is_word(t, i) && str_contains_char(t[i].text.as_str(), '.')
}

pub fn is_keyword(t: &[Token], i: usize, kw: &str) -> (r: bool)
    ensures
        r == keyword_at(tokens_view(t@), i as nat, kw@),
        r ==> i < t.len(),
{
    is_word(t, i) && str_eq(t[i].text.as_str(), kw)
}

pub fn is_str(t: &[Token], i: usize) -> (r: bool)
    ensures
        r == str_at(tokens_view(t@), i as nat),
        r ==> i < t.len(),
{
    i < t.len() && t[i].kind == TokenKind::Str
}

pub fn is_num(t: &[Token], i: usize) -> (r: bool)
    ensures
        r == num_at(tokens_view(t@), i as nat),
        r ==> i < t.len(),
{
    i < t.len() && t[i].kind == TokenKind::Num
}

// ---------------------------------------------------------------------------
// Literals
// ---------------------------------------------------------------------------

proof fn lemma_replace_skip(s: Seq<char>, pat: Seq<char>, rep: Seq<char>, i: int)
    requires
        0 <= i < s.len(),
        pat.len() > 0,
    ensures
        is_prefix(pat, s.skip(i)) ==> replace_all(s.skip(i), pat, rep) == rep + replace_all(
            s.skip(i + pat.len()),
            pat,
            rep,
        ),
        !is_prefix(pat, s.skip(i)) ==> replace_all(s.skip(i), pat, rep) == seq![s[i]]
            + replace_all(s.skip(i + 1), pat, rep),
{
    let t = s.skip(i);
    if is_prefix(pat, t) {
        assert(t.skip(pat.len() as int) =~= s.skip(i + pat.len()));
    } else {
        assert(t.drop_first() =~= s.skip(i + 1));
    }
}

/// `s` with every occurrence of `pat` replaced by `rep`, scanning from the left.
fn replace_all_chars(s: &[char], pat: &[char], rep: &[char]) -> (r: Vec<char>)
    requires
        pat.len() > 0,
    ensures
        r@ == replace_all(s@, pat@, rep@),
{
    let mut out: Vec<char> = Vec::new();
    let mut i: usize = 0;
    proof {
        assert(s@.skip(0) =~= s@);
        assert(out@ + s@ =~= s@);
    }
    while i < s.len()
        invariant
            i <= s.len(),
            pat.len() > 0,
            out@ + replace_all(s@.skip(i as int), pat@, rep@) == replace_all(s@, pat@, rep@),
        decreases s.len() - i,
    {
        let ghost before = out@;
        proof {
            lemma_replace_skip(s@, pat@, rep@, i as int);
        }
        let mut matched = pat.len() <= s.len() - i;
        let mut k: usize = 0;
        while matched && k < pat.len()
            invariant
                k <= pat.len(),
                i < s.len(),
                matched ==> pat.len() <= s.len() - i,
                matched ==> forall|j: int| 0 <= j < k ==> s@[i + j] == pat@[j],
                !matched ==> !is_prefix(pat@, s@.skip(i as int)),
            decreases pat.len() - k + (if matched {
                1int
            } else {
                0int
            }),
        {
            if s[i + k] != pat[k] {
                proof {
                    assert(s@.skip(i as int).take(pat.len() as int)[k as int] != pat@[k as int]);
                }
                matched = false;
            } else {
                k += 1;
            }
        }
        if matched {
            proof {
                assert(s@.skip(i as int).take(pat.len() as int) =~= pat@);
            }
            let mut m: usize = 0;
            while m < rep.len()
                invariant
                    m <= rep.len(),
                    out@ == before + rep@.take(m as int),
                decreases rep.len() - m,
            {
                out.push(rep[m]);
                m += 1;
                proof {
                    assert(rep@.take(m as int) =~= rep@.take(m - 1).push(rep@[m - 1]));
                }
            }
            proof {
                assert(rep@.take(rep.len() as int) =~= rep@);
                assert(before + (rep@ + replace_all(s@.skip(i + pat.len()), pat@, rep@)) =~= out@
                    + replace_all(s@.skip(i + pat.len()), pat@, rep@));
            }
            i = i + pat.len();
        } else {
            out.push(s[i]);
            proof {
                assert(before + (seq![s@[i as int]] + replace_all(s@.skip(i + 1), pat@, rep@))
                    =~= out@ + replace_all(s@.skip(i + 1), pat@, rep@));
            }
            i = i + 1;
        }
    }
    proof {
        assert(s@.skip(s.len() as int) =~= Seq::<char>::empty());
        assert(out@ + Seq::<char>::empty() =~= out@);
    }
    out
}

fn one(a: char) -> (r: Vec<char>)
    ensures
        r@ == seq![a],
{
    let mut v = Vec::new();
    v.push(a);
    proof {
        assert(v@ =~= seq![a]);
    }
    v
}

fn two(a: char, b: char) -> (r: Vec<char>)
    ensures
        r@ == seq![a, b],
{
    let mut v = Vec::new();
    v.push(a);
    v.push(b);
    proof {
        assert(v@ =~= seq![a, b]);
    }
    v
}

/// The text of a string literal after escape handling.
pub fn unescape_text(s: &str) -> (r: String)
    ensures
        r@ == unescape(s@),
{
    let v = chars_of(s);
    let bs = '\\';
    let a = replace_all_chars(v.as_slice(), two(bs, 'n').as_slice(), one('\n').as_slice());
    let b = replace_all_chars(a.as_slice(), two(bs, 'r').as_slice(), one('\r').as_slice());
    let c = replace_all_chars(b.as_slice(), two(bs, 't').as_slice(), one('\t').as_slice());
    let d = replace_all_chars(c.as_slice(), two(bs, '"').as_slice(), one('"').as_slice());
    let e = replace_all_chars(d.as_slice(), two(bs, bs).as_slice(), one(bs).as_slice());
    string_of(e.as_slice())
}


proof fn lemma_digits_step(d: Seq<char>, k: int)
    requires
        0 <= k < d.len(),
    ensures
        digits_value(d.take(k + 1)) == digits_value(d.take(k)) * 10 + ((d[k] as nat) - ('0' as nat)) as nat,
{
    assert(d.take(k + 1).drop_last() =~= d.take(k));
}

/// The value of a number token.
fn num_token_value(s: &str) -> (r: i64)
    requires
        num_wf(s@),
        i64::MIN <= num_value(s@) <= i64::MAX,
    ensures
        r == num_value(s@),
{
    let c = chars_of(s);
    let neg = c[0] == '-';
    let start: usize = if neg {
        1
    } else {
        0
    };
    let ghost d = s@.skip(start as int);
    proof {
        if neg {
            assert(d =~= s@.drop_first());
        } else {
            assert(d =~= s@);
        }
        assert(all_digits(d));
    }
    let ghost total = digits_value(d) as int;
    let mut acc: i64 = 0;
    let mut k: usize = start;
    proof {
        assert(d.take(0) =~= Seq::<char>::empty());
    }
    while k < c.len()
        invariant
            start <= k <= c.len(),
            c@ == s@,
            d == s@.skip(start as int),
            all_digits(d),
            total == digits_value(d),
            neg ==> total == -num_value(s@) && start == 1,
            !neg ==> total == num_value(s@) && start == 0,
            i64::MIN <= num_value(s@) <= i64::MAX,
            neg ==> acc == -(digits_value(d.take(k - start)) as int),
            !neg ==> acc == digits_value(d.take(k - start)) as int,
        decreases c.len() - k,
    {
        let ghost j = (k - start) as int;
        proof {
            lemma_digits_step(d, j);
            lemma_digits_value_mono(d, j + 1);
            assert(d[j] == c@[k as int]);
            assert(is_ascii_digit(d[j]));
        }
        let dig = (c[k] as u32 - '0' as u32) as i64;
        if neg {
            acc = acc * 10 - dig;
        } else {
            acc = acc * 10 + dig;
        }
        k += 1;
    }
    proof {
        assert(d.take(c.len() - start) =~= d);
    }
    acc
}

/// The value of an environment variable.
fn env_get(env: &Vec<(String, String)>, name: &String) -> (r: Option<String>)
    ensures
        match env_lookup(env_model(env@), name@) {
            Some(v) => r matches Some(s) && s@ == v,
            None => r is None,
        },
{
    let mut i: usize = 0;
    proof {
        assert(env_model(env@).skip(0) =~= env_model(env@));
    }
    while i < env.len()
        invariant
            i <= env.len(),
            env_lookup(env_model(env@), name@) == env_lookup(env_model(env@).skip(i as int), name@),
        decreases env.len() - i,
    {
        proof {
            assert(env_model(env@).skip(i as int).drop_first() =~= env_model(env@).skip(i + 1));
        }
        if str_eq(env[i].0.as_str(), name.as_str()) {
            return Some(copy_string(&env[i].1));
        }
        i += 1;
    }
    None
}

/// Whether a name is bound to a resource.
fn is_binding(ctx: &ParseContext, name: &[char]) -> (r: bool)
    ensures
        r == ctx@.bindings.contains(name@),
{
    let mut i: usize = 0;
    while i < ctx.resource_bindings.len()
        invariant
            i <= ctx.resource_bindings.len(),
            forall|j: int| 0 <= j < i ==> ctx@.bindings[j] != name@,
        decreases ctx.resource_bindings.len() - i,
    {
        let b = chars_of(ctx.resource_bindings[i].as_str());
        if crate::text::chars_eq(b.as_slice(), name) {
            proof {
                assert(ctx@.bindings[i as int] == name@);
            }
            return true;
        }
        i += 1;
    }
    false
}

/// The value of a dotted name in an expression.
fn dotted_name_value(text: &String, ctx: &ParseContext) -> (r: Result<Value, ParseError>)
    ensures
        match dotted_value(text@, ctx@) {
            Ok(v) => r matches Ok(x) && x@ == v,
            Err(e) => r matches Err(x) && x@ == e,
        },
{
    let c = chars_of(text.as_str());
    let parts = split_chars(c.as_slice(), '.');
    proof {
        assert(views(parts@) == dot_parts(text@));
    }
    if parts.len() == 2 {
        proof {
            assert(views(parts@)[0] == parts@[0]@);
            assert(views(parts@)[1] == parts@[1]@);
            reveal_strlit("input");
        }
        let first = string_of(parts[0].as_slice());
        let second = string_of(parts[1].as_slice());
        if str_eq(first.as_str(), "input") && ctx.in_module {
            Ok(Value::ResourceRef(crate::text::str_to_string("input"), second))
        } else if ctx.variables.get(first.as_str()).is_some() && !is_binding(ctx, parts[0].as_slice()) {
            let mut m = crate::text::str_to_string("'");
            crate::text::push_str(&mut m, first.as_str());
            crate::text::push_str(&mut m, "' is not a resource, cannot access attribute '");
            crate::text::push_str(&mut m, second.as_str());
            crate::text::push_str(&mut m, "'");
            Err(ParseError::InvalidExpression { line: 0, message: m })
        } else {
            Ok(Value::ResourceRef(first, second))
        }
    } else {
        Ok(Value::String(copy_string(text)))
    }
}


// ---------------------------------------------------------------------------
// Expressions
// ---------------------------------------------------------------------------

/// What the parsing functions require of the tokens.
pub open spec fn tokens_ok(t: Seq<Token>) -> bool {
    tokens_wf(tokens_view(t)) && numbers_fit(tokens_view(t))
}

/// `expression`
pub fn parse_expression(t: &[Token], i: usize, ctx: &ParseContext, ev: bool) -> (r: Result<(Value, usize), PError>)
    requires
        tokens_ok(t@),
    ensures
        value_res(r) == p_expression(tokens_view(t@), i as nat, ctx@, ev),
    decreases t.len() - i, 20nat,
{
    match parse_primary(t, i, ctx, ev) {
        Ok((v, j)) => if i < j && j <= t.len() {
            let k = parse_calls(t, j);
            Ok((v, k))
        } else {
            Err(PError::Syntax(i))
        },
        Err(e) => Err(e),
    }
}

/// The position after a run of pipe calls.
fn parse_calls(t: &[Token], i: usize) -> (r: usize)
    requires
        tokens_ok(t@),
        i <= t.len(),
    ensures
        r == p_calls(tokens_view(t@), i as nat),
    decreases t.len() - i, 19nat,
{
    if is_pipe(t, i) {
        match parse_call(t, i + 1) {
            Some(j) => if i < j && j <= t.len() {
                parse_calls(t, j)
            } else {
                i
            },
            None => i,
        }
    } else {
        i
    }
}

/// A function call: the position after it.
fn parse_call(t: &[Token], i: usize) -> (r: Option<usize>)
    requires
        tokens_ok(t@),
        i <= t.len(),
    ensures
        r == (match p_call(tokens_view(t@), i as nat) {
            Some(j) => Some(j as usize),
            None => None::<usize>,
        }),
        r matches Some(j) ==> j <= t.len(),
        p_call(tokens_view(t@), i as nat) matches Some(j) ==> j <= t.len(),
    decreases t.len() - i, 18nat,
{
    if is_ident(t, i) && is_punct(t, i + 1, '(') {
        if is_punct(t, i + 2, ')') {
            Some(i + 3)
        } else {
            parse_call_args(t, i + 2)
        }
    } else {
        None
    }
}

/// Call arguments up to the closing parenthesis: the position after it.
fn parse_call_args(t: &[Token], i: usize) -> (r: Option<usize>)
    requires
        tokens_ok(t@),
        i <= t.len(),
    ensures
        r == (match p_call_args(tokens_view(t@), i as nat) {
            Some(j) => Some(j as usize),
            None => None::<usize>,
        }),
        r matches Some(j) ==> j <= t.len(),
        p_call_args(tokens_view(t@), i as nat) matches Some(j) ==> j <= t.len(),
    decreases t.len() - i, 21nat,
{
    let empty = empty_context();
    match parse_expression(t, i, &empty, false) {
        Ok((_, j)) => if i < j && j <= t.len() {
            if is_punct(t, j, ')') {
                Some(j + 1)
            } else if is_punct(t, j, ',') {
                parse_call_args(t, j + 1)
            } else {
                None
            }
        } else {
            None
        },
        Err(_) => None,
    }
}

/// `primary`
fn parse_primary(t: &[Token], i: usize, ctx: &ParseContext, ev: bool) -> (r: Result<(Value, usize), PError>)
    requires
        tokens_ok(t@),
    ensures
        value_res(r) == p_primary(tokens_view(t@), i as nat, ctx@, ev),
    decreases t.len() - i, 16nat,
{
    let ghost tv = tokens_view(t@);
    if i >= t.len() {
        return Err(PError::Syntax(i));
    }
    proof {
        reveal_strlit("env");
    }
    if is_keyword(t, i, "env") && is_punct(t, i + 1, '(') && is_str(t, i + 2) && is_punct(t, i + 3, ')') {
        let name = unescape_text(t[i + 2].text.as_str());
        proof {
            assert(tv[i + 2int] == t@[i + 2int]@);
        }
        if ev {
            match env_get(&ctx.env, &name) {
                Some(v) => Ok((Value::String(v), i + 4)),
                None => Err(PError::Semantic(ParseError::EnvVarNotSet(name))),
            }
        } else {
            Ok((Value::Bool(false), i + 4))
        }
    } else {
        if is_dotted(t, i) && is_punct(t, i + 1, '{') {
            match parse_block(t, i + 2, ctx, false) {
                Ok((_, j)) => {
                    if ev {
                        return Err(
                            PError::Semantic(
                                ParseError::InvalidExpression {
                                    line: 0,
                                    message: crate::text::str_to_string(
                                        "Resource expressions can only be used in let bindings",
                                    ),
                                },
                            ),
                        );
                    } else {
                        return Ok((Value::Bool(false), j));
                    }
                },
                Err(_) => {},
            }
        }
        parse_primary_rest(t, i, ctx, ev)
    }
}

/// The alternatives of `primary` after environment reads and resource expressions.
fn parse_primary_rest(t: &[Token], i: usize, ctx: &ParseContext, ev: bool) -> (r: Result<(Value, usize), PError>)
    requires
        tokens_ok(t@),
    ensures
        value_res(r) == p_primary_rest(tokens_view(t@), i as nat, ctx@, ev),
    decreases t.len() - i, 15nat,
{
    let ghost tv = tokens_view(t@);
    if i >= t.len() {
        return Err(PError::Syntax(i));
    }
    proof {
        assert(tv[i as int] == t@[i as int]@);
        reveal_strlit("true");
        reveal_strlit("false");
    }
    if is_punct(t, i, '[') {
        if is_punct(t, i + 1, ']') {
            let items: Vec<Value> = Vec::new();
            proof {
                crate::resource::lemma_list_view(items);
                assert(crate::resource::values_view(items@) =~= seq![]);
            }
            Ok((Value::List(items), i + 2))
        } else {
            match parse_list_items(t, i + 1, ctx, ev) {
                Ok((items, j)) => {
                    proof {
                        crate::resource::lemma_list_view(items);
                    }
                    Ok((Value::List(items), j))
                },
                Err(e) => Err(e),
            }
        }
    } else if is_punct(t, i, '{') {
        if is_punct(t, i + 1, '}') {
            let m = ValueMap::new();
            proof {
                crate::resource::lemma_dict_view(m);
            }
            Ok((Value::Dict(m), i + 2))
        } else {
            match parse_map_entries(t, i + 1, ctx, ev, ValueMap::new()) {
                Ok((m, j)) => {
                    proof {
                        crate::resource::lemma_dict_view(m);
                    }
                    Ok((Value::Dict(m), j))
                },
                Err(e) => Err(e),
            }
        }
    } else if is_dotted(t, i) {
        if ev {
            match dotted_name_value(&t[i].text, ctx) {
                Ok(v) => Ok((v, i + 1)),
                Err(e) => Err(PError::Semantic(e)),
            }
        } else {
            Ok((Value::Bool(false), i + 1))
        }
    } else if is_keyword(t, i, "true") {
        Ok((Value::Bool(true), i + 1))
    } else if is_keyword(t, i, "false") {
        Ok((Value::Bool(false), i + 1))
    } else if is_num(t, i) {
        let n = num_token_value(t[i].text.as_str());
        Ok((Value::Int(n), i + 1))
    } else if is_str(t, i) {
        Ok((Value::String(unescape_text(t[i].text.as_str())), i + 1))
    } else if is_ident(t, i) {
        if ev {
            match ctx.variables.get(t[i].text.as_str()) {
                Some(v) => Ok((v.clone(), i + 1)),
                None => Err(PError::Semantic(ParseError::UndefinedVariable(copy_string(&t[i].text)))),
            }
        } else {
            Ok((Value::Bool(false), i + 1))
        }
    } else if is_punct(t, i, '(') {
        match parse_expression(t, i + 1, ctx, ev) {
            Ok((v, j)) => if i + 1 < j && j <= t.len() && is_punct(t, j, ')') {
                Ok((v, j + 1))
            } else {
                Err(PError::Syntax(i))
            },
            Err(PError::Semantic(e)) => Err(PError::Semantic(e)),
            Err(PError::Syntax(_)) => Err(PError::Syntax(i)),
        }
    } else {
        Err(PError::Syntax(i))
    }
}

/// List items up to the closing bracket.
fn parse_list_items(t: &[Token], i: usize, ctx: &ParseContext, ev: bool) -> (r: Result<(Vec<Value>, usize), PError>)
    requires
        tokens_ok(t@),
    ensures
        values_res(r) == p_list_items(tokens_view(t@), i as nat, ctx@, ev),
    decreases t.len() - i, 22nat,
{
    match parse_expression(t, i, ctx, ev) {
        Ok((v, j)) => if i < j && j <= t.len() {
            if is_punct(t, j, ']') {
                let mut out = Vec::new();
                out.push(v);
                proof {
                    assert(crate::resource::values_view(out@) =~= seq![out@[0]@]);
                }
                Ok((out, j + 1))
            } else if is_punct(t, j, ',') {
                if is_punct(t, j + 1, ']') {
                    let mut out = Vec::new();
                    out.push(v);
                    proof {
                        assert(crate::resource::values_view(out@) =~= seq![out@[0]@]);
                    }
                    Ok((out, j + 2))
                } else {
                    match parse_list_items(t, j + 1, ctx, ev) {
                        Ok((mut rest, k)) => {
                            let ghost vm = v@;
                            let ghost rm = crate::resource::values_view(rest@);
                            let mut out = Vec::new();
                            out.push(v);
                            out.append(&mut rest);
                            proof {
                                assert(crate::resource::values_view(out@) =~= seq![vm] + rm);
                            }
                            Ok((out, k))
                        },
                        Err(e) => Err(e),
                    }
                }
            } else {
                Err(PError::Syntax(j))
            }
        } else {
            Err(PError::Syntax(i))
        },
        Err(e) => Err(e),
    }
}

/// `IDENT "=" expression`
fn parse_attribute(t: &[Token], i: usize, ctx: &ParseContext, ev: bool) -> (r: Result<((String, Value), usize), PError>)
    requires
        tokens_ok(t@),
    ensures
        attr_res(r) == p_attribute(tokens_view(t@), i as nat, ctx@, ev),
    decreases t.len() - i, 13nat,
{
    if is_ident(t, i) && is_punct(t, i + 1, '=') {
        proof {
            assert(tokens_view(t@)[i as int] == t@[i as int]@);
        }
        match parse_expression(t, i + 2, ctx, ev) {
            Ok((v, j)) => Ok(((copy_string(&t[i].text), v), j)),
            Err(e) => Err(e),
        }
    } else {
        Err(PError::Syntax(i))
    }
}

/// Map entries up to the closing brace, inserted into `acc`.
fn parse_map_entries(t: &[Token], i: usize, ctx: &ParseContext, ev: bool, acc: ValueMap) -> (r: Result<(ValueMap, usize), PError>)
    requires
        tokens_ok(t@),
    ensures
        map_res(r) == p_map_entries(tokens_view(t@), i as nat, ctx@, ev, acc@),
    decreases t.len() - i, 23nat,
{
    match parse_attribute(t, i, ctx, ev) {
        Ok(((k, v), j)) => if i < j && j <= t.len() {
            let mut acc2 = acc;
            acc2.insert(k, v);
            if is_punct(t, j, '}') {
                Ok((acc2, j + 1))
            } else if is_punct(t, j, ',') {
                if is_punct(t, j + 1, '}') {
                    Ok((acc2, j + 2))
                } else {
                    parse_map_entries(t, j + 1, ctx, ev, acc2)
                }
            } else {
                parse_map_entries(t, j, ctx, ev, acc2)
            }
        } else {
            Err(PError::Syntax(i))
        },
        Err(e) => Err(e),
    }
}

// ---------------------------------------------------------------------------
// Blocks
// ---------------------------------------------------------------------------

/// `IDENT "{" attribute* "}"`: the name and the attributes as a map.
fn parse_nested(t: &[Token], i: usize, ctx: &ParseContext, ev: bool) -> (r: Result<((String, Value), usize), PError>)
    requires
        tokens_ok(t@),
    ensures
        attr_res(r) == p_nested(tokens_view(t@), i as nat, ctx@, ev),
    decreases t.len() - i, 11nat,
{
    if is_ident(t, i) && is_punct(t, i + 1, '{') {
        proof {
            assert(tokens_view(t@)[i as int] == t@[i as int]@);
        }
        match parse_attrs(t, i + 2, ctx, ev, ValueMap::new()) {
            Ok((m, j)) => {
                proof {
                    crate::resource::lemma_dict_view(m);
                }
                Ok(((copy_string(&t[i].text), Value::Dict(m)), j))
            },
            Err(e) => Err(e),
        }
    } else {
        Err(PError::Syntax(i))
    }
}

/// `attribute* "}"`: the attributes inserted into `acc`.
pub fn parse_attrs(t: &[Token], i: usize, ctx: &ParseContext, ev: bool, acc: ValueMap) -> (r: Result<(ValueMap, usize), PError>)
    requires
        tokens_ok(t@),
    ensures
        map_res(r) == p_attrs(tokens_view(t@), i as nat, ctx@, ev, acc@),
    decreases t.len() - i, 24nat,
{
    match parse_attribute(t, i, ctx, ev) {
        Ok(((k, v), j)) => if i < j && j <= t.len() {
            let mut acc2 = acc;
            acc2.insert(k, v);
            parse_attrs(t, j, ctx, ev, acc2)
        } else {
            Err(PError::Syntax(i))
        },
        Err(PError::Semantic(e)) => Err(PError::Semantic(e)),
        Err(PError::Syntax(_)) => if is_punct(t, i, '}') {
            Ok((acc, i + 1))
        } else {
            Err(PError::Syntax(i))
        },
    }
}

/// `block_content* "}"`: the attributes with nested blocks as lists.
pub fn parse_block(t: &[Token], i: usize, ctx: &ParseContext, ev: bool) -> (r: Result<(ValueMap, usize), PError>)
    requires
        tokens_ok(t@),
    ensures
        map_res(r) == p_block(tokens_view(t@), i as nat, ctx@, ev),
    decreases t.len() - i, 27nat,
{
    let r = parse_block_items(t, i, ctx, ev, ValueMap::new(), Vec::new());
    proof {
        assert(groups_model(Seq::<(String, Vec<Value>)>::empty()) =~= seq![]);
    }
    r
}

/// The models of nested-block groups.
pub open spec fn groups_model(g: Seq<(String, Vec<Value>)>) -> Seq<(Seq<char>, Seq<ValueModel>)> {
    Seq::new(g.len(), |k: int| (g[k].0@, crate::resource::values_view(g[k].1@)))
}

/// The groups with one more block under `name`.
fn add_to_group(g: &mut Vec<(String, Vec<Value>)>, name: String, b: Value)
    ensures
        groups_model(final(g)@) == add_nested(groups_model(old(g)@), name@, b@),
{
    let ghost g0 = groups_model(g@);
    let mut k: usize = 0;
    while k < g.len()
        invariant
            k <= g.len(),
            g0 == groups_model(g@),
            g0 == groups_model(old(g)@),
            forall|j: int| 0 <= j < k ==> g@[j].0@ != name@,
        decreases g.len() - k,
    {
        if str_eq(g[k].0.as_str(), name.as_str()) {
            let ghost bm = b@;
            let (n, mut items) = g.remove(k);
            let ghost old_items = crate::resource::values_view(items@);
            items.push(b);
            proof {
                assert(crate::resource::values_view(items@) =~= old_items.push(bm));
                assert(n@ == name@);
            }
            g.insert(k, (n, items));
            proof {
                assert(g0[k as int].1 == old_items);
                assert forall|j: int| 0 <= j < k implies g0[j].0 != name@ by {
                    assert(g0[j].0 == g@[j].0@);
                }
                lemma_add_nested_at(g0, name@, bm, k as int);
                assert(groups_model(g@) =~= g0.update(k as int, (name@, g0[k as int].1.push(bm))));
                assert(groups_model(g@) == add_nested(g0, name@, bm));
            }
            return;
        }
        k += 1;
    }
    let ghost bm = b@;
    let mut items = Vec::new();
    items.push(b);
    g.push((name, items));
    proof {
        lemma_add_nested_new(g0, name@, bm);
        assert(crate::resource::values_view(g@[g@.len() - 1].1@) =~= seq![bm]);
        assert(groups_model(g@) =~= g0.push((name@, seq![bm])));
    }
}

proof fn lemma_add_nested_at(g: Seq<(Seq<char>, Seq<ValueModel>)>, name: Seq<char>, b: ValueModel, k: int)
    requires
        0 <= k < g.len(),
        g[k].0 == name,
        forall|j: int| 0 <= j < k ==> g[j].0 != name,
    ensures
        add_nested(g, name, b) == g.update(k, (name, g[k].1.push(b))),
    decreases k,
{
    if k > 0 {
        let r = g.drop_first();
        assert forall|j: int| 0 <= j < k - 1 implies r[j].0 != name by {
            assert(r[j] == g[j + 1]);
        }
        lemma_add_nested_at(r, name, b, k - 1);
        assert(seq![g[0]] + r.update(k - 1, (name, r[k - 1].1.push(b))) =~= g.update(k, (name, g[k].1.push(b))));
    }
}

proof fn lemma_add_nested_new(g: Seq<(Seq<char>, Seq<ValueModel>)>, name: Seq<char>, b: ValueModel)
    requires
        forall|j: int| 0 <= j < g.len() ==> g[j].0 != name,
    ensures
        add_nested(g, name, b) == g.push((name, seq![b])),
    decreases g.len(),
{
    if g.len() > 0 {
        let r = g.drop_first();
        assert forall|j: int| 0 <= j < r.len() implies r[j].0 != name by {
            assert(r[j] == g[j + 1]);
        }
        lemma_add_nested_new(r, name, b);
        assert(seq![g[0]] + r.push((name, seq![b])) =~= g.push((name, seq![b])));
    }
}

/// The attributes after each group is stored as a list under its name.
fn store_groups(attrs: &mut ValueMap, g: Vec<(String, Vec<Value>)>)
    ensures
        final(attrs)@ == with_nested(old(attrs)@, groups_model(g@)),
{
    let ghost gm = groups_model(g@);
    let mut k: usize = 0;
    let mut g = g;
    let ghost a0 = attrs@;
    proof {
        assert(gm.skip(0) =~= gm);
        assert(gm.len() == g.len());
    }
    while g.len() > 0
        invariant
            k <= gm.len(),
            gm.len() <= usize::MAX,
            g.len() == gm.len() - k,
            groups_model(g@) == gm.skip(k as int),
            with_nested(a0, gm) == with_nested(attrs@, gm.skip(k as int)),
        decreases g.len(),
    {
        let ghost before = attrs@;
        let (n, items) = g.remove(0);
        proof {
            crate::resource::lemma_list_view(items);
            assert(gm.skip(k as int)[0] == (n@, crate::resource::values_view(items@)));
            assert(gm.skip(k as int).drop_first() =~= gm.skip(k + 1));
            assert(groups_model(g@) =~= gm.skip(k + 1));
        }
        attrs.insert(n, Value::List(items));
        k += 1;
    }
    proof {
        assert(gm.skip(k as int) =~= Seq::<(Seq<char>, Seq<ValueModel>)>::empty());
    }
}

/// Block contents gathered into `attrs` and the nested-block groups `g`.
fn parse_block_items(
    t: &[Token],
    i: usize,
    ctx: &ParseContext,
    ev: bool,
    attrs: ValueMap,
    g: Vec<(String, Vec<Value>)>,
) -> (r: Result<(ValueMap, usize), PError>)
    requires
        tokens_ok(t@),
    ensures
        map_res(r) == p_block_items(
            tokens_view(t@),
            i as nat,
            ctx@,
            ev,
            BlockAcc { attrs: attrs@, nested: groups_model(g@) },
        ),
    decreases t.len() - i, 26nat,
{
    match parse_attribute(t, i, ctx, ev) {
        Ok(((k, v), j)) => if i < j && j <= t.len() {
            let mut attrs2 = attrs;
            attrs2.insert(k, v);
            parse_block_items(t, j, ctx, ev, attrs2, g)
        } else {
            Err(PError::Syntax(i))
        },
        Err(PError::Semantic(e)) => Err(PError::Semantic(e)),
        Err(PError::Syntax(_)) => match parse_nested(t, i, ctx, ev) {
            Ok(((k, b), j)) => if i < j && j <= t.len() {
                let mut g2 = g;
                add_to_group(&mut g2, k, b);
                parse_block_items(t, j, ctx, ev, attrs, g2)
            } else {
                Err(PError::Syntax(i))
            },
            Err(PError::Semantic(e)) => Err(PError::Semantic(e)),
            Err(PError::Syntax(_)) => if is_punct(t, i, '}') {
                let mut a = attrs;
                store_groups(&mut a, g);
                Ok((a, i + 1))
            } else {
                Err(PError::Syntax(i))
            },
        },
    }
}


/// The position after a run of pipe calls.
pub fn parse_calls_pub(t: &[Token], i: usize) -> (r: usize)
    requires
        tokens_ok(t@),
        i <= t.len(),
    ensures
        r == p_calls(tokens_view(t@), i as nat),
{
    parse_calls(t, i)
}

} // verus!
