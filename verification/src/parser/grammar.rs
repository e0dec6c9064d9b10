//! The grammar of `.crn` files over tokens, and what each construct means.
//!
//! ```text
//! file         = statement*
//! statement    = import | backend | provider | input | output | let | module_call | anonymous
//! import       = "import" STRING "as" IDENT
//! backend      = "backend" IDENT "{" attribute* "}"
//! provider     = "provider" IDENT "{" attribute* "}"
//! input        = "input" "{" param* "}"
//! output       = "output" "{" param* "}"
//! param        = IDENT ":" type ("=" expression)?
//! type         = ("list" | "map") "(" type ")" | "ref" "(" WORD ")"
//!              | "string" | "bool" | "int" | "cidr"
//! let          = "let" IDENT "=" expression
//! module_call  = IDENT "{" attribute* "}"
//! anonymous    = DOTTED "{" block_content* "}"
//! block_content = attribute | IDENT "{" attribute* "}"
//! attribute    = IDENT "=" expression
//! expression   = primary ("|>" IDENT "(" (expression ("," expression)*)? ")")*
//! primary      = "env" "(" STRING ")" | DOTTED "{" block_content* "}"
//!              | "[" (expression ("," expression)* ","?)? "]"
//!              | "{" (attribute (","? attribute)* ","?)? "}"
//!              | DOTTED | "true" | "false" | NUMBER | STRING | IDENT
//!              | "(" expression ")"
//! ```
//!
//! Alternatives are tried in order and a failed one is abandoned for the
//! next (ordered choice); a repetition stops at the first item that does not
//! parse.

use vstd::prelude::*;

use crate::parser::lexer::{TokenKind, TokenModel};
use crate::resource::{insert_entry, lookup, ValueModel};
use crate::text::{has_char, is_prefix, join, split};

verus! {

/// An error of the parser's model: a syntax error at a token position, or
/// an error in what a well-formed construct means.
pub enum PErr {
    Syntax(nat),
    Semantic(ErrModel),
}

/// The mathematical content of a parse error.
pub enum ErrModel {
    Syntax { line: nat, column: nat },
    InvalidExpression { line: nat, message: Seq<char> },
    UndefinedVariable(Seq<char>),
    EnvVarNotSet(Seq<char>),
    InvalidResourceType(Seq<char>),
    DuplicateModule(Seq<char>),
    ModuleNotFound(Seq<char>),
}

/// What expressions can see: variables, the names bound to resources,
/// whether an `input` block was seen, and the environment.
pub struct ExprCtx {
    pub vars: Seq<(Seq<char>, ValueModel)>,
    pub bindings: Seq<Seq<char>>,
    pub in_module: bool,
    pub env: Seq<(Seq<char>, Seq<char>)>,
}

pub type PRes<T> = Result<(T, nat), PErr>;

// ---------------------------------------------------------------------------
// Tokens
// ---------------------------------------------------------------------------

pub open spec fn punct_at(t: Seq<TokenModel>, i: nat, p: char) -> bool {
    i < t.len() && t[i as int].kind == TokenKind::Punct && t[i as int].text == seq![p]
}

pub open spec fn pipe_at(t: Seq<TokenModel>, i: nat) -> bool {
    i < t.len() && t[i as int].kind == TokenKind::Punct && t[i as int].text == seq!['|', '>']
}

pub open spec fn word_at(t: Seq<TokenModel>, i: nat) -> bool {
    i < t.len() && t[i as int].kind == TokenKind::Word
}

/// A plain identifier: a word without dots.
pub open spec fn ident_at(t: Seq<TokenModel>, i: nat) -> bool {
    word_at(t, i) && !has_char(t[i as int].text, '.')
}

/// Identifiers joined by dots.
pub open spec fn dotted_at(t: Seq<TokenModel>, i: nat) -> bool {
    word_at(t, i) && has_char(t[i as int].text, '.')
}

pub open spec fn keyword_at(t: Seq<TokenModel>, i: nat, kw: Seq<char>) -> bool {
    word_at(t, i) && t[i as int].text == kw
}

pub open spec fn str_at(t: Seq<TokenModel>, i: nat) -> bool {
    i < t.len() && t[i as int].kind == TokenKind::Str
}

pub open spec fn num_at(t: Seq<TokenModel>, i: nat) -> bool {
    i < t.len() && t[i as int].kind == TokenKind::Num
}

// ---------------------------------------------------------------------------
// Literals
// ---------------------------------------------------------------------------

/// `s` with every non-overlapping occurrence of `pat`, scanning from the
/// left, replaced by `rep`.
pub open spec fn replace_all(s: Seq<char>, pat: Seq<char>, rep: Seq<char>) -> Seq<char>
    decreases s.len(),
{
    if s.len() == 0 {
        s
    } else if pat.len() > 0 && is_prefix(pat, s) {
        rep + replace_all(s.skip(pat.len() as int), pat, rep)
    } else {
        seq![s[0]] + replace_all(s.drop_first(), pat, rep)
    }
}

/// The text of a string literal after escape handling: `\n`, `\r`, `\t`,
/// `\"` and `\\` are replaced, in that order, each over the whole text.
pub open spec fn unescape(s: Seq<char>) -> Seq<char> {
    let a = replace_all(s, seq!['\\', 'n'], seq!['\n']);
    let b = replace_all(a, seq!['\\', 'r'], seq!['\r']);
    let c = replace_all(b, seq!['\\', 't'], seq!['\t']);
    let d = replace_all(c, seq!['\\', '"'], seq!['"']);
    replace_all(d, seq!['\\', '\\'], seq!['\\'])
}

/// The character that the escape `\c` stands for in a string literal:
/// `\n` a line feed, `\r` a carriage return, `\t` a tab, and `\"` and `\\`
/// the quote and the backslash themselves.
pub open spec fn escaped_char(c: char) -> char {
    if c == 'n' {
        '\n'
    } else if c == 'r' {
        '\r'
    } else if c == 't' {
        '\t'
    } else {
        c
    }
}

/// Whether `\c` is one of the escapes of a string literal.
pub open spec fn is_escape(c: char) -> bool {
    c == 'n' || c == 'r' || c == 't' || c == '"' || c == '\\'
}

proof fn lemma_replace_plain(s: Seq<char>, pat: Seq<char>, rep: Seq<char>)
    requires
        !s.contains('\\'),
        pat.len() > 0,
        pat[0] == '\\',
    ensures
        replace_all(s, pat, rep) == s,
    decreases s.len(),
{
    if s.len() > 0 {
        assert(s[0] != '\\');
        assert(!is_prefix(pat, s)) by {
            if is_prefix(pat, s) {
                assert(s.take(pat.len() as int)[0] == s[0]);
            }
        }
        assert(!s.drop_first().contains('\\')) by {
            if s.drop_first().contains('\\') {
                let i = choose|i: int| 0 <= i < s.drop_first().len() && s.drop_first()[i] == '\\';
                assert(s[i + 1] == '\\');
            }
        }
        lemma_replace_plain(s.drop_first(), pat, rep);
        assert(seq![s[0]] + s.drop_first() =~= s);
    }
}

proof fn lemma_replace_after_plain(p: Seq<char>, q: Seq<char>, pat: Seq<char>, rep: Seq<char>)
    requires
        !p.contains('\\'),
        pat.len() > 0,
        pat[0] == '\\',
    ensures
        replace_all(p + q, pat, rep) == p + replace_all(q, pat, rep),
    decreases p.len(),
{
    if p.len() > 0 {
        let s = p + q;
        assert(s[0] == p[0]);
        assert(!is_prefix(pat, s)) by {
            if is_prefix(pat, s) {
                assert(s.take(pat.len() as int)[0] == s[0]);
            }
        }
        assert(!p.drop_first().contains('\\')) by {
            if p.drop_first().contains('\\') {
                let i = choose|i: int| 0 <= i < p.drop_first().len() && p.drop_first()[i] == '\\';
                assert(p[i + 1] == '\\');
            }
        }
        assert(s.drop_first() =~= p.drop_first() + q);
        lemma_replace_after_plain(p.drop_first(), q, pat, rep);
        assert(seq![p[0]] + (p.drop_first() + replace_all(q, pat, rep)) =~= p + replace_all(q, pat, rep));
    } else {
        assert(p + q =~= q);
        assert(p + replace_all(q, pat, rep) =~= replace_all(q, pat, rep));
    }
}

/// One replacement pass over an escape followed by plain text.
proof fn lemma_replace_escape(c: char, q: Seq<char>, x: char, y: char)
    requires
        !q.contains('\\'),
        c == '\\' ==> q.len() == 0 || q[0] != x,
    ensures
        replace_all(seq!['\\', c] + q, seq!['\\', x], seq![y]) == if c == x {
            seq![y] + q
        } else {
            seq!['\\', c] + q
        },
{
    let pat = seq!['\\', x];
    let s = seq!['\\', c] + q;
    lemma_replace_plain(q, pat, seq![y]);
    if c == x {
        assert(s.take(2) =~= pat);
        assert(s.skip(2) =~= q);
        assert(replace_all(s, pat, seq![y]) == seq![y] + replace_all(q, pat, seq![y]));
    } else {
        assert(!is_prefix(pat, s)) by {
            if is_prefix(pat, s) {
                assert(s.take(2)[1] == s[1]);
            }
        }
        let t = s.drop_first();
        assert(t =~= seq![c] + q);
        if c == '\\' {
            assert(!is_prefix(pat, t)) by {
                if is_prefix(pat, t) {
                    assert(t.take(2)[1] == t[1]);
                    assert(t[1] == q[0]);
                }
            }
        } else {
            assert(!is_prefix(pat, t)) by {
                if is_prefix(pat, t) {
                    assert(t.take(2)[0] == t[0]);
                }
            }
        }
        assert(t.drop_first() =~= q);
        assert(replace_all(t, pat, seq![y]) == seq![t[0]] + replace_all(q, pat, seq![y]));
        assert(replace_all(s, pat, seq![y]) == seq![s[0]] + replace_all(t, pat, seq![y]));
        assert(seq![s[0]] + (seq![t[0]] + q) =~= s);
    }
}

/// Text without a backslash is its own value.
pub proof fn lemma_unescape_plain(s: Seq<char>)
    requires
        !s.contains('\\'),
    ensures
        unescape(s) == s,
{
    lemma_replace_plain(s, seq!['\\', 'n'], seq!['\n']);
    lemma_replace_plain(s, seq!['\\', 'r'], seq!['\r']);
    lemma_replace_plain(s, seq!['\\', 't'], seq!['\t']);
    lemma_replace_plain(s, seq!['\\', '"'], seq!['"']);
    lemma_replace_plain(s, seq!['\\', '\\'], seq!['\\']);
}

/// An escape between two stretches of plain text stands for its character:
/// `\n`, `\r` and `\t` for a line feed, a carriage return and a tab, `\"`
/// and `\\` for a quote and a backslash. (A `\\` directly before `n`, `r`,
/// `t` or `"` is left out: there the later character is read as an escape
/// first.)
pub proof fn lemma_unescape_escape(p: Seq<char>, c: char, q: Seq<char>)
    requires
        !p.contains('\\'),
        !q.contains('\\'),
        is_escape(c),
        c == '\\' ==> q.len() == 0 || !(q[0] == 'n' || q[0] == 'r' || q[0] == 't' || q[0] == '"'),
    ensures
        unescape(p + seq!['\\', c] + q) == p + seq![escaped_char(c)] + q,
{
    let e = seq!['\\', c] + q;
    assert(p + seq!['\\', c] + q =~= p + e);
    let done = seq![escaped_char(c)] + q;
    assert(!done.contains('\\') || c == '\\') by {
        if done.contains('\\') && c != '\\' {
            let i = choose|i: int| 0 <= i < done.len() && done[i] == '\\';
            if i > 0 {
                assert(q[i - 1] == done[i]);
            }
        }
    }
    // each pass keeps the plain prefix and works on the rest
    let a = replace_all(p + e, seq!['\\', 'n'], seq!['\n']);
    lemma_replace_after_plain(p, e, seq!['\\', 'n'], seq!['\n']);
    lemma_replace_escape(c, q, 'n', '\n');
    let ra = if c == 'n' { done } else { e };
    assert(a == p + ra);
    let b = replace_all(a, seq!['\\', 'r'], seq!['\r']);
    lemma_replace_after_plain(p, ra, seq!['\\', 'r'], seq!['\r']);
    let rb = if c == 'n' || c == 'r' { done } else { e };
    if c == 'n' {
        lemma_replace_plain(done, seq!['\\', 'r'], seq!['\r']);
    } else {
        lemma_replace_escape(c, q, 'r', '\r');
    }
    assert(b == p + rb);
    let cc = replace_all(b, seq!['\\', 't'], seq!['\t']);
    lemma_replace_after_plain(p, rb, seq!['\\', 't'], seq!['\t']);
    let rc = if c == 'n' || c == 'r' || c == 't' { done } else { e };
    if c == 'n' || c == 'r' {
        lemma_replace_plain(done, seq!['\\', 't'], seq!['\t']);
    } else {
        lemma_replace_escape(c, q, 't', '\t');
    }
    assert(cc == p + rc);
    let d = replace_all(cc, seq!['\\', '"'], seq!['"']);
    lemma_replace_after_plain(p, rc, seq!['\\', '"'], seq!['"']);
    let rd = if c != '\\' { done } else { e };
    if c == 'n' || c == 'r' || c == 't' {
        lemma_replace_plain(done, seq!['\\', '"'], seq!['"']);
    } else {
        lemma_replace_escape(c, q, '"', '"');
    }
    assert(d == p + rd);
    lemma_replace_after_plain(p, rd, seq!['\\', '\\'], seq!['\\']);
    if c != '\\' {
        lemma_replace_plain(done, seq!['\\', '\\'], seq!['\\']);
    } else {
        lemma_replace_escape(c, q, '\\', '\\');
    }
    assert(p + done =~= p + seq![escaped_char(c)] + q);
}

/// One replacement pass over a doubled backslash, an escape letter and plain text.
proof fn lemma_replace_double(c: char, q: Seq<char>, x: char, y: char)
    requires
        !q.contains('\\'),
        c != '\\',
        x != '\\',
    ensures
        replace_all(seq!['\\', '\\', c] + q, seq!['\\', x], seq![y]) == if c == x {
            seq!['\\', y] + q
        } else {
            seq!['\\', '\\', c] + q
        },
{
    let pat = seq!['\\', x];
    let s = seq!['\\', '\\', c] + q;
    let t = seq!['\\', c] + q;
    assert(!is_prefix(pat, s)) by {
        if is_prefix(pat, s) {
            assert(s.take(2)[1] == s[1]);
        }
    }
    assert(s.drop_first() =~= t);
    lemma_replace_escape(c, q, x, y);
    assert(replace_all(s, pat, seq![y]) == seq![s[0]] + replace_all(t, pat, seq![y]));
    assert(seq!['\\'] + (seq![y] + q) =~= seq!['\\', y] + q);
    assert(seq!['\\'] + t =~= s);
}

/// A backslash escape directly before an escape letter: the letter's escape
/// is read first, and the backslash before it is kept.
pub proof fn lemma_unescape_double(p: Seq<char>, c: char, q: Seq<char>)
    requires
        !p.contains('\\'),
        !q.contains('\\'),
        c == 'n' || c == 'r' || c == 't' || c == '"',
    ensures
        unescape(p + seq!['\\', '\\', c] + q) == p + seq!['\\', escaped_char(c)] + q,
{
    let e = seq!['\\', '\\', c] + q;
    let y = escaped_char(c);
    let done = seq!['\\', y] + q;
    assert(p + seq!['\\', '\\', c] + q =~= p + e);
    lemma_replace_after_plain(p, e, seq!['\\', 'n'], seq!['\n']);
    lemma_replace_double(c, q, 'n', '\n');
    let ra = if c == 'n' { done } else { e };
    lemma_replace_after_plain(p, ra, seq!['\\', 'r'], seq!['\r']);
    if c == 'n' {
        lemma_replace_escape(y, q, 'r', '\r');
    } else {
        lemma_replace_double(c, q, 'r', '\r');
    }
    let rb = if c == 'n' || c == 'r' { done } else { e };
    lemma_replace_after_plain(p, rb, seq!['\\', 't'], seq!['\t']);
    if c == 'n' || c == 'r' {
        lemma_replace_escape(y, q, 't', '\t');
    } else {
        lemma_replace_double(c, q, 't', '\t');
    }
    let rc = if c == 'n' || c == 'r' || c == 't' { done } else { e };
    lemma_replace_after_plain(p, rc, seq!['\\', '"'], seq!['"']);
    if c == 'n' || c == 'r' || c == 't' {
        lemma_replace_escape(y, q, '"', '"');
    } else {
        lemma_replace_double(c, q, '"', '"');
    }
    lemma_replace_after_plain(p, done, seq!['\\', '\\'], seq!['\\']);
    lemma_replace_escape(y, q, '\\', '\\');
    assert(p + done =~= p + seq!['\\', escaped_char(c)] + q);
}

/// The value of a number token: an optional `-` and decimal digits.
pub open spec fn num_value(s: Seq<char>) -> int {
    if s.len() > 0 && s[0] == '-' {
        -(crate::text::digits_value(s.drop_first()) as int)
    } else {
        crate::text::digits_value(s) as int
    }
}

/// Whether a text has the form of a number token: an optional `-` and at least one digit.
pub open spec fn num_wf(s: Seq<char>) -> bool {
    if s.len() > 0 && s[0] == '-' {
        s.len() > 1 && crate::text::all_digits(s.drop_first())
    } else {
        s.len() > 0 && crate::text::all_digits(s)
    }
}

/// Whether every number token has the form of a number.
pub open spec fn tokens_wf(t: Seq<TokenModel>) -> bool {
    forall|k: int| 0 <= k < t.len() && #[trigger] t[k].kind == TokenKind::Num ==> num_wf(t[k].text)
}

/// Whether every number token's value fits in an `i64`.
pub open spec fn numbers_fit(t: Seq<TokenModel>) -> bool {
    forall|k: int|
        0 <= k < t.len() && #[trigger] t[k].kind == TokenKind::Num ==> i64::MIN <= num_value(t[k].text)
            <= i64::MAX
}

/// The value of an environment variable.
pub open spec fn env_lookup(env: Seq<(Seq<char>, Seq<char>)>, name: Seq<char>) -> Option<Seq<char>>
    decreases env.len(),
{
    if env.len() == 0 {
        None
    } else if env[0].0 == name {
        Some(env[0].1)
    } else {
        env_lookup(env.drop_first(), name)
    }
}

/// The pieces of a dotted name.
pub open spec fn dot_parts(s: Seq<char>) -> Seq<Seq<char>> {
    crate::text::split(s, '.')
}

/// The value of a dotted name in an expression: `input.x` inside a module
/// refers to an input; another two-part name refers to a resource attribute
/// (and is an error when its first part is a variable that is no resource);
/// longer names are enum-like strings.
pub open spec fn dotted_value(text: Seq<char>, c: ExprCtx) -> Result<ValueModel, ErrModel> {
    let parts = dot_parts(text);
    if parts.len() == 2 {
        if parts[0] == "input"@ && c.in_module {
            Ok(ValueModel::ResourceRef("input"@, parts[1]))
        } else if lookup(c.vars, parts[0]) is Some && !c.bindings.contains(parts[0]) {
            Err(
                ErrModel::InvalidExpression {
                    line: 0,
                    message: "'"@ + parts[0] + "' is not a resource, cannot access attribute '"@
                        + parts[1] + "'"@,
                },
            )
        } else {
            Ok(ValueModel::ResourceRef(parts[0], parts[1]))
        }
    } else {
        Ok(ValueModel::Str(text))
    }
}

/// The placeholder a construct yields when only its syntax is checked.
pub open spec fn unchecked() -> ValueModel {
    ValueModel::Bool(false)
}

// ---------------------------------------------------------------------------
// Expressions
// ---------------------------------------------------------------------------

/// `expression`: a primary followed by ignored pipe calls.
pub open spec fn p_expression(t: Seq<TokenModel>, i: nat, c: ExprCtx, ev: bool) -> PRes<ValueModel>
    decreases t.len() - i, 20nat,
{
    match p_primary(t, i, c, ev) {
        Ok((v, j)) => if i < j <= t.len() {
            Ok((v, p_calls(t, j)))
        } else {
            Err(PErr::Syntax(i))
        },
        Err(e) => Err(e),
    }
}

/// The position after a run of pipe calls starting at `i`.
pub open spec fn p_calls(t: Seq<TokenModel>, i: nat) -> nat
    decreases t.len() - i, 19nat,
{
    if pipe_at(t, i) {
        match p_call(t, i + 1) {
            Some(j) => if i < j <= t.len() {
                p_calls(t, j)
            } else {
                i
            },
            None => i,
        }
    } else {
        i
    }
}

/// A function call `f(args)`: the position after it.
pub open spec fn p_call(t: Seq<TokenModel>, i: nat) -> Option<nat>
    decreases t.len() - i, 18nat,
{
    if ident_at(t, i) && punct_at(t, i + 1, '(') {
        if punct_at(t, i + 2, ')') {
            Some(i + 3)
        } else {
            p_call_args(t, i + 2)
        }
    } else {
        None
    }
}

/// Call arguments from `i` to the closing parenthesis: the position after it.
pub open spec fn p_call_args(t: Seq<TokenModel>, i: nat) -> Option<nat>
    decreases t.len() - i, 21nat,
{
    match p_expression(t, i, ExprCtx { vars: seq![], bindings: seq![], in_module: false, env: seq![] }, false) {
        Ok((_, j)) => if i < j <= t.len() {
            if punct_at(t, j, ')') {
                Some(j + 1)
            } else if punct_at(t, j, ',') {
                p_call_args(t, j + 1)
            } else {
                None
            }
        } else {
            None
        },
        Err(_) => None,
    }
}

/// `primary`, tried alternative by alternative.
pub open spec fn p_primary(t: Seq<TokenModel>, i: nat, c: ExprCtx, ev: bool) -> PRes<ValueModel>
    decreases t.len() - i, 16nat,
{
    if i >= t.len() {
        Err(PErr::Syntax(i))
    } else if keyword_at(t, i, "env"@) && punct_at(t, i + 1, '(') && str_at(t, i + 2) && punct_at(
        t,
        i + 3,
        ')',
    ) {
        let name = unescape(t[i + 2int].text);
        if ev {
            match env_lookup(c.env, name) {
                Some(v) => Ok((ValueModel::Str(v), i + 4)),
                None => Err(PErr::Semantic(ErrModel::EnvVarNotSet(name))),
            }
        } else {
            Ok((unchecked(), i + 4))
        }
    } else if dotted_at(t, i) && punct_at(t, i + 1, '{') && p_block(t, i + 2, c, false) is Ok {
        let j = p_block(t, i + 2, c, false)->Ok_0.1;
        if ev {
            Err(
                PErr::Semantic(
                    ErrModel::InvalidExpression {
                        line: 0,
                        message: "Resource expressions can only be used in let bindings"@,
                    },
                ),
            )
        } else {
            Ok((unchecked(), j))
        }
    } else {
        p_primary_rest(t, i, c, ev)
    }
}

/// The alternatives of `primary` after environment reads and resource expressions.
pub open spec fn p_primary_rest(t: Seq<TokenModel>, i: nat, c: ExprCtx, ev: bool) -> PRes<ValueModel>
    decreases t.len() - i, 15nat,
{
    if i >= t.len() {
        Err(PErr::Syntax(i))
    } else if punct_at(t, i, '[') {
        if punct_at(t, i + 1, ']') {
            Ok((ValueModel::List(seq![]), i + 2))
        } else {
            match p_list_items(t, i + 1, c, ev) {
                Ok((items, j)) => Ok((ValueModel::List(items), j)),
                Err(PErr::Semantic(e)) => Err(PErr::Semantic(e)),
                Err(PErr::Syntax(p)) => Err(PErr::Syntax(p)),
            }
        }
    } else if punct_at(t, i, '{') {
        if punct_at(t, i + 1, '}') {
            Ok((ValueModel::Dict(seq![]), i + 2))
        } else {
            match p_map_entries(t, i + 1, c, ev, seq![]) {
                Ok((m, j)) => Ok((ValueModel::Dict(m), j)),
                Err(e) => Err(e),
            }
        }
    } else if dotted_at(t, i) {
        if ev {
            match dotted_value(t[i as int].text, c) {
                Ok(v) => Ok((v, i + 1)),
                Err(e) => Err(PErr::Semantic(e)),
            }
        } else {
            Ok((unchecked(), i + 1))
        }
    } else if keyword_at(t, i, "true"@) {
        Ok((ValueModel::Bool(true), i + 1))
    } else if keyword_at(t, i, "false"@) {
        Ok((ValueModel::Bool(false), i + 1))
    } else if num_at(t, i) {
        Ok((ValueModel::Int(num_value(t[i as int].text) as i64), i + 1))
    } else if str_at(t, i) {
        Ok((ValueModel::Str(unescape(t[i as int].text)), i + 1))
    } else if ident_at(t, i) {
        if ev {
            match lookup(c.vars, t[i as int].text) {
                Some(v) => Ok((v, i + 1)),
                None => Err(PErr::Semantic(ErrModel::UndefinedVariable(t[i as int].text))),
            }
        } else {
            Ok((unchecked(), i + 1))
        }
    } else if punct_at(t, i, '(') {
        match p_expression(t, i + 1, c, ev) {
            Ok((v, j)) => if i + 1 < j <= t.len() && punct_at(t, j, ')') {
                Ok((v, j + 1))
            } else {
                Err(PErr::Syntax(i))
            },
            Err(PErr::Semantic(e)) => Err(PErr::Semantic(e)),
            Err(PErr::Syntax(_)) => Err(PErr::Syntax(i)),
        }
    } else {
        Err(PErr::Syntax(i))
    }
}

/// List items from `i` to the closing bracket.
pub open spec fn p_list_items(t: Seq<TokenModel>, i: nat, c: ExprCtx, ev: bool) -> PRes<Seq<ValueModel>>
    decreases t.len() - i, 22nat,
{
    match p_expression(t, i, c, ev) {
        Ok((v, j)) => if i < j <= t.len() {
            if punct_at(t, j, ']') {
                Ok((seq![v], j + 1))
            } else if punct_at(t, j, ',') {
                if punct_at(t, j + 1, ']') {
                    Ok((seq![v], j + 2))
                } else {
                    match p_list_items(t, j + 1, c, ev) {
                        Ok((rest, k)) => Ok((seq![v] + rest, k)),
                        Err(e) => Err(e),
                    }
                }
            } else {
                Err(PErr::Syntax(j))
            }
        } else {
            Err(PErr::Syntax(i))
        },
        Err(e) => Err(e),
    }
}

/// `IDENT "=" expression` at `i`: the name and the value.
pub open spec fn p_attribute(t: Seq<TokenModel>, i: nat, c: ExprCtx, ev: bool) -> PRes<(Seq<char>, ValueModel)>
    decreases t.len() - i, 13nat,
{
    if ident_at(t, i) && punct_at(t, i + 1, '=') {
        match p_expression(t, i + 2, c, ev) {
            Ok((v, j)) => Ok(((t[i as int].text, v), j)),
            Err(e) => Err(e),
        }
    } else {
        Err(PErr::Syntax(i))
    }
}

/// Map entries from `i` to the closing brace, inserted into `acc`.
pub open spec fn p_map_entries(
    t: Seq<TokenModel>,
    i: nat,
    c: ExprCtx,
    ev: bool,
    acc: Seq<(Seq<char>, ValueModel)>,
) -> PRes<Seq<(Seq<char>, ValueModel)>>
    decreases t.len() - i, 23nat,
{
    match p_attribute(t, i, c, ev) {
        Ok(((k, v), j)) => if i < j <= t.len() {
            let acc2 = insert_entry(acc, k, v);
            if punct_at(t, j, '}') {
                Ok((acc2, j + 1))
            } else if punct_at(t, j, ',') {
                if punct_at(t, j + 1, '}') {
                    Ok((acc2, j + 2))
                } else {
                    p_map_entries(t, j + 1, c, ev, acc2)
                }
            } else {
                p_map_entries(t, j, c, ev, acc2)
            }
        } else {
            Err(PErr::Syntax(i))
        },
        Err(e) => Err(e),
    }
}

// ---------------------------------------------------------------------------
// Blocks
// ---------------------------------------------------------------------------

/// What a block's contents have gathered so far: its attributes, and the
/// nested blocks grouped by name in the order their names first appear.
pub struct BlockAcc {
    pub attrs: Seq<(Seq<char>, ValueModel)>,
    pub nested: Seq<(Seq<char>, Seq<ValueModel>)>,
}

/// The nested-block groups with one more block under `name`.
pub open spec fn add_nested(
    g: Seq<(Seq<char>, Seq<ValueModel>)>,
    name: Seq<char>,
    b: ValueModel,
) -> Seq<(Seq<char>, Seq<ValueModel>)>
    decreases g.len(),
{
    if g.len() == 0 {
        seq![(name, seq![b])]
    } else if g[0].0 == name {
        g.update(0, (name, g[0].1.push(b)))
    } else {
        seq![g[0]] + add_nested(g.drop_first(), name, b)
    }
}

/// The attributes after each group of nested blocks is stored as a list under its name.
pub open spec fn with_nested(
    attrs: Seq<(Seq<char>, ValueModel)>,
    g: Seq<(Seq<char>, Seq<ValueModel>)>,
) -> Seq<(Seq<char>, ValueModel)>
    decreases g.len(),
{
    if g.len() == 0 {
        attrs
    } else {
        with_nested(insert_entry(attrs, g[0].0, ValueModel::List(g[0].1)), g.drop_first())
    }
}

/// `IDENT "{" attribute* "}"` at `i`: the name, the attributes as a map,
/// and the position after the closing brace.
pub open spec fn p_nested(t: Seq<TokenModel>, i: nat, c: ExprCtx, ev: bool) -> PRes<(Seq<char>, ValueModel)>
    decreases t.len() - i, 11nat,
{
    if ident_at(t, i) && punct_at(t, i + 1, '{') {
        match p_attrs(t, i + 2, c, ev, seq![]) {
            Ok((m, j)) => Ok(((t[i as int].text, ValueModel::Dict(m)), j)),
            Err(e) => Err(e),
        }
    } else {
        Err(PErr::Syntax(i))
    }
}

/// `attribute* "}"` from `i`: the attributes inserted into `acc`, and the
/// position after the closing brace.
pub open spec fn p_attrs(
    t: Seq<TokenModel>,
    i: nat,
    c: ExprCtx,
    ev: bool,
    acc: Seq<(Seq<char>, ValueModel)>,
) -> PRes<Seq<(Seq<char>, ValueModel)>>
    decreases t.len() - i, 24nat,
{
    match p_attribute(t, i, c, ev) {
        Ok(((k, v), j)) => if i < j <= t.len() {
            p_attrs(t, j, c, ev, insert_entry(acc, k, v))
        } else {
            Err(PErr::Syntax(i))
        },
        Err(PErr::Semantic(e)) => Err(PErr::Semantic(e)),
        Err(PErr::Syntax(_)) => if punct_at(t, i, '}') {
            Ok((acc, i + 1))
        } else {
            Err(PErr::Syntax(i))
        },
    }
}

/// `block_content* "}"` from `i`: the attributes, with nested blocks stored
/// as lists under their names, and the position after the closing brace.
pub open spec fn p_block(t: Seq<TokenModel>, i: nat, c: ExprCtx, ev: bool) -> PRes<Seq<(Seq<char>, ValueModel)>>
    decreases t.len() - i, 27nat,
{
    p_block_items(t, i, c, ev, BlockAcc { attrs: seq![], nested: seq![] })
}

/// Block contents from `i` gathered into `acc`.
pub open spec fn p_block_items(
    t: Seq<TokenModel>,
    i: nat,
    c: ExprCtx,
    ev: bool,
    acc: BlockAcc,
) -> PRes<Seq<(Seq<char>, ValueModel)>>
    decreases t.len() - i, 26nat,
{
    match p_attribute(t, i, c, ev) {
        Ok(((k, v), j)) => if i < j <= t.len() {
            p_block_items(t, j, c, ev, BlockAcc { attrs: insert_entry(acc.attrs, k, v), ..acc })
        } else {
            Err(PErr::Syntax(i))
        },
        Err(PErr::Semantic(e)) => Err(PErr::Semantic(e)),
        Err(PErr::Syntax(_)) => match p_nested(t, i, c, ev) {
            Ok(((k, b), j)) => if i < j <= t.len() {
                p_block_items(t, j, c, ev, BlockAcc { nested: add_nested(acc.nested, k, b), ..acc })
            } else {
                Err(PErr::Syntax(i))
            },
            Err(PErr::Semantic(e)) => Err(PErr::Semantic(e)),
            Err(PErr::Syntax(_)) => if punct_at(t, i, '}') {
                Ok((with_nested(acc.attrs, acc.nested), i + 1))
            } else {
                Err(PErr::Syntax(i))
            },
        },
    }
}


// ---------------------------------------------------------------------------
// Types
// ---------------------------------------------------------------------------

/// The mathematical content of a type expression.
pub enum TypeModel {
    String,
    Bool,
    Int,
    Cidr,
    List(Box<TypeModel>),
    Dict(Box<TypeModel>),
    Ref(Seq<char>, Seq<char>),
}

/// The provider and resource type of a dotted path: the first piece, and
/// the rest joined by dots; `None` when the path has a single piece.
pub open spec fn path_parts(s: Seq<char>) -> Option<(Seq<char>, Seq<char>)> {
    let parts = split(s, '.');
    if parts.len() >= 2 {
        Some((parts[0], join(parts.skip(1), seq!['.'])))
    } else {
        None
    }
}

/// `type` at `i`.
pub open spec fn p_type(t: Seq<TokenModel>, i: nat, ev: bool) -> PRes<TypeModel>
    decreases t.len() - i,
{
    if (keyword_at(t, i, "list"@) || keyword_at(t, i, "map"@)) && punct_at(t, i + 1, '(') {
        match p_type(t, i + 2, ev) {
            Ok((inner, j)) => if i + 2 < j <= t.len() && punct_at(t, j, ')') {
                if keyword_at(t, i, "list"@) {
                    Ok((TypeModel::List(Box::new(inner)), j + 1))
                } else {
                    Ok((TypeModel::Dict(Box::new(inner)), j + 1))
                }
            } else {
                Err(PErr::Syntax(i))
            },
            Err(PErr::Semantic(e)) => Err(PErr::Semantic(e)),
            Err(PErr::Syntax(_)) => Err(PErr::Syntax(i)),
        }
    } else if keyword_at(t, i, "ref"@) && punct_at(t, i + 1, '(') && word_at(t, i + 2) && punct_at(
        t,
        i + 3,
        ')',
    ) {
        let text = t[i + 2int].text;
        match path_parts(text) {
            Some((p, r)) => Ok((TypeModel::Ref(p, r), i + 4)),
            None => if ev {
                Err(
                    PErr::Semantic(
                        ErrModel::InvalidResourceType("Invalid resource type path: "@ + text),
                    ),
                )
            } else {
                Ok((TypeModel::String, i + 4))
            },
        }
    } else if keyword_at(t, i, "string"@) {
        Ok((TypeModel::String, i + 1))
    } else if keyword_at(t, i, "bool"@) {
        Ok((TypeModel::Bool, i + 1))
    } else if keyword_at(t, i, "int"@) {
        Ok((TypeModel::Int, i + 1))
    } else if keyword_at(t, i, "cidr"@) {
        Ok((TypeModel::Cidr, i + 1))
    } else {
        Err(PErr::Syntax(i))
    }
}

/// A parameter of an `input` or `output` block: name, type and optional value.
pub type ParamModel = (Seq<char>, TypeModel, Option<ValueModel>);

/// `IDENT ":" type ("=" expression)?` at `i`.
pub open spec fn p_param(t: Seq<TokenModel>, i: nat, c: ExprCtx, ev: bool) -> PRes<ParamModel> {
    if ident_at(t, i) && punct_at(t, i + 1, ':') {
        match p_type(t, i + 2, ev) {
            Ok((ty, j)) => if punct_at(t, j, '=') {
                match p_expression(t, j + 1, c, ev) {
                    Ok((v, k)) => Ok(((t[i as int].text, ty, Some(v)), k)),
                    Err(e) => Err(e),
                }
            } else {
                Ok(((t[i as int].text, ty, None), j))
            },
            Err(e) => Err(e),
        }
    } else {
        Err(PErr::Syntax(i))
    }
}

/// `param* "}"` from `i`.
pub open spec fn p_params(t: Seq<TokenModel>, i: nat, c: ExprCtx, ev: bool) -> PRes<Seq<ParamModel>>
    decreases t.len() - i,
{
    match p_param(t, i, c, ev) {
        Ok((p, j)) => if i < j <= t.len() {
            match p_params(t, j, c, ev) {
                Ok((rest, k)) => Ok((seq![p] + rest, k)),
                Err(e) => Err(e),
            }
        } else {
            Err(PErr::Syntax(i))
        },
        Err(PErr::Semantic(e)) => Err(PErr::Semantic(e)),
        Err(PErr::Syntax(_)) => if punct_at(t, i, '}') {
            Ok((seq![], i + 1))
        } else {
            Err(PErr::Syntax(i))
        },
    }
}

// ---------------------------------------------------------------------------
// Statements
// ---------------------------------------------------------------------------

pub type Entries = Seq<(Seq<char>, ValueModel)>;

/// A resource: its type and name, and its attributes.
pub type ResModel = ((Seq<char>, Seq<char>), Entries);

/// What a statement declares.
pub enum StmtModel {
    Import(Seq<char>, Seq<char>),
    Backend(Seq<char>, Entries),
    Provider(Seq<char>, Entries),
    Input(Seq<ParamModel>),
    Output(Seq<ParamModel>),
    Let(Seq<char>, ValueModel, Option<ResModel>),
    ModuleCall(Seq<char>, Entries),
    Anonymous(ResModel),
}

/// The resource a block declares under a dotted type, with its name taken
/// from the `name` attribute and the provider and full type recorded; the
/// binding name too when the resource is bound by `let`.
pub open spec fn make_resource(
    type_text: Seq<char>,
    attrs: Entries,
    binding: Option<Seq<char>>,
) -> Result<ResModel, ErrModel> {
    let parts = split(type_text, '.');
    if parts.len() < 2 {
        Err(ErrModel::InvalidResourceType(type_text))
    } else {
        match lookup(attrs, "name"@) {
            Some(ValueModel::Str(name)) => {
                let a1 = insert_entry(attrs, "_provider"@, ValueModel::Str(parts[0]));
                let a2 = insert_entry(a1, "_type"@, ValueModel::Str(type_text));
                let a3 = match binding {
                    Some(b) => insert_entry(a2, "_binding"@, ValueModel::Str(b)),
                    None => a2,
                };
                Ok(((join(parts.skip(1), seq!['.']), name), a3))
            },
            _ => Err(
                ErrModel::InvalidExpression {
                    line: 0,
                    message: match binding {
                        Some(b) => "Resource bound to '"@ + b + "' must have a 'name' attribute"@,
                        None => "Anonymous resource must have a 'name' attribute"@,
                    },
                },
            ),
        }
    }
}

/// Whether a resource expression starts at `i`: a dotted type and a block.
pub open spec fn resource_at(t: Seq<TokenModel>, i: nat, c: ExprCtx) -> bool {
    dotted_at(t, i) && punct_at(t, i + 1, '{') && p_block(t, i + 2, c, false) is Ok
}

/// Whether an environment read starts at `i`.
pub open spec fn env_at(t: Seq<TokenModel>, i: nat) -> bool {
    keyword_at(t, i, "env"@) && punct_at(t, i + 1, '(') && str_at(t, i + 2) && punct_at(t, i + 3, ')')
}

/// The expression of a `let`: a resource expression declares a resource
/// (and the binding stands for `${name}`); any other expression is a value.
pub open spec fn p_let_value(t: Seq<TokenModel>, i: nat, c: ExprCtx, ev: bool, name: Seq<char>) -> PRes<(ValueModel, Option<ResModel>)> {
    if !env_at(t, i) && resource_at(t, i, c) {
        match p_block(t, i + 2, c, ev) {
            Ok((attrs, j)) => {
                let k = if i + 2 < j <= t.len() {
                    p_calls(t, j)
                } else {
                    j
                };
                if ev {
                    match make_resource(t[i as int].text, attrs, Some(name)) {
                        Ok(r) => Ok(((ValueModel::Str("${"@ + name + "}"@), Some(r)), k)),
                        Err(e) => Err(PErr::Semantic(e)),
                    }
                } else {
                    Ok(((unchecked(), None), k))
                }
            },
            Err(e) => Err(e),
        }
    } else {
        match p_expression(t, i, c, ev) {
            Ok((v, j)) => Ok(((v, None), j)),
            Err(e) => Err(e),
        }
    }
}

/// A block `KEYWORD IDENT "{" attribute* "}"` at `i`: the name and attributes.
pub open spec fn p_named_block(t: Seq<TokenModel>, i: nat, c: ExprCtx, ev: bool, kw: Seq<char>) -> PRes<(Seq<char>, Entries)> {
    if keyword_at(t, i, kw) && ident_at(t, i + 1) && punct_at(t, i + 2, '{') {
        match p_attrs(t, i + 3, c, ev, seq![]) {
            Ok((m, j)) => Ok(((t[i + 1int].text, m), j)),
            Err(e) => Err(e),
        }
    } else {
        Err(PErr::Syntax(i))
    }
}

/// A context that sees only the environment.
pub open spec fn env_only(c: ExprCtx) -> ExprCtx {
    ExprCtx { vars: seq![], bindings: seq![], in_module: false, env: c.env }
}

/// The statement alternatives from `k` on, tried in order.
#[verifier::opaque]
pub open spec fn p_statement_from(t: Seq<TokenModel>, i: nat, c: ExprCtx, ev: bool, k: nat) -> PRes<StmtModel>
    decreases 8 - k,
{
    if k >= 8 {
        Err(PErr::Syntax(i))
    } else {
        let r: PRes<StmtModel> = if k == 0 {
            if keyword_at(t, i, "import"@) && str_at(t, i + 1) && keyword_at(t, i + 2, "as"@) && ident_at(t, i + 3) {
                Ok((StmtModel::Import(unescape(t[i + 1int].text), t[i + 3int].text), i + 4))
            } else {
                Err(PErr::Syntax(i))
            }
        } else if k == 1 {
            match p_named_block(t, i, c, ev, "backend"@) {
                Ok(((n, m), j)) => Ok((StmtModel::Backend(n, m), j)),
                Err(e) => Err(e),
            }
        } else if k == 2 {
            match p_named_block(t, i, c, ev, "provider"@) {
                Ok(((n, m), j)) => Ok((StmtModel::Provider(n, m), j)),
                Err(e) => Err(e),
            }
        } else if k == 3 {
            if keyword_at(t, i, "input"@) && punct_at(t, i + 1, '{') {
                match p_params(t, i + 2, env_only(c), ev) {
                    Ok((ps, j)) => Ok((StmtModel::Input(ps), j)),
                    Err(e) => Err(e),
                }
            } else {
                Err(PErr::Syntax(i))
            }
        } else if k == 4 {
            if keyword_at(t, i, "output"@) && punct_at(t, i + 1, '{') {
                match p_params(t, i + 2, c, ev) {
                    Ok((ps, j)) => Ok((StmtModel::Output(ps), j)),
                    Err(e) => Err(e),
                }
            } else {
                Err(PErr::Syntax(i))
            }
        } else if k == 5 {
            if keyword_at(t, i, "let"@) && ident_at(t, i + 1) && punct_at(t, i + 2, '=') {
                let name = t[i + 1int].text;
                match p_let_value(t, i + 3, c, ev, name) {
                    Ok(((v, res), j)) => Ok((StmtModel::Let(name, v, res), j)),
                    Err(e) => Err(e),
                }
            } else {
                Err(PErr::Syntax(i))
            }
        } else if k == 6 {
            if ident_at(t, i) && punct_at(t, i + 1, '{') {
                match p_attrs(t, i + 2, c, ev, seq![]) {
                    Ok((m, j)) => Ok((StmtModel::ModuleCall(t[i as int].text, m), j)),
                    Err(e) => Err(e),
                }
            } else {
                Err(PErr::Syntax(i))
            }
        } else {
            if dotted_at(t, i) && punct_at(t, i + 1, '{') {
                match p_block(t, i + 2, c, ev) {
                    Ok((attrs, j)) => if ev {
                        match make_resource(t[i as int].text, attrs, None) {
                            Ok(r) => Ok((StmtModel::Anonymous(r), j)),
                            Err(e) => Err(PErr::Semantic(e)),
                        }
                    } else {
                        Ok((StmtModel::Anonymous((((seq![], seq![])), seq![])), j))
                    },
                    Err(e) => Err(e),
                }
            } else {
                Err(PErr::Syntax(i))
            }
        };
        match r {
            Ok(x) => Ok(x),
            Err(PErr::Semantic(e)) => Err(PErr::Semantic(e)),
            Err(PErr::Syntax(_)) => p_statement_from(t, i, c, ev, k + 1),
        }
    }
}

/// What a file has declared so far, and what its expressions can see.
pub struct FileModel {
    pub ctx: ExprCtx,
    pub providers: Seq<(Seq<char>, Entries)>,
    pub resources: Seq<ResModel>,
    pub imports: Seq<(Seq<char>, Seq<char>)>,
    pub module_calls: Seq<(Seq<char>, Option<Seq<char>>, Entries)>,
    pub inputs: Seq<ParamModel>,
    pub outputs: Seq<ParamModel>,
    pub backend: Option<(Seq<char>, Entries)>,
}

/// Nothing declared yet.
pub open spec fn empty_file(env: Seq<(Seq<char>, Seq<char>)>) -> FileModel {
    FileModel {
        ctx: ExprCtx { vars: seq![], bindings: seq![], in_module: false, env },
        providers: seq![],
        resources: seq![],
        imports: seq![],
        module_calls: seq![],
        inputs: seq![],
        outputs: seq![],
        backend: None,
    }
}

/// The file after one more statement.
pub open spec fn apply_stmt(f: FileModel, s: StmtModel) -> FileModel {
    match s {
        StmtModel::Import(path, alias) => FileModel { imports: f.imports.push((path, alias)), ..f },
        StmtModel::Backend(n, m) => FileModel { backend: Some((n, m)), ..f },
        StmtModel::Provider(n, m) => FileModel { providers: f.providers.push((n, m)), ..f },
        StmtModel::Input(ps) => FileModel {
            inputs: f.inputs + ps,
            ctx: ExprCtx { in_module: true, ..f.ctx },
            ..f
        },
        StmtModel::Output(ps) => FileModel { outputs: f.outputs + ps, ..f },
        StmtModel::Let(name, v, res) => match res {
            Some(r) => FileModel {
                ctx: ExprCtx {
                    vars: insert_entry(f.ctx.vars, name, v),
                    bindings: f.ctx.bindings.push(name),
                    ..f.ctx
                },
                resources: f.resources.push(r),
                ..f
            },
            None => FileModel {
                ctx: ExprCtx { vars: insert_entry(f.ctx.vars, name, v), ..f.ctx },
                ..f
            },
        },
        StmtModel::ModuleCall(n, m) => FileModel {
            module_calls: f.module_calls.push((n, None, m)),
            ..f
        },
        StmtModel::Anonymous(r) => FileModel { resources: f.resources.push(r), ..f },
    }
}

/// The statements from `i` to the end of the tokens.
#[verifier::opaque]
pub open spec fn p_file(t: Seq<TokenModel>, i: nat, f: FileModel, ev: bool) -> Result<FileModel, PErr>
    decreases t.len() - i,
{
    if i >= t.len() {
        Ok(f)
    } else {
        match p_statement_from(t, i, f.ctx, ev, 0) {
            Ok((s, j)) => if i < j <= t.len() {
                p_file(t, j, apply_stmt(f, s), ev)
            } else {
                Err(PErr::Syntax(i))
            },
            Err(e) => Err(e),
        }
    }
}


// ---------------------------------------------------------------------------
// Files
// ---------------------------------------------------------------------------

/// The line and column (both counted from 1) of position `p` of `s`.
pub open spec fn line_col(s: Seq<char>, p: nat) -> (nat, nat)
    decreases p,
{
    if p == 0 {
        (1, 1)
    } else {
        let (l, c) = line_col(s, (p - 1) as nat);
        if (p - 1) < s.len() && s[p - 1] == '\n' {
            (l + 1, 1)
        } else {
            (l, c + 1)
        }
    }
}

/// The syntax error at character position `p`.
pub open spec fn syntax_error_at(s: Seq<char>, p: nat) -> ErrModel {
    ErrModel::Syntax { line: line_col(s, p).0, column: line_col(s, p).1 }
}

/// The character position of token `k`, or the end of the text past the last token.
pub open spec fn token_pos(s: Seq<char>, t: Seq<TokenModel>, k: nat) -> nat {
    if k < t.len() {
        t[k as int].start
    } else {
        s.len()
    }
}

/// The outcome of parsing tokens `t` of text `s`: the syntax is checked
/// first, over the whole file, and only then is the file evaluated.
pub open spec fn parse_tokens(s: Seq<char>, t: Seq<TokenModel>, env: Seq<(Seq<char>, Seq<char>)>) -> Result<FileModel, ErrModel> {
    match p_file(t, 0, empty_file(env), false) {
        Err(PErr::Syntax(k)) => Err(syntax_error_at(s, token_pos(s, t, k))),
        Err(PErr::Semantic(e)) => Err(e),
        Ok(_) => match p_file(t, 0, empty_file(env), true) {
            Ok(f) => Ok(f),
            Err(PErr::Syntax(k)) => Err(syntax_error_at(s, token_pos(s, t, k))),
            Err(PErr::Semantic(e)) => Err(e),
        },
    }
}

/// The outcome of parsing a text with the given environment variables.
pub open spec fn parse_text(s: Seq<char>, env: Seq<(Seq<char>, Seq<char>)>) -> Result<FileModel, ErrModel> {
    match crate::parser::lexer::lex(s) {
        Err(p) => Err(syntax_error_at(s, p)),
        Ok(t) => parse_tokens(s, t, env),
    }
}

/// Whether the number literals of a text fit in an `i64` (when it lexes).
pub open spec fn text_numbers_fit(s: Seq<char>) -> bool {
    match crate::parser::lexer::lex(s) {
        Ok(t) => numbers_fit(t),
        Err(_) => true,
    }
}

} // verus!
