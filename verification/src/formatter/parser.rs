//! The grammar of `.crn` files as the formatter reads them: a file is a
//! sequence of statements with whitespace, newlines and comments kept as
//! trivia, so that a concrete syntax tree can be built.
//!
//! The text is first cut into lexemes (trivia, words, strings, numbers and
//! punctuation); the parser then builds nodes from the lexemes. Words that
//! hold a dot (`aws.s3.bucket`) are namespaced identifiers.

use vstd::prelude::*;

use crate::formatter::cst::{Cst, ChildModel, CstChild, CstNode, NodeKind, NodeModel, Span, Token, Trivia, TriviaModel, children_view, lemma_node_children};
use crate::parser::lexer::{comment_at, line_end, next_token, scan_line, token_at, TokenKind};
use crate::text::{str_contains_char, byte_len, byte_offsets, chars_of, has_char, push_str, slice_chars, str_eq, string_of, usize_text, nat_digits, push_chars};

verus! {

/// The kinds of lexeme.
#[derive(Debug, Clone, Copy, PartialEq, Eq, Structural)]
pub enum LexKind {
    /// A run of spaces, tabs and carriage returns
    Ws,
    /// A line feed
    Newline,
    /// `#` or `//` up to the end of the line
    Comment,
    /// An identifier, or identifiers joined by dots
    Word,
    /// A string literal with its quotes
    Str,
    /// An integer literal
    Num,
    /// One of `{ } [ ] ( ) = , :` or `|>`
    Punct,
}

/// A lexeme: its kind, its text, the index of its first character, and the
/// byte offsets of its start and end.
#[derive(Debug)]
pub struct Lexeme {
    pub kind: LexKind,
    pub text: String,
    pub start: usize,
    pub bstart: usize,
    pub bend: usize,
}

/// The mathematical content of a lexeme.
pub struct LexModel {
    pub kind: LexKind,
    pub start: nat,
    pub text: Seq<char>,
    pub bstart: nat,
    pub bend: nat,
}

impl View for Lexeme {
    type V = LexModel;

    open spec fn view(&self) -> LexModel {
        LexModel { kind: self.kind, start: self.start as nat, text: self.text@, bstart: self.bstart as nat, bend: self.bend as nat }
    }
}

pub open spec fn lexemes_view(v: Seq<Lexeme>) -> Seq<LexModel> {
    Seq::new(v.len(), |i: int| v[i]@)
}

pub open spec fn is_blank(c: char) -> bool {
    c == ' ' || c == '\t' || c == '\r'
}

/// The end of the run of blanks that starts at `i`.
pub open spec fn blank_end(s: Seq<char>, i: nat) -> nat
    decreases s.len() - i,
{
    if i < s.len() && is_blank(s[i as int]) {
        blank_end(s, i + 1)
    } else {
        i
    }
}

/// The kind and end of the lexeme that starts at `i`, if one does.
pub open spec fn lexeme_at(s: Seq<char>, i: nat) -> Option<(LexKind, nat)> {
    if i >= s.len() {
        None
    } else if s[i as int] == '\n' {
        Some((LexKind::Newline, i + 1))
    } else if is_blank(s[i as int]) {
        Some((LexKind::Ws, blank_end(s, i)))
    } else if comment_at(s, i) {
        Some((LexKind::Comment, line_end(s, i)))
    } else {
        match token_at(s, i) {
            Some((t, e)) => Some(
                (
                    match t.kind {
                        TokenKind::Word => LexKind::Word,
                        TokenKind::Str => LexKind::Str,
                        TokenKind::Num => LexKind::Num,
                        TokenKind::Punct => LexKind::Punct,
                    },
                    e,
                ),
            ),
            None => None,
        }
    }
}

/// The lexemes of `s` from position `i` on, or the position of the first
/// character that starts no lexeme.
pub open spec fn fmt_lex_from(s: Seq<char>, i: nat) -> Result<Seq<LexModel>, nat>
    decreases s.len() - i,
{
    if i >= s.len() {
        Ok(Seq::empty())
    } else {
        match lexeme_at(s, i) {
            Some((k, e)) => if i < e <= s.len() {
                match fmt_lex_from(s, e) {
                    Ok(rest) => Ok(
                        seq![
                            LexModel {
                                kind: k,
                                start: i,
                                text: s.subrange(i as int, e as int),
                                bstart: byte_len(s.take(i as int)),
                                bend: byte_len(s.take(e as int)),
                            },
                        ] + rest,
                    ),
                    Err(p) => Err(p),
                }
            } else {
                Err(i)
            },
            None => Err(i),
        }
    }
}

fn scan_blank(s: &[char], i: usize) -> (e: usize)
    requires
        i <= s.len(),
    ensures
        e == blank_end(s@, i as nat),
        i <= e <= s.len(),
{
    let mut j = i;
    while j < s.len() && (s[j] == ' ' || s[j] == '\t' || s[j] == '\r')
        invariant
            i <= j <= s.len(),
            blank_end(s@, j as nat) == blank_end(s@, i as nat),
        decreases s.len() - j,
    {
        j += 1;
    }
    j
}

fn next_lexeme(s: &[char], i: usize) -> (r: Option<(LexKind, usize)>)
    requires
        i < s.len(),
    ensures
        match r {
            Some((k, e)) => lexeme_at(s@, i as nat) == Some((k, e as nat)),
            None => lexeme_at(s@, i as nat) is None,
        },
{
    let c = s[i];
    if c == '\n' {
        Some((LexKind::Newline, i + 1))
    } else if c == ' ' || c == '\t' || c == '\r' {
        Some((LexKind::Ws, scan_blank(s, i)))
    } else if c == '#' || (c == '/' && i + 1 < s.len() && s[i + 1] == '/') {
        Some((LexKind::Comment, scan_line(s, i)))
    } else {
        match next_token(s, i) {
            Some((t, e)) => {
                let k = match t.kind {
                    TokenKind::Word => LexKind::Word,
                    TokenKind::Str => LexKind::Str,
                    TokenKind::Num => LexKind::Num,
                    TokenKind::Punct => LexKind::Punct,
                };
                Some((k, e))
            },
            None => None,
        }
    }
}

/// Cuts a text into lexemes; on failure, the position of the first
/// character that starts no lexeme.
pub fn fmt_lex(input: &str) -> (r: Result<Vec<Lexeme>, usize>)
    requires
        byte_len(input@) <= usize::MAX,
    ensures
        match fmt_lex_from(input@, 0) {
            Ok(ls) => r matches Ok(v) && lexemes_view(v@) == ls,
            Err(p) => r == Err::<Vec<Lexeme>, usize>(p as usize),
        },
{
    let s = chars_of(input);
    let n = s.len();
    let offs = byte_offsets(s.as_slice());
    let mut out: Vec<Lexeme> = Vec::new();
    let mut i: usize = 0;
    while i < n
        invariant
            i <= n,
            n == s.len(),
            s@ == input@,
            offs.len() == n + 1,
            forall|k: int| 0 <= k <= n ==> #[trigger] offs@[k] == byte_len(s@.take(k)),
            fmt_lex_from(s@, 0) == (match fmt_lex_from(s@, i as nat) {
                Ok(rest) => Ok(lexemes_view(out@) + rest),
                Err(p) => Err(p),
            }),
        decreases n - i,
    {
        match next_lexeme(s.as_slice(), i) {
            Some((k, e)) => {
                if e > i && e <= n {
                    let text = string_of(slice_chars(s.as_slice(), i, e).as_slice());
                    let lx = Lexeme { kind: k, text, start: i, bstart: offs[i], bend: offs[e] };
                    let ghost before = lexemes_view(out@);
                    let ghost lm = lx@;
                    out.push(lx);
                    proof {
                        assert(offs@[i as int] == byte_len(s@.take(i as int)));
                        assert(offs@[e as int] == byte_len(s@.take(e as int)));
                        assert(lm.text == s@.subrange(i as int, e as int));
                        assert(fmt_lex_from(s@, i as nat) == (match fmt_lex_from(s@, e as nat) {
                            Ok(rest) => Ok(seq![lm] + rest),
                            Err(p) => Err::<Seq<LexModel>, nat>(p),
                        }));
                        assert(lexemes_view(out@) =~= before.push(lm));
                        match fmt_lex_from(s@, e as nat) {
                            Ok(rest) => {
                                assert(before + (seq![lm] + rest) =~= before.push(lm) + rest);
                            },
                            Err(_) => {},
                        }
                    }
                    i = e;
                } else {
                    return Err(i);
                }
            },
            None => {
                return Err(i);
            },
        }
    }
    proof {
        assert(lexemes_view(out@) + Seq::<LexModel>::empty() =~= lexemes_view(out@));
    }
    Ok(out)
}


/// Whether a lexeme is trivia.
pub open spec fn is_triv(l: LexModel) -> bool {
    l.kind == LexKind::Ws || l.kind == LexKind::Newline || l.kind == LexKind::Comment
}

/// The first lexeme from `k` on that is not trivia.
pub open spec fn skip_triv(ls: Seq<LexModel>, k: nat) -> nat
    decreases ls.len() - k,
{
    if k < ls.len() && is_triv(ls[k as int]) {
        skip_triv(ls, k + 1)
    } else {
        k
    }
}

pub proof fn lemma_skip_triv(ls: Seq<LexModel>, k: nat)
    ensures
        k <= skip_triv(ls, k),
        k <= ls.len() ==> skip_triv(ls, k) <= ls.len(),
    decreases ls.len() - k,
{
    if k < ls.len() && is_triv(ls[k as int]) {
        lemma_skip_triv(ls, k + 1);
    }
}

/// The trivia child of a trivia lexeme.
pub open spec fn triv_child(l: LexModel) -> ChildModel {
    if l.kind == LexKind::Newline {
        ChildModel::Trivia(TriviaModel::Newline)
    } else if l.kind == LexKind::Comment {
        ChildModel::Trivia(TriviaModel::LineComment(l.text))
    } else {
        ChildModel::Trivia(TriviaModel::Whitespace(l.text))
    }
}

/// The trivia children of the lexemes from `a` up to `b`.
pub open spec fn triv_children(ls: Seq<LexModel>, a: nat, b: nat) -> Seq<ChildModel> {
    Seq::new((b - a) as nat, |i: int| triv_child(ls[a + i]))
}

/// The token child of a lexeme.
pub open spec fn tok_child(l: LexModel) -> ChildModel {
    ChildModel::Token(l.text, Span { start: l.bstart as usize, end: l.bend as usize })
}

pub open spec fn is_punct_lex(l: LexModel, t: Seq<char>) -> bool {
    l.kind == LexKind::Punct && l.text == t
}

pub open spec fn is_word_lex(l: LexModel, t: Seq<char>) -> bool {
    l.kind == LexKind::Word && l.text == t
}

/// An identifier: a word without a dot.
pub open spec fn is_ident_lex(l: LexModel) -> bool {
    l.kind == LexKind::Word && !has_char(l.text, '.')
}

/// Whether the first lexeme from `k` on that is not trivia is the punctuation `t`.
pub open spec fn next_is(ls: Seq<LexModel>, k: nat, t: Seq<char>) -> bool {
    let j = skip_triv(ls, k);
    j < ls.len() && is_punct_lex(ls[j as int], t)
}

/// A node made of the lexemes from `a` up to `b`.
pub open spec fn mk_node(ls: Seq<LexModel>, kind: NodeKind, a: nat, b: nat, cs: Seq<ChildModel>) -> ChildModel {
    ChildModel::Node(
        NodeModel {
            kind,
            span: Span { start: ls[a as int].bstart as usize, end: ls[b - 1].bend as usize },
            children: cs,
        },
    )
}

/// An expression starting at lexeme `k`: a primary, then any number of
/// `|>` and function calls. The result is the child and the lexeme after it,
/// or the lexeme where the grammar failed.
pub open spec fn p_expr(ls: Seq<LexModel>, k: nat) -> Result<(ChildModel, nat), nat>
    decreases ls.len() - k, 4nat,
{
    match p_primary(ls, k) {
        Err(p) => Err(p),
        Ok((c, e)) => if k < e <= ls.len() {
            match p_pipe(ls, e) {
                Err(p) => Err(p),
                Ok((tail, e2)) => if tail.len() == 0 {
                    Ok((c, e))
                } else if e < e2 <= ls.len() {
                    Ok((mk_node(ls, NodeKind::PipeExpr, k, e2, seq![c] + tail), e2))
                } else {
                    Err(e)
                },
            }
        } else {
            Err(k)
        },
    }
}

/// The pipe steps from lexeme `k` on, and the lexeme after them.
pub open spec fn p_pipe(ls: Seq<LexModel>, k: nat) -> Result<(Seq<ChildModel>, nat), nat>
    decreases ls.len() - k, 6nat,
{
    proof {
        lemma_skip_triv(ls, k);
    }
    let j = skip_triv(ls, k);
    if j < ls.len() && is_punct_lex(ls[j as int], "|>"@) {
        proof {
            lemma_skip_triv(ls, j + 1);
        }
        let j2 = skip_triv(ls, j + 1);
        match p_call(ls, j2) {
            Err(p) => Err(p),
            Ok((fc, e)) => if j2 < e <= ls.len() {
                match p_pipe(ls, e) {
                    Err(p) => Err(p),
                    Ok((rest, e2)) => Ok(
                        (
                            triv_children(ls, k, j) + seq![tok_child(ls[j as int])] + triv_children(ls, j + 1, j2)
                                + seq![fc] + rest,
                            e2,
                        ),
                    ),
                }
            } else {
                Err(j2)
            },
        }
    } else {
        Ok((Seq::empty(), k))
    }
}

/// A primary expression at lexeme `k`.
pub open spec fn p_primary(ls: Seq<LexModel>, k: nat) -> Result<(ChildModel, nat), nat>
    decreases ls.len() - k, 3nat,
{
    if k >= ls.len() {
        Err(k)
    } else {
        let l = ls[k as int];
        if l.kind == LexKind::Word {
            if l.text == "env"@ && next_is(ls, k + 1, "("@) {
                p_env(ls, k)
            } else if has_char(l.text, '.') {
                if next_is(ls, k + 1, "{"@) {
                    p_resource_expr(ls, k)
                } else {
                    Ok((tok_child(l), k + 1))
                }
            } else if l.text != "true"@ && l.text != "false"@ && next_is(ls, k + 1, "("@) {
                p_call(ls, k)
            } else {
                Ok((tok_child(l), k + 1))
            }
        } else if l.kind == LexKind::Str || l.kind == LexKind::Num {
            Ok((tok_child(l), k + 1))
        } else if is_punct_lex(l, "["@) {
            p_list(ls, k)
        } else {
            Err(k)
        }
    }
}

/// A function call at lexeme `k`: a name, `(`, arguments and `)`.
pub open spec fn p_call(ls: Seq<LexModel>, k: nat) -> Result<(ChildModel, nat), nat>
    decreases ls.len() - k, 2nat,
{
    if k < ls.len() && is_ident_lex(ls[k as int]) {
        proof {
            lemma_skip_triv(ls, k + 1);
        }
        let j = skip_triv(ls, k + 1);
        if j < ls.len() && is_punct_lex(ls[j as int], "("@) {
            match p_items(ls, j + 1, ")"@) {
                Err(p) => Err(p),
                Ok((items, c)) => if j < c < ls.len() {
                    Ok(
                        (
                            mk_node(
                                ls,
                                NodeKind::FunctionCall,
                                k,
                                c + 1,
                                seq![tok_child(ls[k as int])] + triv_children(ls, k + 1, j) + seq![tok_child(ls[j as int])]
                                    + items + seq![tok_child(ls[c as int])],
                            ),
                            c + 1,
                        ),
                    )
                } else {
                    Err(c)
                },
            }
        } else {
            Err(j)
        }
    } else {
        Err(k)
    }
}

/// A list at lexeme `k`: `[`, items and `]`.
pub open spec fn p_list(ls: Seq<LexModel>, k: nat) -> Result<(ChildModel, nat), nat>
    decreases ls.len() - k, 2nat,
{
    if k < ls.len() && is_punct_lex(ls[k as int], "["@) {
        match p_items(ls, k + 1, "]"@) {
            Err(p) => Err(p),
            Ok((items, c)) => if k < c < ls.len() {
                Ok(
                    (
                        mk_node(
                            ls,
                            NodeKind::List,
                            k,
                            c + 1,
                            seq![tok_child(ls[k as int])] + items + seq![tok_child(ls[c as int])],
                        ),
                        c + 1,
                    ),
                )
            } else {
                Err(c)
            },
        }
    } else {
        Err(k)
    }
}

/// Expressions and commas from lexeme `k` up to the punctuation `close`;
/// the result ends at the position of `close`.
pub open spec fn p_items(ls: Seq<LexModel>, k: nat, close: Seq<char>) -> Result<(Seq<ChildModel>, nat), nat>
    decreases ls.len() - k, 6nat,
{
    proof {
        lemma_skip_triv(ls, k);
    }
    let j = skip_triv(ls, k);
    if j >= ls.len() {
        Err(j)
    } else if is_punct_lex(ls[j as int], close) {
        Ok((triv_children(ls, k, j), j))
    } else if is_punct_lex(ls[j as int], ","@) {
        match p_items(ls, j + 1, close) {
            Err(p) => Err(p),
            Ok((rest, c)) => Ok((triv_children(ls, k, j) + seq![tok_child(ls[j as int])] + rest, c)),
        }
    } else {
        match p_expr(ls, j) {
            Err(p) => Err(p),
            Ok((x, e)) => if j < e <= ls.len() {
                match p_items(ls, e, close) {
                    Err(p) => Err(p),
                    Ok((rest, c)) => Ok((triv_children(ls, k, j) + seq![x] + rest, c)),
                }
            } else {
                Err(j)
            },
        }
    }
}

/// `env("NAME")` at lexeme `k`.
pub open spec fn p_env(ls: Seq<LexModel>, k: nat) -> Result<(ChildModel, nat), nat>
    decreases ls.len() - k, 2nat,
{
    let j = skip_triv(ls, k + 1);
    let j2 = skip_triv(ls, j + 1);
    let j3 = skip_triv(ls, j2 + 1);
    if k < ls.len() && is_word_lex(ls[k as int], "env"@) && j < ls.len() && is_punct_lex(ls[j as int], "("@)
        && j2 < ls.len() && ls[j2 as int].kind == LexKind::Str && j3 < ls.len() && is_punct_lex(
        ls[j3 as int],
        ")"@,
    ) {
        Ok(
            (
                mk_node(
                    ls,
                    NodeKind::EnvVar,
                    k,
                    j3 + 1,
                    seq![tok_child(ls[k as int])] + triv_children(ls, k + 1, j) + seq![tok_child(ls[j as int])]
                        + triv_children(ls, j + 1, j2) + seq![tok_child(ls[j2 as int])] + triv_children(
                        ls,
                        j2 + 1,
                        j3,
                    ) + seq![tok_child(ls[j3 as int])],
                ),
                j3 + 1,
            ),
        )
    } else {
        Err(k)
    }
}

/// A resource expression at lexeme `k`: a namespaced type and a block.
pub open spec fn p_resource_expr(ls: Seq<LexModel>, k: nat) -> Result<(ChildModel, nat), nat>
    decreases ls.len() - k, 2nat,
{
    if k < ls.len() && ls[k as int].kind == LexKind::Word {
        proof {
            lemma_skip_triv(ls, k + 1);
        }
        let j = skip_triv(ls, k + 1);
        if j < ls.len() && is_punct_lex(ls[j as int], "{"@) {
            match p_block(ls, j + 1) {
                Err(p) => Err(p),
                Ok((items, c)) => if j < c < ls.len() {
                    Ok(
                        (
                            mk_node(
                                ls,
                                NodeKind::ResourceExpr,
                                k,
                                c + 1,
                                seq![tok_child(ls[k as int])] + triv_children(ls, k + 1, j) + seq![tok_child(ls[j as int])]
                                    + items + seq![tok_child(ls[c as int])],
                            ),
                            c + 1,
                        ),
                    )
                } else {
                    Err(c)
                },
            }
        } else {
            Err(j)
        }
    } else {
        Err(k)
    }
}

/// The contents of a block from lexeme `k` up to its `}`: attributes and
/// trivia; the result ends at the position of `}`.
pub open spec fn p_block(ls: Seq<LexModel>, k: nat) -> Result<(Seq<ChildModel>, nat), nat>
    decreases ls.len() - k, 6nat,
{
    proof {
        lemma_skip_triv(ls, k);
    }
    let j = skip_triv(ls, k);
    if j >= ls.len() {
        Err(j)
    } else if is_punct_lex(ls[j as int], "}"@) {
        Ok((triv_children(ls, k, j), j))
    } else {
        match p_attribute(ls, j) {
            Err(p) => Err(p),
            Ok((a, e)) => if j < e <= ls.len() {
                match p_block(ls, e) {
                    Err(p) => Err(p),
                    Ok((rest, c)) => Ok((triv_children(ls, k, j) + seq![a] + rest, c)),
                }
            } else {
                Err(j)
            },
        }
    }
}

/// An attribute at lexeme `k`: a name, `=` and an expression.
pub open spec fn p_attribute(ls: Seq<LexModel>, k: nat) -> Result<(ChildModel, nat), nat>
    decreases ls.len() - k, 5nat,
{
    if k < ls.len() && is_ident_lex(ls[k as int]) {
        proof {
            lemma_skip_triv(ls, k + 1);
        }
        let j = skip_triv(ls, k + 1);
        if j < ls.len() && is_punct_lex(ls[j as int], "="@) {
            proof {
                lemma_skip_triv(ls, j + 1);
            }
            let j2 = skip_triv(ls, j + 1);
            match p_expr(ls, j2) {
                Err(p) => Err(p),
                Ok((x, e)) => if j2 < e <= ls.len() {
                    Ok(
                        (
                            mk_node(
                                ls,
                                NodeKind::Attribute,
                                k,
                                e,
                                seq![tok_child(ls[k as int])] + triv_children(ls, k + 1, j) + seq![tok_child(ls[j as int])]
                                    + triv_children(ls, j + 1, j2) + seq![x],
                            ),
                            e,
                        ),
                    )
                } else {
                    Err(j2)
                },
            }
        } else {
            Err(j)
        }
    } else {
        Err(k)
    }
}


/// A block statement at lexeme `k` whose header takes the lexemes from `k`
/// up to `h` (exclusive, `h` being the `{`): the header's tokens and trivia,
/// then the block.
pub open spec fn p_block_stmt(ls: Seq<LexModel>, kind: NodeKind, k: nat, head: Seq<ChildModel>, h: nat) -> Result<(ChildModel, nat), nat>
{
    if k < h < ls.len() && is_punct_lex(ls[h as int], "{"@) {
        match p_block(ls, h + 1) {
            Err(p) => Err(p),
            Ok((items, c)) => if h < c < ls.len() {
                Ok((mk_node(ls, kind, k, c + 1, head + seq![tok_child(ls[h as int])] + items + seq![tok_child(ls[c as int])]), c + 1))
            } else {
                Err(c)
            },
        }
    } else {
        Err(h)
    }
}

/// A statement at lexeme `k`.
pub open spec fn p_statement(ls: Seq<LexModel>, k: nat) -> Result<(ChildModel, nat), nat>
{
    if k >= ls.len() || ls[k as int].kind != LexKind::Word {
        Err(k)
    } else {
        let l = ls[k as int];
        let j1 = skip_triv(ls, k + 1);
        if l.text == "import"@ {
            let j2 = skip_triv(ls, j1 + 1);
            let j3 = skip_triv(ls, j2 + 1);
            if j1 < ls.len() && ls[j1 as int].kind == LexKind::Str && j2 < ls.len() && is_word_lex(ls[j2 as int], "as"@)
                && j3 < ls.len() && is_ident_lex(ls[j3 as int]) {
                Ok(
                    (
                        mk_node(
                            ls,
                            NodeKind::ImportStmt,
                            k,
                            j3 + 1,
                            seq![tok_child(l)] + triv_children(ls, k + 1, j1) + seq![tok_child(ls[j1 as int])]
                                + triv_children(ls, j1 + 1, j2) + seq![tok_child(ls[j2 as int])] + triv_children(
                                ls,
                                j2 + 1,
                                j3,
                            ) + seq![tok_child(ls[j3 as int])],
                        ),
                        j3 + 1,
                    ),
                )
            } else {
                Err(k)
            }
        } else if l.text == "backend"@ || l.text == "provider"@ {
            if j1 < ls.len() && is_ident_lex(ls[j1 as int]) {
                let h = skip_triv(ls, j1 + 1);
                p_block_stmt(
                    ls,
                    if l.text == "backend"@ {
                        NodeKind::BackendBlock
                    } else {
                        NodeKind::ProviderBlock
                    },
                    k,
                    seq![tok_child(l)] + triv_children(ls, k + 1, j1) + seq![tok_child(ls[j1 as int])]
                        + triv_children(ls, j1 + 1, h),
                    h,
                )
            } else {
                Err(j1)
            }
        } else if l.text == "let"@ {
            let j2 = skip_triv(ls, j1 + 1);
            let j3 = skip_triv(ls, j2 + 1);
            if j1 < ls.len() && is_ident_lex(ls[j1 as int]) && j2 < ls.len() && is_punct_lex(ls[j2 as int], "="@) {
                match p_expr(ls, j3) {
                    Err(p) => Err(p),
                    Ok((x, e)) => if j3 < e <= ls.len() {
                        Ok(
                            (
                                mk_node(
                                    ls,
                                    NodeKind::LetBinding,
                                    k,
                                    e,
                                    seq![tok_child(l)] + triv_children(ls, k + 1, j1) + seq![tok_child(ls[j1 as int])]
                                        + triv_children(ls, j1 + 1, j2) + seq![tok_child(ls[j2 as int])]
                                        + triv_children(ls, j2 + 1, j3) + seq![x],
                                ),
                                e,
                            ),
                        )
                    } else {
                        Err(j3)
                    },
                }
            } else {
                Err(k)
            }
        } else {
            p_block_stmt(
                ls,
                if has_char(l.text, '.') {
                    NodeKind::AnonymousResource
                } else {
                    NodeKind::ModuleCall
                },
                k,
                seq![tok_child(l)] + triv_children(ls, k + 1, j1),
                j1,
            )
        }
    }
}

/// The top-level children from lexeme `k` on: trivia and statements.
pub open spec fn p_file(ls: Seq<LexModel>, k: nat) -> Result<Seq<ChildModel>, nat>
    decreases ls.len() - k, 7nat,
{
    if k >= ls.len() {
        Ok(Seq::empty())
    } else if is_triv(ls[k as int]) {
        match p_file(ls, k + 1) {
            Err(p) => Err(p),
            Ok(rest) => Ok(seq![triv_child(ls[k as int])] + rest),
        }
    } else {
        match p_statement(ls, k) {
            Err(p) => Err(p),
            Ok((x, e)) => if k < e <= ls.len() {
                match p_file(ls, e) {
                    Err(p) => Err(p),
                    Ok(rest) => Ok(seq![x] + rest),
                }
            } else {
                Err(k)
            },
        }
    }
}

/// The concrete syntax tree of a text, when the text follows the grammar.
pub open spec fn fmt_cst_opt(s: Seq<char>) -> Option<NodeModel> {
    match fmt_lex_from(s, 0) {
        Err(_) => None,
        Ok(ls) => match p_file(ls, 0) {
            Err(_) => None,
            Ok(cs) => Some(NodeModel { kind: NodeKind::File, span: Span { start: 0, end: byte_len(s) as usize }, children: cs }),
        },
    }
}

/// Whether a text follows the grammar.
pub open spec fn fmt_parses(s: Seq<char>) -> bool {
    fmt_cst_opt(s) is Some
}

/// The concrete syntax tree of a text that follows the grammar.
pub open spec fn fmt_cst(s: Seq<char>) -> NodeModel {
    fmt_cst_opt(s).unwrap()
}

/// The character position at which a text leaves the grammar.
pub open spec fn fmt_error_pos(s: Seq<char>) -> nat {
    match fmt_lex_from(s, 0) {
        Err(p) => p,
        Ok(ls) => match p_file(ls, 0) {
            Err(p) => if p < ls.len() {
                ls[p as int].start
            } else {
                s.len()
            },
            Ok(_) => 0,
        },
    }
}


/// The model of a parse result that is one child.
pub open spec fn child_res(r: Result<(CstChild, usize), usize>) -> Result<(ChildModel, nat), nat> {
    match r {
        Ok((c, e)) => Ok((c@, e as nat)),
        Err(p) => Err(p as nat),
    }
}

/// The model of a parse result that is a list of children.
pub open spec fn kids_res(r: Result<(Vec<CstChild>, usize), usize>) -> Result<(Seq<ChildModel>, nat), nat> {
    match r {
        Ok((v, e)) => Ok((children_view(v@), e as nat)),
        Err(p) => Err(p as nat),
    }
}

fn skip_trivia(lx: &Vec<Lexeme>, k: usize) -> (r: usize)
    requires
        k <= lx.len(),
    ensures
        r == skip_triv(lexemes_view(lx@), k as nat),
        k <= r <= lx.len(),
{
    let ghost ls = lexemes_view(lx@);
    let mut j = k;
    while j < lx.len() && (lx[j].kind == LexKind::Ws || lx[j].kind == LexKind::Newline || lx[j].kind == LexKind::Comment)
        invariant
            k <= j <= lx.len(),
            ls == lexemes_view(lx@),
            skip_triv(ls, j as nat) == skip_triv(ls, k as nat),
        decreases lx.len() - j,
    {
        j += 1;
    }
    j
}

fn tok_at(lx: &Vec<Lexeme>, k: usize) -> (r: CstChild)
    requires
        k < lx.len(),
    ensures
        r@ == tok_child(lexemes_view(lx@)[k as int]),
{
    CstChild::Token(Token { text: lx[k].text.clone(), span: Span { start: lx[k].bstart, end: lx[k].bend } })
}

fn triv_at(lx: &Vec<Lexeme>, k: usize) -> (r: CstChild)
    requires
        k < lx.len(),
    ensures
        r@ == triv_child(lexemes_view(lx@)[k as int]),
{
    if lx[k].kind == LexKind::Newline {
        CstChild::Trivia(Trivia::Newline)
    } else if lx[k].kind == LexKind::Comment {
        CstChild::Trivia(Trivia::LineComment(lx[k].text.clone()))
    } else {
        CstChild::Trivia(Trivia::Whitespace(lx[k].text.clone()))
    }
}

fn push_child(v: &mut Vec<CstChild>, c: CstChild)
    ensures
        children_view(final(v)@) == children_view(old(v)@) + seq![c@],
{
    let ghost cm = c@;
    v.push(c);
    proof {
        assert(children_view(v@) =~= children_view(old(v)@) + seq![cm]);
    }
}

fn append_children(v: &mut Vec<CstChild>, w: Vec<CstChild>)
    ensures
        children_view(final(v)@) == children_view(old(v)@) + children_view(w@),
{
    let mut w = w;
    let ghost wv = children_view(w@);
    v.append(&mut w);
    proof {
        assert(children_view(v@) =~= children_view(old(v)@) + wv);
    }
}

fn push_trivia(v: &mut Vec<CstChild>, lx: &Vec<Lexeme>, a: usize, b: usize)
    requires
        a <= b <= lx.len(),
    ensures
        children_view(final(v)@) == children_view(old(v)@) + triv_children(lexemes_view(lx@), a as nat, b as nat),
{
    let ghost ls = lexemes_view(lx@);
    let mut i = a;
    while i < b
        invariant
            a <= i <= b <= lx.len(),
            ls == lexemes_view(lx@),
            children_view(v@) == children_view(old(v)@) + triv_children(ls, a as nat, i as nat),
        decreases b - i,
    {
        let c = triv_at(lx, i);
        push_child(v, c);
        i += 1;
        proof {
            assert(triv_children(ls, a as nat, i as nat) =~= triv_children(ls, a as nat, (i - 1) as nat).push(
                triv_child(ls[i - 1]),
            ));
        }
    }
}

fn punct_at(lx: &Vec<Lexeme>, k: usize, t: &str) -> (r: bool)
    ensures
        r == (k < lx.len() && is_punct_lex(lexemes_view(lx@)[k as int], t@)),
{
    k < lx.len() && lx[k].kind == LexKind::Punct && str_eq(lx[k].text.as_str(), t)
}

fn word_at(lx: &Vec<Lexeme>, k: usize, t: &str) -> (r: bool)
    ensures
        r == (k < lx.len() && is_word_lex(lexemes_view(lx@)[k as int], t@)),
{
    k < lx.len() && lx[k].kind == LexKind::Word && str_eq(lx[k].text.as_str(), t)
}

fn ident_at(lx: &Vec<Lexeme>, k: usize) -> (r: bool)
    ensures
        r == (k < lx.len() && is_ident_lex(lexemes_view(lx@)[k as int])),
{
    k < lx.len() && lx[k].kind == LexKind::Word && !str_contains_char(lx[k].text.as_str(), '.')
}

fn make_node(lx: &Vec<Lexeme>, kind: NodeKind, a: usize, b: usize, cs: Vec<CstChild>) -> (r: CstChild)
    requires
        a < b <= lx.len(),
    ensures
        r@ == mk_node(lexemes_view(lx@), kind, a as nat, b as nat, children_view(cs@)),
{
    let n = CstNode { kind, span: Span { start: lx[a].bstart, end: lx[b - 1].bend }, children: cs };
    proof {
        lemma_node_children(n);
    }
    CstChild::Node(n)
}


fn x_expr(lx: &Vec<Lexeme>, k: usize) -> (r: Result<(CstChild, usize), usize>)
    requires
        k <= lx.len(),
    ensures
        child_res(r) == p_expr(lexemes_view(lx@), k as nat),
    decreases lx.len() - k, 4nat,
{
    match x_primary(lx, k) {
        Err(p) => Err(p),
        Ok((c, e)) => {
            if k < e && e <= lx.len() {
                match x_pipe(lx, e) {
                    Err(p) => Err(p),
                    Ok((tail, e2)) => {
                        if tail.len() == 0 {
                            Ok((c, e))
                        } else if e < e2 && e2 <= lx.len() {
                            let mut cs: Vec<CstChild> = Vec::new();
                            push_child(&mut cs, c);
                            append_children(&mut cs, tail);
                            Ok((make_node(lx, NodeKind::PipeExpr, k, e2, cs), e2))
                        } else {
                            Err(e)
                        }
                    },
                }
            } else {
                Err(k)
            }
        },
    }
}

fn x_pipe(lx: &Vec<Lexeme>, k: usize) -> (r: Result<(Vec<CstChild>, usize), usize>)
    requires
        k <= lx.len(),
    ensures
        kids_res(r) == p_pipe(lexemes_view(lx@), k as nat),
    decreases lx.len() - k, 6nat,
{
    let j = skip_trivia(lx, k);
    if punct_at(lx, j, "|>") {
        let j2 = skip_trivia(lx, j + 1);
        match x_call(lx, j2) {
            Err(p) => Err(p),
            Ok((fc, e)) => {
                if j2 < e && e <= lx.len() {
                    match x_pipe(lx, e) {
                        Err(p) => Err(p),
                        Ok((rest, e2)) => {
                            let mut cs: Vec<CstChild> = Vec::new();
                            push_trivia(&mut cs, lx, k, j);
                            push_child(&mut cs, tok_at(lx, j));
                            push_trivia(&mut cs, lx, j + 1, j2);
                            push_child(&mut cs, fc);
                            append_children(&mut cs, rest);
                            Ok((cs, e2))
                        },
                    }
                } else {
                    Err(j2)
                }
            },
        }
    } else {
        let v: Vec<CstChild> = Vec::new();
        proof {
            assert(children_view(v@) =~= Seq::<ChildModel>::empty());
        }
        Ok((v, k))
    }
}

fn x_primary(lx: &Vec<Lexeme>, k: usize) -> (r: Result<(CstChild, usize), usize>)
    requires
        k <= lx.len(),
    ensures
        child_res(r) == p_primary(lexemes_view(lx@), k as nat),
    decreases lx.len() - k, 3nat,
{
    if k >= lx.len() {
        return Err(k);
    }
    let kind = lx[k].kind;
    if kind == LexKind::Word {
        let text = lx[k].text.as_str();
        if str_eq(text, "env") && punct_at(lx, skip_trivia(lx, k + 1), "(") {
            x_env(lx, k)
        } else if str_contains_char(text, '.') {
            if punct_at(lx, skip_trivia(lx, k + 1), "{") {
                x_resource_expr(lx, k)
            } else {
                Ok((tok_at(lx, k), k + 1))
            }
        } else if !str_eq(text, "true") && !str_eq(text, "false") && punct_at(lx, skip_trivia(lx, k + 1), "(") {
            x_call(lx, k)
        } else {
            Ok((tok_at(lx, k), k + 1))
        }
    } else if kind == LexKind::Str || kind == LexKind::Num {
        Ok((tok_at(lx, k), k + 1))
    } else if punct_at(lx, k, "[") {
        x_list(lx, k)
    } else {
        Err(k)
    }
}

fn x_call(lx: &Vec<Lexeme>, k: usize) -> (r: Result<(CstChild, usize), usize>)
    requires
        k <= lx.len(),
    ensures
        child_res(r) == p_call(lexemes_view(lx@), k as nat),
    decreases lx.len() - k, 2nat,
{
    if ident_at(lx, k) {
        let j = skip_trivia(lx, k + 1);
        if punct_at(lx, j, "(") {
            match x_items(lx, j + 1, ")") {
                Err(p) => Err(p),
                Ok((items, c)) => {
                    if j < c && c < lx.len() {
                        let mut cs: Vec<CstChild> = Vec::new();
                        push_child(&mut cs, tok_at(lx, k));
                        push_trivia(&mut cs, lx, k + 1, j);
                        push_child(&mut cs, tok_at(lx, j));
                        append_children(&mut cs, items);
                        push_child(&mut cs, tok_at(lx, c));
                        Ok((make_node(lx, NodeKind::FunctionCall, k, c + 1, cs), c + 1))
                    } else {
                        Err(c)
                    }
                },
            }
        } else {
            Err(j)
        }
    } else {
        Err(k)
    }
}

fn x_list(lx: &Vec<Lexeme>, k: usize) -> (r: Result<(CstChild, usize), usize>)
    requires
        k <= lx.len(),
    ensures
        child_res(r) == p_list(lexemes_view(lx@), k as nat),
    decreases lx.len() - k, 2nat,
{
    if punct_at(lx, k, "[") {
        match x_items(lx, k + 1, "]") {
            Err(p) => Err(p),
            Ok((items, c)) => {
                if k < c && c < lx.len() {
                    let mut cs: Vec<CstChild> = Vec::new();
                    push_child(&mut cs, tok_at(lx, k));
                    append_children(&mut cs, items);
                    push_child(&mut cs, tok_at(lx, c));
                    Ok((make_node(lx, NodeKind::List, k, c + 1, cs), c + 1))
                } else {
                    Err(c)
                }
            },
        }
    } else {
        Err(k)
    }
}

fn x_items(lx: &Vec<Lexeme>, k: usize, close: &str) -> (r: Result<(Vec<CstChild>, usize), usize>)
    requires
        k <= lx.len(),
    ensures
        kids_res(r) == p_items(lexemes_view(lx@), k as nat, close@),
    decreases lx.len() - k, 6nat,
{
    let j = skip_trivia(lx, k);
    if j >= lx.len() {
        Err(j)
    } else if punct_at(lx, j, close) {
        let mut cs: Vec<CstChild> = Vec::new();
        push_trivia(&mut cs, lx, k, j);
        proof {
            assert(children_view(Seq::<CstChild>::empty()) =~= Seq::<ChildModel>::empty());
        }
        Ok((cs, j))
    } else if punct_at(lx, j, ",") {
        match x_items(lx, j + 1, close) {
            Err(p) => Err(p),
            Ok((rest, c)) => {
                let mut cs: Vec<CstChild> = Vec::new();
                push_trivia(&mut cs, lx, k, j);
                push_child(&mut cs, tok_at(lx, j));
                append_children(&mut cs, rest);
                Ok((cs, c))
            },
        }
    } else {
        match x_expr(lx, j) {
            Err(p) => Err(p),
            Ok((x, e)) => {
                if j < e && e <= lx.len() {
                    match x_items(lx, e, close) {
                        Err(p) => Err(p),
                        Ok((rest, c)) => {
                            let mut cs: Vec<CstChild> = Vec::new();
                            push_trivia(&mut cs, lx, k, j);
                            push_child(&mut cs, x);
                            append_children(&mut cs, rest);
                            Ok((cs, c))
                        },
                    }
                } else {
                    Err(j)
                }
            },
        }
    }
}

fn x_env(lx: &Vec<Lexeme>, k: usize) -> (r: Result<(CstChild, usize), usize>)
    requires
        k < lx.len(),
    ensures
        child_res(r) == p_env(lexemes_view(lx@), k as nat),
    decreases lx.len() - k, 2nat,
{
    let j = skip_trivia(lx, k + 1);
    if !(j < lx.len()) {
        return Err(k);
    }
    let j2 = skip_trivia(lx, j + 1);
    if !(j2 < lx.len()) {
        return Err(k);
    }
    let j3 = skip_trivia(lx, j2 + 1);
    if word_at(lx, k, "env") && punct_at(lx, j, "(") && lx[j2].kind == LexKind::Str && punct_at(lx, j3, ")") {
        let mut cs: Vec<CstChild> = Vec::new();
        push_child(&mut cs, tok_at(lx, k));
        push_trivia(&mut cs, lx, k + 1, j);
        push_child(&mut cs, tok_at(lx, j));
        push_trivia(&mut cs, lx, j + 1, j2);
        push_child(&mut cs, tok_at(lx, j2));
        push_trivia(&mut cs, lx, j2 + 1, j3);
        push_child(&mut cs, tok_at(lx, j3));
        Ok((make_node(lx, NodeKind::EnvVar, k, j3 + 1, cs), j3 + 1))
    } else {
        Err(k)
    }
}

fn x_resource_expr(lx: &Vec<Lexeme>, k: usize) -> (r: Result<(CstChild, usize), usize>)
    requires
        k <= lx.len(),
    ensures
        child_res(r) == p_resource_expr(lexemes_view(lx@), k as nat),
    decreases lx.len() - k, 2nat,
{
    if k < lx.len() && lx[k].kind == LexKind::Word {
        let j = skip_trivia(lx, k + 1);
        if punct_at(lx, j, "{") {
            match x_block(lx, j + 1) {
                Err(p) => Err(p),
                Ok((items, c)) => {
                    if j < c && c < lx.len() {
                        let mut cs: Vec<CstChild> = Vec::new();
                        push_child(&mut cs, tok_at(lx, k));
                        push_trivia(&mut cs, lx, k + 1, j);
                        push_child(&mut cs, tok_at(lx, j));
                        append_children(&mut cs, items);
                        push_child(&mut cs, tok_at(lx, c));
                        Ok((make_node(lx, NodeKind::ResourceExpr, k, c + 1, cs), c + 1))
                    } else {
                        Err(c)
                    }
                },
            }
        } else {
            Err(j)
        }
    } else {
        Err(k)
    }
}

fn x_block(lx: &Vec<Lexeme>, k: usize) -> (r: Result<(Vec<CstChild>, usize), usize>)
    requires
        k <= lx.len(),
    ensures
        kids_res(r) == p_block(lexemes_view(lx@), k as nat),
    decreases lx.len() - k, 6nat,
{
    let j = skip_trivia(lx, k);
    if j >= lx.len() {
        Err(j)
    } else if punct_at(lx, j, "}") {
        let mut cs: Vec<CstChild> = Vec::new();
        push_trivia(&mut cs, lx, k, j);
        proof {
            assert(children_view(Seq::<CstChild>::empty()) =~= Seq::<ChildModel>::empty());
        }
        Ok((cs, j))
    } else {
        match x_attribute(lx, j) {
            Err(p) => Err(p),
            Ok((a, e)) => {
                if j < e && e <= lx.len() {
                    match x_block(lx, e) {
                        Err(p) => Err(p),
                        Ok((rest, c)) => {
                            let mut cs: Vec<CstChild> = Vec::new();
                            push_trivia(&mut cs, lx, k, j);
                            push_child(&mut cs, a);
                            append_children(&mut cs, rest);
                            Ok((cs, c))
                        },
                    }
                } else {
                    Err(j)
                }
            },
        }
    }
}

fn x_attribute(lx: &Vec<Lexeme>, k: usize) -> (r: Result<(CstChild, usize), usize>)
    requires
        k <= lx.len(),
    ensures
        child_res(r) == p_attribute(lexemes_view(lx@), k as nat),
    decreases lx.len() - k, 5nat,
{
    if ident_at(lx, k) {
        let j = skip_trivia(lx, k + 1);
        if punct_at(lx, j, "=") {
            let j2 = skip_trivia(lx, j + 1);
            match x_expr(lx, j2) {
                Err(p) => Err(p),
                Ok((x, e)) => {
                    if j2 < e && e <= lx.len() {
                        let mut cs: Vec<CstChild> = Vec::new();
                        push_child(&mut cs, tok_at(lx, k));
                        push_trivia(&mut cs, lx, k + 1, j);
                        push_child(&mut cs, tok_at(lx, j));
                        push_trivia(&mut cs, lx, j + 1, j2);
                        push_child(&mut cs, x);
                        Ok((make_node(lx, NodeKind::Attribute, k, e, cs), e))
                    } else {
                        Err(j2)
                    }
                },
            }
        } else {
            Err(j)
        }
    } else {
        Err(k)
    }
}


fn x_block_stmt(lx: &Vec<Lexeme>, kind: NodeKind, k: usize, head: Vec<CstChild>, h: usize) -> (r: Result<(CstChild, usize), usize>)
    requires
        h <= lx.len(),
    ensures
        child_res(r) == p_block_stmt(lexemes_view(lx@), kind, k as nat, children_view(head@), h as nat),
{
    if k < h && punct_at(lx, h, "{") {
        match x_block(lx, h + 1) {
            Err(p) => Err(p),
            Ok((items, c)) => {
                if h < c && c < lx.len() {
                    let mut cs = head;
                    push_child(&mut cs, tok_at(lx, h));
                    append_children(&mut cs, items);
                    push_child(&mut cs, tok_at(lx, c));
                    Ok((make_node(lx, kind, k, c + 1, cs), c + 1))
                } else {
                    Err(c)
                }
            },
        }
    } else {
        Err(h)
    }
}

fn x_statement(lx: &Vec<Lexeme>, k: usize) -> (r: Result<(CstChild, usize), usize>)
    requires
        k <= lx.len(),
    ensures
        child_res(r) == p_statement(lexemes_view(lx@), k as nat),
{
    if k >= lx.len() || lx[k].kind != LexKind::Word {
        return Err(k);
    }
    let j1 = skip_trivia(lx, k + 1);
    let text = lx[k].text.as_str();
    if str_eq(text, "import") {
        if !(j1 < lx.len()) {
            return Err(k);
        }
        let j2 = skip_trivia(lx, j1 + 1);
        if !(j2 < lx.len()) {
            return Err(k);
        }
        let j3 = skip_trivia(lx, j2 + 1);
        if lx[j1].kind == LexKind::Str && word_at(lx, j2, "as") && ident_at(lx, j3) {
            let mut cs: Vec<CstChild> = Vec::new();
            push_child(&mut cs, tok_at(lx, k));
            push_trivia(&mut cs, lx, k + 1, j1);
            push_child(&mut cs, tok_at(lx, j1));
            push_trivia(&mut cs, lx, j1 + 1, j2);
            push_child(&mut cs, tok_at(lx, j2));
            push_trivia(&mut cs, lx, j2 + 1, j3);
            push_child(&mut cs, tok_at(lx, j3));
            Ok((make_node(lx, NodeKind::ImportStmt, k, j3 + 1, cs), j3 + 1))
        } else {
            Err(k)
        }
    } else if str_eq(text, "backend") || str_eq(text, "provider") {
        if ident_at(lx, j1) {
            let h = skip_trivia(lx, j1 + 1);
            let kind = if str_eq(text, "backend") {
                NodeKind::BackendBlock
            } else {
                NodeKind::ProviderBlock
            };
            let mut head: Vec<CstChild> = Vec::new();
            push_child(&mut head, tok_at(lx, k));
            push_trivia(&mut head, lx, k + 1, j1);
            push_child(&mut head, tok_at(lx, j1));
            push_trivia(&mut head, lx, j1 + 1, h);
            proof {
                assert(children_view(Seq::<CstChild>::empty()) =~= Seq::<ChildModel>::empty());
            }
            x_block_stmt(lx, kind, k, head, h)
        } else {
            Err(j1)
        }
    } else if str_eq(text, "let") {
        if !(j1 < lx.len()) {
            return Err(k);
        }
        let j2 = skip_trivia(lx, j1 + 1);
        if !(j2 < lx.len()) {
            return Err(k);
        }
        let j3 = skip_trivia(lx, j2 + 1);
        if ident_at(lx, j1) && punct_at(lx, j2, "=") {
            match x_expr(lx, j3) {
                Err(p) => Err(p),
                Ok((x, e)) => {
                    if j3 < e && e <= lx.len() {
                        let mut cs: Vec<CstChild> = Vec::new();
                        push_child(&mut cs, tok_at(lx, k));
                        push_trivia(&mut cs, lx, k + 1, j1);
                        push_child(&mut cs, tok_at(lx, j1));
                        push_trivia(&mut cs, lx, j1 + 1, j2);
                        push_child(&mut cs, tok_at(lx, j2));
                        push_trivia(&mut cs, lx, j2 + 1, j3);
                        push_child(&mut cs, x);
                        Ok((make_node(lx, NodeKind::LetBinding, k, e, cs), e))
                    } else {
                        Err(j3)
                    }
                },
            }
        } else {
            Err(k)
        }
    } else {
        let kind = if str_contains_char(text, '.') {
            NodeKind::AnonymousResource
        } else {
            NodeKind::ModuleCall
        };
        let mut head: Vec<CstChild> = Vec::new();
        push_child(&mut head, tok_at(lx, k));
        push_trivia(&mut head, lx, k + 1, j1);
        proof {
            assert(children_view(Seq::<CstChild>::empty()) =~= Seq::<ChildModel>::empty());
        }
        x_block_stmt(lx, kind, k, head, j1)
    }
}

/// The top-level children of a lexed file, or the lexeme where the grammar fails.
fn x_file(lx: &Vec<Lexeme>) -> (r: Result<Vec<CstChild>, usize>)
    ensures
        match p_file(lexemes_view(lx@), 0) {
            Ok(cs) => r matches Ok(v) && children_view(v@) == cs,
            Err(p) => r matches Err(q) && q as nat == p,
        },
{
    let ghost ls = lexemes_view(lx@);
    let mut out: Vec<CstChild> = Vec::new();
    let mut i: usize = 0;
    proof {
        assert(children_view(out@) =~= Seq::<ChildModel>::empty());
        assert(Seq::<ChildModel>::empty() + Seq::<ChildModel>::empty() =~= Seq::<ChildModel>::empty());
    }
    while i < lx.len()
        invariant
            i <= lx.len(),
            ls == lexemes_view(lx@),
            p_file(ls, 0) == (match p_file(ls, i as nat) {
                Ok(rest) => Ok(children_view(out@) + rest),
                Err(p) => Err::<Seq<ChildModel>, nat>(p),
            }),
        decreases lx.len() - i,
    {
        let ghost before = children_view(out@);
        if lx[i].kind == LexKind::Ws || lx[i].kind == LexKind::Newline || lx[i].kind == LexKind::Comment {
            let c = triv_at(lx, i);
            let ghost cm = c@;
            push_child(&mut out, c);
            proof {
                match p_file(ls, (i + 1) as nat) {
                    Ok(rest) => {
                        assert(before + (seq![cm] + rest) =~= (before + seq![cm]) + rest);
                    },
                    Err(_) => {},
                }
            }
            i += 1;
        } else {
            match x_statement(lx, i) {
                Err(p) => {
                    return Err(p);
                },
                Ok((x, e)) => {
                    if i < e && e <= lx.len() {
                        let ghost cm = x@;
                        push_child(&mut out, x);
                        proof {
                            match p_file(ls, e as nat) {
                                Ok(rest) => {
                                    assert(before + (seq![cm] + rest) =~= (before + seq![cm]) + rest);
                                },
                                Err(_) => {},
                            }
                        }
                        i = e;
                    } else {
                        return Err(i);
                    }
                },
            }
        }
    }
    proof {
        assert(children_view(out@) + Seq::<ChildModel>::empty() =~= children_view(out@));
    }
    Ok(out)
}


/// The line and column (both counted from 1, columns in characters) of the
/// character position `p`.
pub open spec fn line_col(s: Seq<char>, p: nat) -> (nat, nat)
    decreases p,
{
    if p == 0 {
        (1, 1)
    } else {
        let (l, c) = line_col(s, (p - 1) as nat);
        if s[p - 1] == '\n' {
            (l + 1, 1)
        } else {
            (l, c + 1)
        }
    }
}

/// What a parse error says.
pub open spec fn fmt_error_message(s: Seq<char>) -> Seq<char> {
    match fmt_lex_from(s, 0) {
        Err(_) => "unexpected character"@,
        Ok(ls) => match p_file(ls, 0) {
            Err(p) => if p < ls.len() {
                "unexpected input"@
            } else {
                "unexpected end of input"@
            },
            Ok(_) => Seq::empty(),
        },
    }
}

/// Error type for format parsing
#[derive(Debug)]
pub struct FormatParseError {
    pub message: String,
    pub line: usize,
    pub column: usize,
}

impl FormatParseError {
    /// `Parse error at LINE:COLUMN: MESSAGE` (what `Display` prints).
    pub fn to_string(&self) -> (r: String)
        ensures
            r@ == "Parse error at "@ + nat_digits(self.line as nat) + ":"@ + nat_digits(self.column as nat) + ": "@
                + self.message@,
    {
        let mut out = String::new();
        push_str(&mut out, "Parse error at ");
        push_chars(&mut out, usize_text(self.line).as_slice());
        push_str(&mut out, ":");
        push_chars(&mut out, usize_text(self.column).as_slice());
        push_str(&mut out, ": ");
        push_str(&mut out, self.message.as_str());
        out
    }
}

fn line_col_of(s: &[char], p: usize) -> (r: (usize, usize))
    requires
        p <= s.len(),
        s.len() < usize::MAX,
    ensures
        (r.0 as nat, r.1 as nat) == line_col(s@, p as nat),
{
    let mut l: usize = 1;
    let mut c: usize = 1;
    let mut k: usize = 0;
    while k < p
        invariant
            k <= p <= s.len() < usize::MAX,
            l <= k + 1,
            c <= k + 1,
            (l as nat, c as nat) == line_col(s@, k as nat),
        decreases p - k,
    {
        if s[k] == '\n' {
            l = l + 1;
            c = 1;
        } else {
            c = c + 1;
        }
        k += 1;
    }
    (l, c)
}

/// Parse source code for formatting: its concrete syntax tree, or where and
/// why it leaves the grammar.
pub fn parse_fmt(source: &str) -> (r: Result<Cst, FormatParseError>)
    requires
        byte_len(source@) < usize::MAX,
    ensures
        r is Ok <==> fmt_parses(source@),
        r matches Ok(c) ==> c.root@ == fmt_cst(source@) && c.source@ == source@,
        r matches Err(e) ==> (e.line as nat, e.column as nat) == line_col(source@, fmt_error_pos(source@))
            && e.message@ == fmt_error_message(source@),
{
    let s = chars_of(source);
    proof {
        crate::text::lemma_len_le_byte_len(source@);
        lemma_lex_error_bound(source@, 0);
    }
    match fmt_lex(source) {
        Err(p) => {
            let (line, column) = line_col_of(s.as_slice(), p);
            let message = string_of(chars_of("unexpected character").as_slice());
            assert(fmt_error_pos(source@) == p as nat);
            assert(message@ == fmt_error_message(source@));
            Err(FormatParseError { message, line, column })
        },
        Ok(lx) => {
            proof {
                lemma_lex_starts(source@, 0);
            }
            match x_file(&lx) {
                Ok(children) => {
                    let offs = byte_offsets(s.as_slice());
                    proof {
                        assert(s@.take(s.len() as int) =~= s@);
                    }
                    let root = CstNode { kind: NodeKind::File, span: Span { start: 0, end: offs[s.len()] }, children };
                    proof {
                        lemma_node_children(root);
                    }
                    Ok(Cst { root, source: string_of(s.as_slice()) })
                },
                Err(p) => {
                    proof {
                        if p < lx.len() {
                            assert(lexemes_view(lx@)[p as int].start < s.len());
                        }
                    }
                    let pos = if p < lx.len() {
                        lx[p].start
                    } else {
                        s.len()
                    };
                    let (line, column) = line_col_of(s.as_slice(), pos);
                    let msg = if p < lx.len() {
                        "unexpected input"
                    } else {
                        "unexpected end of input"
                    };
                    let message = string_of(chars_of(msg).as_slice());
                    assert(fmt_error_pos(source@) == pos as nat);
                    assert(message@ == fmt_error_message(source@));
                    Err(FormatParseError { message, line, column })
                },
            }
        },
    }
}

/// A lexing error lies inside the text.
proof fn lemma_lex_error_bound(s: Seq<char>, i: nat)
    ensures
        fmt_lex_from(s, i) matches Err(p) ==> p <= s.len(),
    decreases s.len() - i,
{
    if i < s.len() {
        match lexeme_at(s, i) {
            Some((k, e)) => if i < e <= s.len() {
                lemma_lex_error_bound(s, e);
            },
            None => {},
        }
    }
}

/// Every lexeme starts inside the text.
proof fn lemma_lex_starts(s: Seq<char>, i: nat)
    ensures
        fmt_lex_from(s, i) matches Ok(ls) ==> forall|k: int| 0 <= k < ls.len() ==> #[trigger] ls[k].start < s.len(),
    decreases s.len() - i,
{
    if i < s.len() {
        match lexeme_at(s, i) {
            Some((k, e)) => if i < e <= s.len() {
                lemma_lex_starts(s, e);
                match fmt_lex_from(s, e) {
                    Ok(rest) => {
                        let all = fmt_lex_from(s, i)->Ok_0;
                        assert forall|m: int| 0 <= m < all.len() implies #[trigger] all[m].start < s.len() by {
                            if m > 0 {
                                assert(all[m] == rest[m - 1]);
                            }
                        }
                    },
                    Err(_) => {},
                }
            },
            None => {},
        }
    }
}

} // verus!
