//! Concrete syntax tree for formatting: keeps all source information,
//! including trivia (whitespace, newlines and comments).
//!
//! Positions in a [`Span`] are byte offsets into the source text (UTF-8).

use vstd::prelude::*;

use crate::text::{byte_len, char_width, chars_of, lemma_byte_len_mono, lemma_byte_len_take, slice_chars, string_of};

verus! {

broadcast use vstd::std_specs::vec::axiom_vec_index_decreases;

/// Source location information: the bytes from `start` up to `end`.
#[derive(Debug, Clone, Copy, PartialEq, Eq, Structural)]
pub struct Span {
    pub start: usize,
    pub end: usize,
}

impl Span {
    pub fn new(start: usize, end: usize) -> (r: Self)
        ensures
            r.start == start,
            r.end == end,
    {
        Span { start, end }
    }
}

/// Trivia types (whitespace and comments)
#[derive(Debug, Clone, PartialEq, Eq)]
pub enum Trivia {
    /// Spaces and tabs (not including newlines)
    Whitespace(String),
    /// Single newline
    Newline,
    /// Line comment including the # prefix
    LineComment(String),
}

/// The mathematical content of a piece of trivia.
pub enum TriviaModel {
    Whitespace(Seq<char>),
    Newline,
    LineComment(Seq<char>),
}

impl View for Trivia {
    type V = TriviaModel;

    open spec fn view(&self) -> TriviaModel {
        match self {
            Trivia::Whitespace(s) => TriviaModel::Whitespace(s@),
            Trivia::Newline => TriviaModel::Newline,
            Trivia::LineComment(s) => TriviaModel::LineComment(s@),
        }
    }
}

/// The source text of a piece of trivia.
pub open spec fn trivia_text(t: TriviaModel) -> Seq<char> {
    match t {
        TriviaModel::Whitespace(s) => s,
        TriviaModel::Newline => seq!['\n'],
        TriviaModel::LineComment(s) => s,
    }
}

impl Trivia {
    pub fn text(&self) -> (r: &str)
        ensures
            r@ == trivia_text(self@),
    {
        match self {
            Trivia::Whitespace(s) => s.as_str(),
            Trivia::Newline => {
                proof {
                    reveal_strlit("\n");
                }
                "\n"
            },
            Trivia::LineComment(s) => s.as_str(),
        }
    }
}

/// A token with its text and position
#[derive(Debug, Clone)]
pub struct Token {
    pub text: String,
    pub span: Span,
}

impl Token {
    pub fn new(text: String, span: Span) -> (r: Self)
        ensures
            r.text == text,
            r.span == span,
    {
        Token { text, span }
    }
}

/// CST node kinds
#[derive(Debug, Clone, Copy, PartialEq, Eq, Structural)]
pub enum NodeKind {
    File,
    ImportStmt,
    BackendBlock,
    ProviderBlock,
    LetBinding,
    ModuleCall,
    AnonymousResource,
    ResourceExpr,
    Attribute,
    Expression,
    PipeExpr,
    FunctionCall,
    EnvVar,
    VariableRef,
    NamespacedId,
    Identifier,
    String,
    Number,
    Boolean,
    List,
    // Delimiters
    OpenBrace,
    CloseBrace,
    OpenBracket,
    CloseBracket,
    OpenParen,
    CloseParen,
    Equals,
    PipeOperator,
    Comma,
    // Keywords
    KwImport,
    KwAs,
    KwBackend,
    KwProvider,
    KwLet,
    KwEnv,
}

/// CST node - preserves all source information
#[derive(Debug)]
pub struct CstNode {
    pub kind: NodeKind,
    pub span: Span,
    pub children: Vec<CstChild>,
}

/// Child of a CST node - can be a node, token, or trivia
#[derive(Debug)]
pub enum CstChild {
    Node(CstNode),
    Token(Token),
    Trivia(Trivia),
}

/// The mathematical content of a node.
pub struct NodeModel {
    pub kind: NodeKind,
    pub span: Span,
    pub children: Seq<ChildModel>,
}

/// The mathematical content of a child: a node, a token (its text and
/// span) or trivia.
pub enum ChildModel {
    Node(NodeModel),
    Token(Seq<char>, Span),
    Trivia(TriviaModel),
}

/// The model of a node.
pub open spec fn node_view(n: CstNode) -> NodeModel
    decreases n,
{
    NodeModel {
        kind: n.kind,
        span: n.span,
        children: Seq::new(
            n.children.len() as nat,
            |i: int|
                if 0 <= i < n.children.len() {
                    match n.children@[i] {
                        CstChild::Node(c) => ChildModel::Node(node_view(c)),
                        CstChild::Token(t) => ChildModel::Token(t.text@, t.span),
                        CstChild::Trivia(t) => ChildModel::Trivia(t@),
                    }
                } else {
                    ChildModel::Trivia(TriviaModel::Newline)
                },
        ),
    }
}

/// The model of a child.
pub open spec fn child_view(c: CstChild) -> ChildModel {
    match c {
        CstChild::Node(n) => ChildModel::Node(node_view(n)),
        CstChild::Token(t) => ChildModel::Token(t.text@, t.span),
        CstChild::Trivia(t) => ChildModel::Trivia(t@),
    }
}

/// The models of a list of children.
pub open spec fn children_view(cs: Seq<CstChild>) -> Seq<ChildModel> {
    Seq::new(cs.len(), |i: int| child_view(cs[i]))
}

impl View for CstNode {
    type V = NodeModel;

    open spec fn view(&self) -> NodeModel {
        node_view(*self)
    }
}

impl View for CstChild {
    type V = ChildModel;

    open spec fn view(&self) -> ChildModel {
        child_view(*self)
    }
}

/// The children of a node are the models of its children.
pub proof fn lemma_node_children(n: CstNode)
    ensures
        n@.children == children_view(n.children@),
        n@.kind == n.kind,
        n@.span == n.span,
{
    assert(n@.children =~= children_view(n.children@));
}

impl CstNode {
    pub fn new(kind: NodeKind, span: Span) -> (r: Self)
        ensures
            r.kind == kind,
            r.span == span,
            r.children@ == Seq::<CstChild>::empty(),
    {
        CstNode { kind, span, children: Vec::new() }
    }

    pub fn with_children(kind: NodeKind, span: Span, children: Vec<CstChild>) -> (r: Self)
        ensures
            r.kind == kind,
            r.span == span,
            r.children == children,
    {
        CstNode { kind, span, children }
    }
}

/// Complete CST for a file
#[derive(Debug)]
pub struct Cst {
    pub root: CstNode,
    pub source: String,
}

impl Cst {
    pub fn new(root: CstNode, source: String) -> (r: Self)
        ensures
            r.root == root,
            r.source == source,
    {
        Cst { root, source }
    }

    /// Get the source text for a span
    pub fn text(&self, span: &Span) -> (r: String)
        requires
            span.start <= span.end,
            is_char_boundary(self.source@, span.start as nat),
            is_char_boundary(self.source@, span.end as nat),
        ensures
            r@ == byte_slice(self.source@, span.start as nat, span.end as nat),
    {
        let cs = chars_of(self.source.as_str());
        let a = char_pos(cs.as_slice(), span.start);
        let b = char_pos(cs.as_slice(), span.end);
        proof {
            if b < a {
                lemma_byte_len_strict(cs@, b as int, a as int);
            }
        }
        let piece = slice_chars(cs.as_slice(), a, b);
        string_of(piece.as_slice())
    }
}

/// Whether the byte offset `p` falls between two characters of `s`.
pub open spec fn is_char_boundary(s: Seq<char>, p: nat) -> bool {
    exists|k: int| 0 <= k <= s.len() && byte_len(s.take(k)) == p
}

/// The number of characters that the first `p` bytes of `s` hold.
pub open spec fn char_index(s: Seq<char>, p: nat) -> int {
    choose|k: int| 0 <= k <= s.len() && byte_len(s.take(k)) == p
}

/// The characters of `s` between the byte offsets `start` and `end`.
pub open spec fn byte_slice(s: Seq<char>, start: nat, end: nat) -> Seq<char> {
    s.subrange(char_index(s, start), char_index(s, end))
}

/// Each character takes at least one byte.
pub proof fn lemma_byte_len_strict(s: Seq<char>, j: int, k: int)
    requires
        0 <= j < k <= s.len(),
    ensures
        byte_len(s.take(j)) < byte_len(s.take(k)),
{
    lemma_byte_len_take(s, k - 1);
    lemma_byte_len_mono(s, j, k - 1);
}

/// The character position at a byte offset between two characters.
fn char_pos(s: &[char], p: usize) -> (k: usize)
    requires
        is_char_boundary(s@, p as nat),
    ensures
        k as int == char_index(s@, p as nat),
        k <= s.len(),
{
    let ghost j = char_index(s@, p as nat);
    let mut k: usize = 0;
    let mut off: usize = 0;
    proof {
        assert(s@.take(0) =~= Seq::<char>::empty());
    }
    while off < p
        invariant
            0 <= j <= s.len(),
            byte_len(s@.take(j)) == p,
            k <= j,
            off as nat == byte_len(s@.take(k as int)),
            off <= p,
        decreases j - k,
    {
        proof {
            assert(k < j);
            lemma_byte_len_take(s@, k as int);
            lemma_byte_len_mono(s@, k + 1, j);
        }
        let w = char_width(s[k]);
        off = off + w;
        k = k + 1;
    }
    proof {
        if k < j {
            lemma_byte_len_strict(s@, k as int, j);
        }
    }
    k
}

} // verus!
