//! Main formatting logic: renders a concrete syntax tree as normalized text.
//!
//! Blocks are written one per line with their attributes indented one level
//! deeper; attribute values are aligned when the configuration asks for it;
//! comments are kept; spacing inside expressions is normalized.

use vstd::prelude::*;

use crate::formatter::config::{indent_unit, indentation, repeat_char, FormatConfig, push_repeated};
use crate::formatter::cst::{Cst, ChildModel, CstChild, CstNode, NodeKind, NodeModel, Trivia, TriviaModel, lemma_node_children};
use crate::formatter::parser::{fmt_cst, fmt_cst_opt, fmt_parses, parse_fmt, FormatParseError};
use crate::resource::opt_str_view;
use crate::schema::strings_view;
use crate::text::{
    ascii_alpha, chars_of, count_trailing_space, has_char, ident_char, is_ascii_alpha, is_ident_char,
    join, join_chars, push_char, push_chars, push_str, slice_chars, str_eq, trailing_space, views,
};

verus! {

broadcast use vstd::std_specs::vec::axiom_vec_index_decreases;

/// Whether a text is an identifier: an ASCII letter followed by ASCII
/// letters, digits and underscores.
pub open spec fn is_identifier(s: Seq<char>) -> bool {
    s.len() > 0 && is_ascii_alpha(s[0]) && forall|i: int| 1 <= i < s.len() ==> is_ident_char(#[trigger] s[i])
}

/// The indentation depth one level deeper (it stays at the largest `usize`).
pub open spec fn deeper(d: nat) -> nat {
    if d < usize::MAX {
        d + 1
    } else {
        d
    }
}

/// The text of an optional piece; nothing when it is absent.
pub open spec fn opt_text(p: Option<Seq<char>>) -> Seq<char> {
    match p {
        Some(t) => t,
        None => Seq::empty(),
    }
}

/// The text of the first token from position `k` on that is an identifier
/// other than `kw`.
pub open spec fn first_ident_except(cs: Seq<ChildModel>, kw: Seq<char>, k: nat) -> Option<Seq<char>>
    decreases cs.len() - k,
{
    if k >= cs.len() {
        None
    } else {
        match cs[k as int] {
            ChildModel::Token(t, _) => if is_identifier(t) && t != kw {
                Some(t)
            } else {
                first_ident_except(cs, kw, k + 1)
            },
            _ => first_ident_except(cs, kw, k + 1),
        }
    }
}

/// The text of the first token from position `k` on that contains a dot.
pub open spec fn first_dotted(cs: Seq<ChildModel>, k: nat) -> Option<Seq<char>>
    decreases cs.len() - k,
{
    if k >= cs.len() {
        None
    } else {
        match cs[k as int] {
            ChildModel::Token(t, _) => if has_char(t, '.') {
                Some(t)
            } else {
                first_dotted(cs, k + 1)
            },
            _ => first_dotted(cs, k + 1),
        }
    }
}

/// The text of the first token from position `k` on that starts with a quote.
pub open spec fn first_quoted(cs: Seq<ChildModel>, k: nat) -> Option<Seq<char>>
    decreases cs.len() - k,
{
    if k >= cs.len() {
        None
    } else {
        match cs[k as int] {
            ChildModel::Token(t, _) => if t.len() > 0 && t[0] == '"' {
                Some(t)
            } else {
                first_quoted(cs, k + 1)
            },
            _ => first_quoted(cs, k + 1),
        }
    }
}

/// The identifier tokens among the first `k` children.
pub open spec fn ident_parts(cs: Seq<ChildModel>, k: nat) -> Seq<Seq<char>>
    decreases k,
{
    if k == 0 || k > cs.len() {
        Seq::empty()
    } else {
        let prev = ident_parts(cs, (k - 1) as nat);
        match cs[k - 1] {
            ChildModel::Token(t, _) => if is_identifier(t) {
                prev.push(t)
            } else {
                prev
            },
            _ => prev,
        }
    }
}

/// What an import statement writes after `import `, over its first `k`
/// children: the path, then ` as ` and the alias. The state also says
/// whether the path and `as` were seen and whether the alias was written.
pub open spec fn import_walk(cs: Seq<ChildModel>, k: nat) -> (Seq<char>, bool, bool, bool)
    decreases k,
{
    if k == 0 || k > cs.len() {
        (Seq::empty(), false, false, false)
    } else {
        let (out, found_path, found_as, done) = import_walk(cs, (k - 1) as nat);
        if done {
            (out, found_path, found_as, done)
        } else {
            match cs[k - 1] {
                ChildModel::Token(t, _) => if t == "import"@ {
                    (out, found_path, found_as, done)
                } else if t.len() > 0 && t[0] == '"' && !found_path {
                    (out + t, true, found_as, done)
                } else if t == "as"@ {
                    (out + " as "@, found_path, true, done)
                } else if found_as && is_identifier(t) {
                    (out + t, found_path, found_as, true)
                } else {
                    (out, found_path, found_as, done)
                },
                _ => (out, found_path, found_as, done),
            }
        }
    }
}

/// Comments written on lines of their own at a given depth.
pub open spec fn comment_lines(ps: Seq<Seq<char>>, cfg: FormatConfig, d: nat) -> Seq<char>
    decreases ps.len(),
{
    if ps.len() == 0 {
        Seq::empty()
    } else {
        comment_lines(ps.drop_last(), cfg, d) + indentation(cfg, d) + ps.last() + seq!['\n']
    }
}

/// The length of an attribute's key, the first identifier among its
/// children, or zero when it has none.
pub open spec fn key_len(a: NodeModel) -> nat {
    match first_ident_except(a.children, Seq::empty(), 0) {
        Some(k) => k.len(),
        None => 0,
    }
}

/// What the first pass over a block's children gathers.
pub struct BlockScan {
    /// The standalone comments written before the first attribute
    pub out: Seq<char>,
    /// How many attributes were seen
    pub count: nat,
    /// The comment that follows each attribute, if any (the last one wins)
    pub inline: Seq<Option<Seq<char>>>,
    /// Comments not yet written
    pub pending: Seq<Seq<char>>,
    /// The longest key among the attributes
    pub max_key: nat,
}

/// The first pass over the first `k` children of a block at depth `d`.
pub open spec fn block_scan(cs: Seq<ChildModel>, cfg: FormatConfig, d: nat, k: nat) -> BlockScan
    decreases k,
{
    if k == 0 || k > cs.len() {
        BlockScan { out: Seq::empty(), count: 0, inline: Seq::empty(), pending: Seq::empty(), max_key: 0 }
    } else {
        let st = block_scan(cs, cfg, d, (k - 1) as nat);
        match cs[k - 1] {
            ChildModel::Node(a) => if a.kind == NodeKind::Attribute {
                BlockScan {
                    out: st.out + comment_lines(st.pending, cfg, d),
                    count: st.count + 1,
                    inline: st.inline.push(None),
                    pending: Seq::empty(),
                    max_key: if key_len(a) > st.max_key {
                        key_len(a)
                    } else {
                        st.max_key
                    },
                }
            } else {
                st
            },
            ChildModel::Trivia(TriviaModel::LineComment(s)) => if st.count > 0 && s.len() > 0 {
                BlockScan { inline: st.inline.update(st.count - 1, Some(s)), ..st }
            } else {
                BlockScan { pending: st.pending.push(s), ..st }
            },
            _ => st,
        }
    }
}

/// Spaces that pad a key of length `len` to `align` characters.
pub open spec fn padding(align: nat, len: nat) -> Seq<char> {
    if align > 0 && len < align {
        repeat_char(' ', (align - len) as nat)
    } else {
        Seq::empty()
    }
}

/// The trailing comment of an attribute line.
pub open spec fn inline_text(c: Option<Seq<char>>) -> Seq<char> {
    match c {
        Some(t) => "  "@ + t,
        None => Seq::empty(),
    }
}

/// The text of a node at depth `d`.
pub open spec fn fmt_node(n: NodeModel, cfg: FormatConfig, d: nat) -> Seq<char>
    decreases n, n.children.len() + 3,
{
    match n.kind {
        NodeKind::ImportStmt => indentation(cfg, d) + "import "@ + import_walk(n.children, n.children.len()).0
            + seq!['\n'],
        NodeKind::BackendBlock => keyword_block_text(n, cfg, d, "backend"@),
        NodeKind::ProviderBlock => keyword_block_text(n, cfg, d, "provider"@),
        NodeKind::LetBinding => let_text(n, cfg, d),
        NodeKind::ModuleCall => indentation(cfg, d) + opt_text(first_ident_except(n.children, Seq::empty(), 0))
            + " {\n"@ + block_text(n, cfg, deeper(d)) + indentation(cfg, d) + "}\n"@,
        NodeKind::AnonymousResource => indentation(cfg, d) + opt_text(first_dotted(n.children, 0)) + " {\n"@
            + block_text(n, cfg, deeper(d)) + indentation(cfg, d) + "}\n"@,
        NodeKind::ResourceExpr => opt_text(first_dotted(n.children, 0)) + " {\n"@ + block_text(n, cfg, deeper(d))
            + indentation(cfg, d) + "}"@,
        NodeKind::Attribute => attr_line(n, cfg, d, 0, None),
        NodeKind::PipeExpr => pipe_walk(n, cfg, d, n.children.len()),
        NodeKind::FunctionCall => call_walk(n, cfg, d, n.children.len()).0,
        NodeKind::EnvVar => "env("@ + opt_text(first_quoted(n.children, 0)) + ")"@,
        NodeKind::VariableRef => join(ident_parts(n.children, n.children.len()), seq!['.']),
        NodeKind::List => "["@ + list_walk(n, cfg, d, n.children.len()).0 + "]"@,
        _ => default_walk(n, cfg, d, n.children.len()),
    }
}

/// A `backend` or `provider` block: the keyword, the first other identifier,
/// and the attributes one level deeper.
pub open spec fn keyword_block_text(n: NodeModel, cfg: FormatConfig, d: nat, kw: Seq<char>) -> Seq<char>
    decreases n, n.children.len() + 2,
{
    indentation(cfg, d) + kw + seq![' '] + opt_text(first_ident_except(n.children, kw, 0)) + " {\n"@
        + block_text(n, cfg, deeper(d)) + indentation(cfg, d) + "}\n"@
}

/// A `let` binding.
pub open spec fn let_text(n: NodeModel, cfg: FormatConfig, d: nat) -> Seq<char>
    decreases n, n.children.len() + 2,
{
    indentation(cfg, d) + "let "@ + let_walk(n, cfg, d, n.children.len()).0 + seq!['\n']
}

/// The body of a `let` binding over its first `k` children: the name, ` = `
/// and the value. The state says whether the name and `=` were seen.
pub open spec fn let_walk(n: NodeModel, cfg: FormatConfig, d: nat, k: nat) -> (Seq<char>, bool, bool)
    decreases n, k,
{
    if k == 0 || k > n.children.len() {
        (Seq::empty(), false, false)
    } else {
        let (out, found_name, found_eq) = let_walk(n, cfg, d, (k - 1) as nat);
        match n.children[k - 1] {
            ChildModel::Token(t, _) => if t == "let"@ {
                (out, found_name, found_eq)
            } else if t == "="@ {
                (out + " = "@, found_name, true)
            } else if !found_name && is_identifier(t) {
                (out + t, true, found_eq)
            } else if found_eq {
                (out + t, found_name, found_eq)
            } else {
                (out, found_name, found_eq)
            },
            ChildModel::Node(m) => if found_eq {
                (out + fmt_node(m, cfg, d), found_name, found_eq)
            } else {
                (out, found_name, found_eq)
            },
            ChildModel::Trivia(_) => (out, found_name, found_eq),
        }
    }
}

/// The attributes and comments of a block whose contents stand at depth `d`.
pub open spec fn block_text(n: NodeModel, cfg: FormatConfig, d: nat) -> Seq<char>
    decreases n, n.children.len() + 1,
{
    let st = block_scan(n.children, cfg, d, n.children.len());
    let align = if cfg.align_attributes {
        st.max_key
    } else {
        0
    };
    st.out + attrs_walk(n, cfg, d, align, st.inline, n.children.len()).0 + comment_lines(st.pending, cfg, d)
}

/// The attribute lines of a block over its first `k` children, and how many
/// attributes they hold.
pub open spec fn attrs_walk(
    n: NodeModel,
    cfg: FormatConfig,
    d: nat,
    align: nat,
    inline: Seq<Option<Seq<char>>>,
    k: nat,
) -> (Seq<char>, nat)
    decreases n, k,
{
    if k == 0 || k > n.children.len() {
        (Seq::empty(), 0)
    } else {
        let (out, i) = attrs_walk(n, cfg, d, align, inline, (k - 1) as nat);
        match n.children[k - 1] {
            ChildModel::Node(a) => if a.kind == NodeKind::Attribute {
                (out + attr_line(a, cfg, d, align, inline[i as int]), i + 1)
            } else {
                (out, i)
            },
            _ => (out, i),
        }
    }
}

/// One attribute on a line of its own: key, padding, ` = `, value and the
/// trailing comment.
pub open spec fn attr_line(a: NodeModel, cfg: FormatConfig, d: nat, align: nat, inline: Option<Seq<char>>) -> Seq<char>
    decreases a, a.children.len() + 1,
{
    indentation(cfg, d) + attr_walk(a, cfg, d, align, a.children.len()).0 + inline_text(inline) + seq!['\n']
}

/// An attribute over its first `k` children. The state says whether the key
/// and `=` were written.
pub open spec fn attr_walk(a: NodeModel, cfg: FormatConfig, d: nat, align: nat, k: nat) -> (Seq<char>, bool, bool)
    decreases a, k,
{
    if k == 0 || k > a.children.len() {
        (Seq::empty(), false, false)
    } else {
        let (out, wrote_key, wrote_eq) = attr_walk(a, cfg, d, align, (k - 1) as nat);
        match a.children[k - 1] {
            ChildModel::Token(t, _) => if !wrote_key && is_identifier(t) {
                (out + t + padding(align, t.len()), true, wrote_eq)
            } else if t == "="@ && !wrote_eq {
                (out + " = "@, wrote_key, true)
            } else if wrote_eq {
                (out + t, wrote_key, wrote_eq)
            } else {
                (out, wrote_key, wrote_eq)
            },
            ChildModel::Node(m) => if wrote_eq {
                (out + fmt_node(m, cfg, d), wrote_key, wrote_eq)
            } else {
                (out, wrote_key, wrote_eq)
            },
            ChildModel::Trivia(_) => (out, wrote_key, wrote_eq),
        }
    }
}

/// A pipe expression over its first `k` children.
pub open spec fn pipe_walk(n: NodeModel, cfg: FormatConfig, d: nat, k: nat) -> Seq<char>
    decreases n, k,
{
    if k == 0 || k > n.children.len() {
        Seq::empty()
    } else {
        let out = pipe_walk(n, cfg, d, (k - 1) as nat);
        match n.children[k - 1] {
            ChildModel::Token(t, _) => if t == "|>"@ {
                out + " |> "@
            } else {
                out + t
            },
            ChildModel::Node(m) => out + fmt_node(m, cfg, d),
            ChildModel::Trivia(_) => out,
        }
    }
}

/// A function call over its first `k` children; the state says whether the
/// walk is inside the parentheses.
pub open spec fn call_walk(n: NodeModel, cfg: FormatConfig, d: nat, k: nat) -> (Seq<char>, bool)
    decreases n, k,
{
    if k == 0 || k > n.children.len() {
        (Seq::empty(), false)
    } else {
        let (out, in_args) = call_walk(n, cfg, d, (k - 1) as nat);
        match n.children[k - 1] {
            ChildModel::Token(t, _) => if t == "("@ {
                (out + "("@, true)
            } else if t == ")"@ {
                (out + ")"@, false)
            } else if t == ","@ {
                (out + ", "@, in_args)
            } else {
                (out + t, in_args)
            },
            ChildModel::Node(m) => if in_args {
                (out + fmt_node(m, cfg, d), in_args)
            } else {
                (out, in_args)
            },
            ChildModel::Trivia(_) => (out, in_args),
        }
    }
}

/// The items of a list over its first `k` children, separated by `, `; the
/// state says whether no item was written yet.
pub open spec fn list_walk(n: NodeModel, cfg: FormatConfig, d: nat, k: nat) -> (Seq<char>, bool)
    decreases n, k,
{
    if k == 0 || k > n.children.len() {
        (Seq::empty(), true)
    } else {
        let (out, first) = list_walk(n, cfg, d, (k - 1) as nat);
        let sep = if first {
            Seq::empty()
        } else {
            ", "@
        };
        match n.children[k - 1] {
            ChildModel::Token(t, _) => if t == "["@ || t == "]"@ || t == ","@ {
                (out, first)
            } else {
                (out + sep + t, false)
            },
            ChildModel::Node(m) => (out + sep + fmt_node(m, cfg, d), false),
            ChildModel::Trivia(_) => (out, first),
        }
    }
}

/// Any other node over its first `k` children: tokens and nodes in order.
pub open spec fn default_walk(n: NodeModel, cfg: FormatConfig, d: nat, k: nat) -> Seq<char>
    decreases n, k,
{
    if k == 0 || k > n.children.len() {
        Seq::empty()
    } else {
        let out = default_walk(n, cfg, d, (k - 1) as nat);
        match n.children[k - 1] {
            ChildModel::Token(t, _) => out + t,
            ChildModel::Node(m) => out + fmt_node(m, cfg, d),
            ChildModel::Trivia(_) => out,
        }
    }
}

/// Lines that each hold one comment, at the top level.
pub open spec fn file_comments(ps: Seq<Seq<char>>) -> Seq<char>
    decreases ps.len(),
{
    if ps.len() == 0 {
        Seq::empty()
    } else {
        file_comments(ps.drop_last()) + ps.last() + seq!['\n']
    }
}

/// What the pass over the top level gathers.
pub struct FileScan {
    pub out: Seq<char>,
    /// Whether a block was written
    pub prev_block: bool,
    /// Comments not yet written
    pub pending: Seq<Seq<char>>,
    /// Newlines since the last comment or block
    pub blank: nat,
}

/// The pass over the first `k` top-level children.
pub open spec fn file_scan(cs: Seq<ChildModel>, cfg: FormatConfig, k: nat) -> FileScan
    decreases k,
{
    if k == 0 || k > cs.len() {
        FileScan { out: Seq::empty(), prev_block: false, pending: Seq::empty(), blank: 0 }
    } else {
        let st = file_scan(cs, cfg, (k - 1) as nat);
        match cs[k - 1] {
            ChildModel::Trivia(TriviaModel::LineComment(s)) => FileScan { pending: st.pending.push(s), blank: 0, ..st },
            ChildModel::Trivia(TriviaModel::Newline) => FileScan { blank: st.blank + 1, ..st },
            ChildModel::Node(m) => {
                let gap = if st.prev_block {
                    repeat_char('\n', cfg.blank_lines_between_blocks as nat)
                } else {
                    Seq::empty()
                };
                let comments = if st.pending.len() > 0 {
                    file_comments(st.pending) + (if st.blank > 1 {
                        seq!['\n']
                    } else {
                        Seq::empty()
                    })
                } else {
                    Seq::empty()
                };
                FileScan {
                    out: st.out + gap + comments + fmt_node(m, cfg, 0),
                    prev_block: true,
                    pending: Seq::empty(),
                    blank: 0,
                }
            },
            _ => st,
        }
    }
}

/// A text without its trailing white space (`str::trim_end`).
pub open spec fn trim_end(s: Seq<char>) -> Seq<char> {
    s.take(s.len() - trailing_space(s))
}

/// The text of a file laid out with a given configuration: the top-level
/// blocks and comments, ending in exactly one newline.
pub open spec fn layout(root: NodeModel, cfg: FormatConfig) -> Seq<char> {
    let st = file_scan(root.children, cfg, root.children.len());
    trim_end(st.out + file_comments(st.pending)) + seq!['\n']
}

/// The indentation of the line on which the child at `k` stands, when it
/// starts that line (after a newline, and after the line's whitespace if
/// there is any).
pub open spec fn line_indent(cs: Seq<ChildModel>, k: int) -> Option<Seq<char>> {
    if 1 <= k <= cs.len() {
        match cs[k - 1] {
            ChildModel::Trivia(TriviaModel::Newline) => Some(Seq::empty()),
            ChildModel::Trivia(TriviaModel::Whitespace(w)) => if k >= 2 && cs[k - 2] matches ChildModel::Trivia(
                TriviaModel::Newline,
            ) {
                Some(w)
            } else {
                None
            },
            _ => None,
        }
    } else {
        None
    }
}

/// The indentation of the first attribute, from child `k` on, that starts
/// a line.
pub open spec fn block_indent(cs: Seq<ChildModel>, k: nat) -> Option<Seq<char>>
    decreases cs.len() - k,
{
    if k >= cs.len() {
        None
    } else if cs[k as int] matches ChildModel::Node(a) && a.kind == NodeKind::Attribute && line_indent(cs, k as int) is Some {
        line_indent(cs, k as int)
    } else {
        block_indent(cs, k + 1)
    }
}

/// The indentation of a `let` binding's block, when its value is a
/// resource expression: the first node among the children from `k` on.
pub open spec fn let_indent(cs: Seq<ChildModel>, k: nat) -> Option<Seq<char>>
    decreases cs.len() - k,
{
    if k >= cs.len() {
        None
    } else {
        match cs[k as int] {
            ChildModel::Node(m) => if m.kind == NodeKind::ResourceExpr {
                block_indent(m.children, 0)
            } else {
                None
            },
            _ => let_indent(cs, k + 1),
        }
    }
}

/// The indentation of the first line-starting attribute of a top-level
/// statement.
pub open spec fn node_indent(n: NodeModel) -> Option<Seq<char>> {
    if n.kind == NodeKind::BackendBlock || n.kind == NodeKind::ProviderBlock || n.kind == NodeKind::ModuleCall
        || n.kind == NodeKind::AnonymousResource {
        block_indent(n.children, 0)
    } else if n.kind == NodeKind::LetBinding {
        let_indent(n.children, 0)
    } else {
        None
    }
}

/// The indentation that the file already uses: that of the first attribute
/// that starts a line, in the first top-level statement that has one.
pub open spec fn file_indent(cs: Seq<ChildModel>, k: nat) -> Option<Seq<char>>
    decreases cs.len() - k,
{
    if k >= cs.len() {
        None
    } else if cs[k as int] matches ChildModel::Node(n) && node_indent(n) is Some {
        node_indent(cs[k as int]->Node_0)
    } else {
        file_indent(cs, k + 1)
    }
}

/// Whether a text is one or more spaces.
pub open spec fn all_spaces(w: Seq<char>) -> bool {
    w.len() > 0 && forall|i: int| 0 <= i < w.len() ==> w[i] == ' '
}

/// The configuration a file is laid out with: a file whose attributes are
/// already indented by spaces, or by one tab, keeps that indentation; any
/// other file gets the configured one.
pub open spec fn effective_config(root: NodeModel, cfg: FormatConfig) -> FormatConfig {
    match file_indent(root.children, 0) {
        Some(w) => if all_spaces(w) {
            FormatConfig { indent_size: w.len() as usize, use_tabs: false, ..cfg }
        } else if w == seq!['\t'] {
            FormatConfig { use_tabs: true, ..cfg }
        } else {
            cfg
        },
        None => cfg,
    }
}

/// The formatted text of a file: laid out with the indentation the file
/// already uses, else with the configured one.
pub open spec fn fmt_file(root: NodeModel, cfg: FormatConfig) -> Seq<char> {
    layout(root, effective_config(root, cfg))
}


/// The models of optional comments.
pub open spec fn opt_texts(v: Seq<Option<String>>) -> Seq<Option<Seq<char>>> {
    Seq::new(v.len(), |i: int| opt_str_view(v[i]))
}

/// How many attribute nodes stand among the first `k` children.
pub open spec fn count_attrs(cs: Seq<ChildModel>, k: nat) -> nat
    decreases k,
{
    if k == 0 || k > cs.len() {
        0
    } else {
        count_attrs(cs, (k - 1) as nat) + match cs[k - 1] {
            ChildModel::Node(a) => if a.kind == NodeKind::Attribute {
                1nat
            } else {
                0nat
            },
            _ => 0nat,
        }
    }
}

proof fn lemma_scan_count(cs: Seq<ChildModel>, cfg: FormatConfig, d: nat, k: nat)
    requires
        k <= cs.len(),
    ensures
        block_scan(cs, cfg, d, k).count == count_attrs(cs, k),
        block_scan(cs, cfg, d, k).inline.len() == count_attrs(cs, k),
    decreases k,
{
    if k > 0 {
        lemma_scan_count(cs, cfg, d, (k - 1) as nat);
    }
}

proof fn lemma_attrs_count(
    n: NodeModel,
    cfg: FormatConfig,
    d: nat,
    align: nat,
    inline: Seq<Option<Seq<char>>>,
    k: nat,
)
    requires
        k <= n.children.len(),
    ensures
        attrs_walk(n, cfg, d, align, inline, k).1 == count_attrs(n.children, k),
    decreases k,
{
    if k > 0 {
        lemma_attrs_count(n, cfg, d, align, inline, (k - 1) as nat);
    }
}

proof fn lemma_count_mono(cs: Seq<ChildModel>, j: nat, k: nat)
    requires
        j <= k <= cs.len(),
    ensures
        count_attrs(cs, j) <= count_attrs(cs, k),
    decreases k - j,
{
    if j < k {
        lemma_count_mono(cs, j, (k - 1) as nat);
    }
}

/// Whether a text is an identifier.
pub fn is_identifier_str(s: &str) -> (r: bool)
    ensures
        r == is_identifier(s@),
{
    let v = chars_of(s);
    if v.len() == 0 || !ascii_alpha(v[0]) {
        return false;
    }
    let mut i: usize = 1;
    while i < v.len()
        invariant
            1 <= i <= v.len(),
            v@ == s@,
            forall|j: int| 1 <= j < i ==> is_ident_char(#[trigger] v@[j]),
        decreases v.len() - i,
    {
        if !ident_char(v[i]) {
            return false;
        }
        i += 1;
    }
    true
}

/// The number of characters of a string.
fn char_count(s: &str) -> (r: usize)
    ensures
        r == s@.len(),
{
    let v = chars_of(s);
    v.len()
}

/// Whether a string starts with a double quote.
fn starts_with_quote(s: &str) -> (r: bool)
    ensures
        r == (s@.len() > 0 && s@[0] == '"'),
{
    let v = chars_of(s);
    v.len() > 0 && v[0] == '"'
}

/// Whether a string contains a dot.
fn contains_dot(s: &str) -> (r: bool)
    ensures
        r == has_char(s@, '.'),
{
    let v = chars_of(s);
    let mut i: usize = 0;
    while i < v.len()
        invariant
            i <= v.len(),
            v@ == s@,
            forall|j: int| 0 <= j < i ==> v@[j] != '.',
        decreases v.len() - i,
    {
        if v[i] == '.' {
            return true;
        }
        i += 1;
    }
    false
}

/// The first identifier token other than `kw` among a node's children.
fn find_ident_except<'a>(node: &'a CstNode, kw: &str) -> (r: Option<&'a String>)
    ensures
        match first_ident_except(node@.children, kw@, 0) {
            Some(t) => r matches Some(s) && s@ == t,
            None => r is None,
        },
{
    proof {
        lemma_node_children(*node);
    }
    let mut i: usize = 0;
    while i < node.children.len()
        invariant
            i <= node.children.len(),
            node@.children == crate::formatter::cst::children_view(node.children@),
            first_ident_except(node@.children, kw@, 0) == first_ident_except(node@.children, kw@, i as nat),
        decreases node.children.len() - i,
    {
        match &node.children[i] {
            CstChild::Token(t) => {
                if is_identifier_str(t.text.as_str()) && !str_eq(t.text.as_str(), kw) {
                    return Some(&t.text);
                }
            },
            _ => {},
        }
        i += 1;
    }
    None
}

/// The first token containing a dot among a node's children.
fn find_dotted<'a>(node: &'a CstNode) -> (r: Option<&'a String>)
    ensures
        match first_dotted(node@.children, 0) {
            Some(t) => r matches Some(s) && s@ == t,
            None => r is None,
        },
{
    proof {
        lemma_node_children(*node);
    }
    let mut i: usize = 0;
    while i < node.children.len()
        invariant
            i <= node.children.len(),
            node@.children == crate::formatter::cst::children_view(node.children@),
            first_dotted(node@.children, 0) == first_dotted(node@.children, i as nat),
        decreases node.children.len() - i,
    {
        match &node.children[i] {
            CstChild::Token(t) => {
                if contains_dot(t.text.as_str()) {
                    return Some(&t.text);
                }
            },
            _ => {},
        }
        i += 1;
    }
    None
}

/// The first token starting with a quote among a node's children.
fn find_quoted<'a>(node: &'a CstNode) -> (r: Option<&'a String>)
    ensures
        match first_quoted(node@.children, 0) {
            Some(t) => r matches Some(s) && s@ == t,
            None => r is None,
        },
{
    proof {
        lemma_node_children(*node);
    }
    let mut i: usize = 0;
    while i < node.children.len()
        invariant
            i <= node.children.len(),
            node@.children == crate::formatter::cst::children_view(node.children@),
            first_quoted(node@.children, 0) == first_quoted(node@.children, i as nat),
        decreases node.children.len() - i,
    {
        match &node.children[i] {
            CstChild::Token(t) => {
                if starts_with_quote(t.text.as_str()) {
                    return Some(&t.text);
                }
            },
            _ => {},
        }
        i += 1;
    }
    None
}

/// The length of an attribute's key.
fn attribute_key_len(node: &CstNode) -> (r: usize)
    ensures
        r == key_len(node@),
{
    proof {
        reveal_strlit("");
        assert(""@ =~= Seq::<char>::empty());
    }
    match find_ident_except(node, "") {
        Some(k) => char_count(k.as_str()),
        None => 0,
    }
}

/// Renders a concrete syntax tree.
struct Formatter {
    config: FormatConfig,
    output: String,
    current_indent: usize,
}

impl Formatter {
    fn new(config: FormatConfig) -> (r: Self)
        ensures
            r.config == config,
            r.output@ == Seq::<char>::empty(),
            r.current_indent == 0,
    {
        Formatter { config, output: String::new(), current_indent: 0 }
    }

    fn write(&mut self, s: &str)
        ensures
            final(self).output@ == old(self).output@ + s@,
            final(self).config == old(self).config,
            final(self).current_indent == old(self).current_indent,
    {
        push_str(&mut self.output, s);
    }

    fn write_newline(&mut self)
        ensures
            final(self).output@ == old(self).output@ + seq!['\n'],
            final(self).config == old(self).config,
            final(self).current_indent == old(self).current_indent,
    {
        push_char(&mut self.output, '\n');
    }

    fn write_indent(&mut self)
        ensures
            final(self).output@ == old(self).output@ + indentation(old(self).config, old(self).current_indent as nat),
            final(self).config == old(self).config,
            final(self).current_indent == old(self).current_indent,
    {
        let unit = self.config.indent_string();
        let mut i: usize = 0;
        while i < self.current_indent
            invariant
                i <= self.current_indent,
                self.config == old(self).config,
                self.current_indent == old(self).current_indent,
                unit@ == indent_unit(self.config),
                self.output@ == old(self).output@ + indentation(self.config, i as nat),
            decreases self.current_indent - i,
        {
            push_str(&mut self.output, unit.as_str());
            i += 1;
        }
    }

    /// Writes comments on lines of their own at the current depth.
    fn write_comment_lines(&mut self, comments: &Vec<String>)
        ensures
            final(self).output@ == old(self).output@ + comment_lines(
                strings_view(comments@),
                old(self).config,
                old(self).current_indent as nat,
            ),
            final(self).config == old(self).config,
            final(self).current_indent == old(self).current_indent,
    {
        let ghost cfg = self.config;
        let ghost d = self.current_indent as nat;
        let mut i: usize = 0;
        while i < comments.len()
            invariant
                i <= comments.len(),
                self.config == cfg,
                self.current_indent == d,
                self.output@ == old(self).output@ + comment_lines(strings_view(comments@).take(i as int), cfg, d),
            decreases comments.len() - i,
        {
            self.write_indent();
            self.write(comments[i].as_str());
            self.write_newline();
            proof {
                let ps = strings_view(comments@).take(i + 1);
                assert(ps.drop_last() =~= strings_view(comments@).take(i as int));
            }
            i += 1;
        }
        proof {
            assert(strings_view(comments@).take(comments.len() as int) =~= strings_view(comments@));
        }
    }

    /// Writes top-level comments, each on a line of its own.
    fn write_file_comments(&mut self, comments: &Vec<String>)
        ensures
            final(self).output@ == old(self).output@ + file_comments(strings_view(comments@)),
            final(self).config == old(self).config,
            final(self).current_indent == old(self).current_indent,
    {
        let mut i: usize = 0;
        while i < comments.len()
            invariant
                i <= comments.len(),
                self.config == old(self).config,
                self.current_indent == old(self).current_indent,
                self.output@ == old(self).output@ + file_comments(strings_view(comments@).take(i as int)),
            decreases comments.len() - i,
        {
            self.write(comments[i].as_str());
            self.write_newline();
            proof {
                let ps = strings_view(comments@).take(i + 1);
                assert(ps.drop_last() =~= strings_view(comments@).take(i as int));
            }
            i += 1;
        }
        proof {
            assert(strings_view(comments@).take(comments.len() as int) =~= strings_view(comments@));
        }
    }
}


impl Formatter {
    fn write_char(&mut self, c: char)
        ensures
            final(self).output@ == old(self).output@ + seq![c],
            final(self).config == old(self).config,
            final(self).current_indent == old(self).current_indent,
    {
        push_char(&mut self.output, c);
    }

    fn format_node(&mut self, node: &CstNode)
        ensures
            final(self).output@ == old(self).output@ + fmt_node(node@, old(self).config, old(self).current_indent as nat),
            final(self).config == old(self).config,
            final(self).current_indent == old(self).current_indent,
        decreases node, 4nat,
    {
        match node.kind {
            NodeKind::ImportStmt => self.format_import_stmt(node),
            NodeKind::BackendBlock => self.format_keyword_block(node, "backend"),
            NodeKind::ProviderBlock => self.format_keyword_block(node, "provider"),
            NodeKind::LetBinding => self.format_let_binding(node),
            NodeKind::ModuleCall => self.format_module_call(node),
            NodeKind::AnonymousResource => self.format_anonymous_resource(node),
            NodeKind::ResourceExpr => self.format_resource_expr(node),
            NodeKind::Attribute => {
                let none: Option<String> = None;
                self.format_attribute_aligned(node, 0, &none);
            },
            NodeKind::PipeExpr => self.format_pipe_expr(node),
            NodeKind::FunctionCall => self.format_function_call(node),
            NodeKind::EnvVar => self.format_env_var(node),
            NodeKind::VariableRef => self.format_variable_ref(node),
            NodeKind::List => self.format_list(node),
            _ => self.format_default(node),
        }
    }

    fn format_import_stmt(&mut self, node: &CstNode)
        requires
            node.kind == NodeKind::ImportStmt,
        ensures
            final(self).output@ == old(self).output@ + fmt_node(node@, old(self).config, old(self).current_indent as nat),
            final(self).config == old(self).config,
            final(self).current_indent == old(self).current_indent,
        decreases node, 3nat,
    {
        proof {
            lemma_node_children(*node);
        }
        let ghost cs = node@.children;
        self.write_indent();
        self.write("import ");
        let ghost base = self.output@;
        let mut found_path = false;
        let mut found_as = false;
        let mut done = false;
        let mut i: usize = 0;
        while i < node.children.len()
            invariant
                i <= node.children.len(),
                cs == crate::formatter::cst::children_view(node.children@),
                self.config == old(self).config,
                self.current_indent == old(self).current_indent,
                self.output@ == base + import_walk(cs, i as nat).0,
                found_path == import_walk(cs, i as nat).1,
                found_as == import_walk(cs, i as nat).2,
                done == import_walk(cs, i as nat).3,
            decreases node.children.len() - i,
        {
            if !done {
                match &node.children[i] {
                    CstChild::Token(t) => {
                        let text = t.text.as_str();
                        if str_eq(text, "import") {
                        } else if starts_with_quote(text) && !found_path {
                            self.write(text);
                            found_path = true;
                        } else if str_eq(text, "as") {
                            self.write(" as ");
                            found_as = true;
                        } else if found_as && is_identifier_str(text) {
                            self.write(text);
                            done = true;
                        }
                    },
                    _ => {},
                }
            }
            i += 1;
        }
        self.write_newline();
    }

    /// A `backend` or `provider` block.
    #[verifier::spinoff_prover]
    #[verifier::rlimit(40)]
    fn format_keyword_block(&mut self, node: &CstNode, kw: &str)
        requires
            (kw@ == "backend"@ && node.kind == NodeKind::BackendBlock) || (kw@ == "provider"@ && node.kind
                == NodeKind::ProviderBlock),
        ensures
            final(self).output@ == old(self).output@ + fmt_node(node@, old(self).config, old(self).current_indent as nat),
            final(self).config == old(self).config,
            final(self).current_indent == old(self).current_indent,
        decreases node, 3nat,
    {
        let ghost cfg = self.config;
        let ghost d = self.current_indent as nat;
        let ghost n = node@;
        proof {
            lemma_node_children(*node);
            assert(fmt_node(n, cfg, d) == keyword_block_text(n, cfg, d, kw@));
        }
        let ghost o0 = self.output@;
        self.write_indent();
        self.write(kw);
        self.write_char(' ');
        match find_ident_except(node, kw) {
            Some(t) => self.write(t.as_str()),
            None => {},
        }
        self.write(" {\n");
        let ghost o1 = self.output@;
        assert(o1 == o0 + indentation(cfg, d) + kw@ + seq![' '] + opt_text(first_ident_except(n.children, kw@, 0))
            + " {\n"@);
        let saved = self.current_indent;
        if self.current_indent < usize::MAX {
            self.current_indent = self.current_indent + 1;
        }
        self.format_block_attributes(node);
        let ghost o2 = self.output@;
        assert(o2 == o1 + block_text(n, cfg, deeper(d)));
        self.current_indent = saved;
        self.write_indent();
        self.write("}\n");
        assert(self.output@ =~= o0 + keyword_block_text(n, cfg, d, kw@));
    }

    fn format_module_call(&mut self, node: &CstNode)
        requires
            node.kind == NodeKind::ModuleCall,
        ensures
            final(self).output@ == old(self).output@ + fmt_node(node@, old(self).config, old(self).current_indent as nat),
            final(self).config == old(self).config,
            final(self).current_indent == old(self).current_indent,
        decreases node, 3nat,
    {
        proof {
            reveal_strlit("");
            assert(""@ =~= Seq::<char>::empty());
        }
        self.write_indent();
        match find_ident_except(node, "") {
            Some(t) => self.write(t.as_str()),
            None => {},
        }
        self.write(" {\n");
        let saved = self.current_indent;
        if self.current_indent < usize::MAX {
            self.current_indent = self.current_indent + 1;
        }
        self.format_block_attributes(node);
        self.current_indent = saved;
        self.write_indent();
        self.write("}\n");
    }

    fn format_anonymous_resource(&mut self, node: &CstNode)
        requires
            node.kind == NodeKind::AnonymousResource,
        ensures
            final(self).output@ == old(self).output@ + fmt_node(node@, old(self).config, old(self).current_indent as nat),
            final(self).config == old(self).config,
            final(self).current_indent == old(self).current_indent,
        decreases node, 3nat,
    {
        self.write_indent();
        match find_dotted(node) {
            Some(t) => self.write(t.as_str()),
            None => {},
        }
        self.write(" {\n");
        let saved = self.current_indent;
        if self.current_indent < usize::MAX {
            self.current_indent = self.current_indent + 1;
        }
        self.format_block_attributes(node);
        self.current_indent = saved;
        self.write_indent();
        self.write("}\n");
    }

    fn format_resource_expr(&mut self, node: &CstNode)
        requires
            node.kind == NodeKind::ResourceExpr,
        ensures
            final(self).output@ == old(self).output@ + fmt_node(node@, old(self).config, old(self).current_indent as nat),
            final(self).config == old(self).config,
            final(self).current_indent == old(self).current_indent,
        decreases node, 3nat,
    {
        match find_dotted(node) {
            Some(t) => self.write(t.as_str()),
            None => {},
        }
        self.write(" {\n");
        let saved = self.current_indent;
        if self.current_indent < usize::MAX {
            self.current_indent = self.current_indent + 1;
        }
        self.format_block_attributes(node);
        self.current_indent = saved;
        self.write_indent();
        self.write("}");
    }

    fn format_let_binding(&mut self, node: &CstNode)
        requires
            node.kind == NodeKind::LetBinding,
        ensures
            final(self).output@ == old(self).output@ + fmt_node(node@, old(self).config, old(self).current_indent as nat),
            final(self).config == old(self).config,
            final(self).current_indent == old(self).current_indent,
        decreases node, 3nat,
    {
        proof {
            lemma_node_children(*node);
        }
        let ghost n = node@;
        let ghost cfg = self.config;
        let ghost d = self.current_indent as nat;
        self.write_indent();
        self.write("let ");
        let ghost base = self.output@;
        let mut found_name = false;
        let mut found_eq = false;
        let mut i: usize = 0;
        while i < node.children.len()
            invariant
                i <= node.children.len(),
                n == node@,
                n.children == crate::formatter::cst::children_view(node.children@),
                self.config == cfg,
                self.current_indent == d,
                self.output@ == base + let_walk(n, cfg, d, i as nat).0,
                found_name == let_walk(n, cfg, d, i as nat).1,
                found_eq == let_walk(n, cfg, d, i as nat).2,
            decreases node.children.len() - i,
        {
            match &node.children[i] {
                CstChild::Token(t) => {
                    let text = t.text.as_str();
                    if str_eq(text, "let") {
                    } else if str_eq(text, "=") {
                        self.write(" = ");
                        found_eq = true;
                    } else if !found_name && is_identifier_str(text) {
                        self.write(text);
                        found_name = true;
                    } else if found_eq {
                        self.write(text);
                    }
                },
                CstChild::Node(m) => {
                    if found_eq {
                        self.format_node(m);
                    }
                },
                CstChild::Trivia(_) => {},
            }
            i += 1;
        }
        self.write_newline();
    }
}


impl Formatter {
    /// The attributes and comments of a block; the current depth is that of
    /// the block's contents.
    fn format_block_attributes(&mut self, node: &CstNode)
        ensures
            final(self).output@ == old(self).output@ + block_text(node@, old(self).config, old(self).current_indent as nat),
            final(self).config == old(self).config,
            final(self).current_indent == old(self).current_indent,
        decreases node, 2nat,
    {
        proof {
            lemma_node_children(*node);
        }
        let ghost n = node@;
        let ghost cs = n.children;
        let ghost cfg = self.config;
        let ghost d = self.current_indent as nat;
        let ghost base = self.output@;
        let mut count: usize = 0;
        let mut inline: Vec<Option<String>> = Vec::new();
        let mut pending: Vec<String> = Vec::new();
        let mut max_key: usize = 0;
        let mut i: usize = 0;
        while i < node.children.len()
            invariant
                i <= node.children.len(),
                n == node@,
                cs == n.children,
                cs == crate::formatter::cst::children_view(node.children@),
                self.config == cfg,
                self.current_indent == d,
                count <= i,
                self.output@ == base + block_scan(cs, cfg, d, i as nat).out,
                count == block_scan(cs, cfg, d, i as nat).count,
                opt_texts(inline@) == block_scan(cs, cfg, d, i as nat).inline,
                strings_view(pending@) == block_scan(cs, cfg, d, i as nat).pending,
                max_key == block_scan(cs, cfg, d, i as nat).max_key,
            decreases node.children.len() - i,
        {
            proof {
                lemma_scan_count(cs, cfg, d, i as nat);
            }
            match &node.children[i] {
                CstChild::Node(a) => {
                    if a.kind == NodeKind::Attribute {
                        self.write_comment_lines(&pending);
                        pending = Vec::new();
                        count = count + 1;
                        let ghost before = inline@;
                        inline.push(None);
                        let k = attribute_key_len(a);
                        if k > max_key {
                            max_key = k;
                        }
                        proof {
                            assert(opt_texts(inline@) =~= opt_texts(before).push(None));
                            assert(strings_view(pending@) =~= Seq::<Seq<char>>::empty());
                        }
                    }
                },
                CstChild::Trivia(Trivia::LineComment(c)) => {
                    if count > 0 && char_count(c.as_str()) > 0 {
                        let ghost before = inline@;
                        inline.set(count - 1, Some(c.clone()));
                        proof {
                            assert(opt_texts(inline@) =~= opt_texts(before).update(count - 1, Some(c@)));
                        }
                    } else {
                        let ghost before = pending@;
                        pending.push(c.clone());
                        proof {
                            assert(strings_view(pending@) =~= strings_view(before).push(c@));
                        }
                    }
                },
                _ => {},
            }
            i += 1;
        }
        let ghost st = block_scan(cs, cfg, d, cs.len());
        let align = if self.config.align_attributes {
            max_key
        } else {
            0
        };
        proof {
            lemma_scan_count(cs, cfg, d, cs.len());
        }
        let ghost mid = self.output@;
        let mut idx: usize = 0;
        let mut j: usize = 0;
        while j < node.children.len()
            invariant
                j <= node.children.len(),
                n == node@,
                cs == n.children,
                cs == crate::formatter::cst::children_view(node.children@),
                self.config == cfg,
                self.current_indent == d,
                opt_texts(inline@) == st.inline,
                inline.len() == count_attrs(cs, cs.len()),
                self.output@ == mid + attrs_walk(n, cfg, d, align as nat, st.inline, j as nat).0,
                idx == attrs_walk(n, cfg, d, align as nat, st.inline, j as nat).1,
            decreases node.children.len() - j,
        {
            proof {
                lemma_attrs_count(n, cfg, d, align as nat, st.inline, j as nat);
                lemma_count_mono(cs, (j + 1) as nat, cs.len());
            }
            match &node.children[j] {
                CstChild::Node(a) => {
                    if a.kind == NodeKind::Attribute {
                        assert(count_attrs(cs, (j + 1) as nat) == count_attrs(cs, j as nat) + 1);
                        self.format_attribute_aligned(a, align, &inline[idx]);
                        idx = idx + 1;
                    }
                },
                _ => {},
            }
            j += 1;
        }
        self.write_comment_lines(&pending);
    }

    /// One attribute on a line of its own, its key padded to `align`
    /// characters, with its trailing comment.
    fn format_attribute_aligned(&mut self, node: &CstNode, align: usize, inline: &Option<String>)
        ensures
            final(self).output@ == old(self).output@ + attr_line(
                node@,
                old(self).config,
                old(self).current_indent as nat,
                align as nat,
                opt_str_view(*inline),
            ),
            final(self).config == old(self).config,
            final(self).current_indent == old(self).current_indent,
        decreases node, 2nat,
    {
        proof {
            lemma_node_children(*node);
        }
        let ghost n = node@;
        let ghost cfg = self.config;
        let ghost d = self.current_indent as nat;
        self.write_indent();
        let ghost base = self.output@;
        let mut wrote_key = false;
        let mut wrote_eq = false;
        let mut i: usize = 0;
        while i < node.children.len()
            invariant
                i <= node.children.len(),
                n == node@,
                n.children == crate::formatter::cst::children_view(node.children@),
                self.config == cfg,
                self.current_indent == d,
                self.output@ == base + attr_walk(n, cfg, d, align as nat, i as nat).0,
                wrote_key == attr_walk(n, cfg, d, align as nat, i as nat).1,
                wrote_eq == attr_walk(n, cfg, d, align as nat, i as nat).2,
            decreases node.children.len() - i,
        {
            match &node.children[i] {
                CstChild::Token(t) => {
                    let text = t.text.as_str();
                    if !wrote_key && is_identifier_str(text) {
                        let key_len = char_count(text);
                        self.write(text);
                        wrote_key = true;
                        if align > 0 && key_len < align {
                            push_repeated(&mut self.output, ' ', align - key_len);
                        }
                    } else if str_eq(text, "=") && !wrote_eq {
                        self.write(" = ");
                        wrote_eq = true;
                    } else if wrote_eq {
                        self.write(text);
                    }
                },
                CstChild::Node(m) => {
                    if wrote_eq {
                        self.format_node(m);
                    }
                },
                CstChild::Trivia(_) => {},
            }
            i += 1;
        }
        match inline {
            Some(c) => {
                self.write("  ");
                self.write(c.as_str());
            },
            None => {},
        }
        self.write_newline();
    }

    fn format_pipe_expr(&mut self, node: &CstNode)
        requires
            node.kind == NodeKind::PipeExpr,
        ensures
            final(self).output@ == old(self).output@ + fmt_node(node@, old(self).config, old(self).current_indent as nat),
            final(self).config == old(self).config,
            final(self).current_indent == old(self).current_indent,
        decreases node, 2nat,
    {
        proof {
            lemma_node_children(*node);
        }
        let ghost n = node@;
        let ghost cfg = self.config;
        let ghost d = self.current_indent as nat;
        let ghost base = self.output@;
        let mut i: usize = 0;
        while i < node.children.len()
            invariant
                i <= node.children.len(),
                n == node@,
                n.children == crate::formatter::cst::children_view(node.children@),
                self.config == cfg,
                self.current_indent == d,
                self.output@ == base + pipe_walk(n, cfg, d, i as nat),
            decreases node.children.len() - i,
        {
            match &node.children[i] {
                CstChild::Token(t) => {
                    if str_eq(t.text.as_str(), "|>") {
                        self.write(" |> ");
                    } else {
                        self.write(t.text.as_str());
                    }
                },
                CstChild::Node(m) => {
                    self.format_node(m);
                },
                CstChild::Trivia(_) => {},
            }
            i += 1;
        }
    }

    fn format_function_call(&mut self, node: &CstNode)
        requires
            node.kind == NodeKind::FunctionCall,
        ensures
            final(self).output@ == old(self).output@ + fmt_node(node@, old(self).config, old(self).current_indent as nat),
            final(self).config == old(self).config,
            final(self).current_indent == old(self).current_indent,
        decreases node, 2nat,
    {
        proof {
            lemma_node_children(*node);
        }
        let ghost n = node@;
        let ghost cfg = self.config;
        let ghost d = self.current_indent as nat;
        let ghost base = self.output@;
        let mut in_args = false;
        let mut i: usize = 0;
        while i < node.children.len()
            invariant
                i <= node.children.len(),
                n == node@,
                n.children == crate::formatter::cst::children_view(node.children@),
                self.config == cfg,
                self.current_indent == d,
                self.output@ == base + call_walk(n, cfg, d, i as nat).0,
                in_args == call_walk(n, cfg, d, i as nat).1,
            decreases node.children.len() - i,
        {
            match &node.children[i] {
                CstChild::Token(t) => {
                    let text = t.text.as_str();
                    if str_eq(text, "(") {
                        self.write("(");
                        in_args = true;
                    } else if str_eq(text, ")") {
                        self.write(")");
                        in_args = false;
                    } else if str_eq(text, ",") {
                        self.write(", ");
                    } else {
                        self.write(text);
                    }
                },
                CstChild::Node(m) => {
                    if in_args {
                        self.format_node(m);
                    }
                },
                CstChild::Trivia(_) => {},
            }
            i += 1;
        }
    }

    fn format_env_var(&mut self, node: &CstNode)
        requires
            node.kind == NodeKind::EnvVar,
        ensures
            final(self).output@ == old(self).output@ + fmt_node(node@, old(self).config, old(self).current_indent as nat),
            final(self).config == old(self).config,
            final(self).current_indent == old(self).current_indent,
        decreases node, 2nat,
    {
        self.write("env(");
        match find_quoted(node) {
            Some(t) => self.write(t.as_str()),
            None => {},
        }
        self.write(")");
    }

    fn format_variable_ref(&mut self, node: &CstNode)
        requires
            node.kind == NodeKind::VariableRef,
        ensures
            final(self).output@ == old(self).output@ + fmt_node(node@, old(self).config, old(self).current_indent as nat),
            final(self).config == old(self).config,
            final(self).current_indent == old(self).current_indent,
        decreases node, 2nat,
    {
        proof {
            lemma_node_children(*node);
        }
        let ghost cs = node@.children;
        let mut parts: Vec<Vec<char>> = Vec::new();
        let mut i: usize = 0;
        while i < node.children.len()
            invariant
                i <= node.children.len(),
                cs == crate::formatter::cst::children_view(node.children@),
                views(parts@) == ident_parts(cs, i as nat),
            decreases node.children.len() - i,
        {
            match &node.children[i] {
                CstChild::Token(t) => {
                    if is_identifier_str(t.text.as_str()) {
                        let ghost before = parts@;
                        parts.push(chars_of(t.text.as_str()));
                        proof {
                            assert(views(parts@) =~= views(before).push(t.text@));
                        }
                    }
                },
                _ => {},
            }
            i += 1;
        }
        let mut sep: Vec<char> = Vec::new();
        sep.push('.');
        let joined = join_chars(parts.as_slice(), sep.as_slice());
        proof {
            assert(sep@ =~= seq!['.']);
        }
        push_chars(&mut self.output, joined.as_slice());
    }

    fn format_list(&mut self, node: &CstNode)
        requires
            node.kind == NodeKind::List,
        ensures
            final(self).output@ == old(self).output@ + fmt_node(node@, old(self).config, old(self).current_indent as nat),
            final(self).config == old(self).config,
            final(self).current_indent == old(self).current_indent,
        decreases node, 2nat,
    {
        proof {
            lemma_node_children(*node);
        }
        let ghost n = node@;
        let ghost cfg = self.config;
        let ghost d = self.current_indent as nat;
        self.write("[");
        let ghost base = self.output@;
        let mut first = true;
        let mut i: usize = 0;
        while i < node.children.len()
            invariant
                i <= node.children.len(),
                n == node@,
                n.children == crate::formatter::cst::children_view(node.children@),
                self.config == cfg,
                self.current_indent == d,
                self.output@ == base + list_walk(n, cfg, d, i as nat).0,
                first == list_walk(n, cfg, d, i as nat).1,
            decreases node.children.len() - i,
        {
            match &node.children[i] {
                CstChild::Token(t) => {
                    let text = t.text.as_str();
                    if str_eq(text, "[") || str_eq(text, "]") || str_eq(text, ",") {
                    } else {
                        if !first {
                            self.write(", ");
                        }
                        self.write(text);
                        first = false;
                    }
                },
                CstChild::Node(m) => {
                    if !first {
                        self.write(", ");
                    }
                    self.format_node(m);
                    first = false;
                },
                CstChild::Trivia(_) => {},
            }
            i += 1;
        }
        self.write("]");
    }

    fn format_default(&mut self, node: &CstNode)
        ensures
            final(self).output@ == old(self).output@ + default_walk(
                node@,
                old(self).config,
                old(self).current_indent as nat,
                node@.children.len(),
            ),
            final(self).config == old(self).config,
            final(self).current_indent == old(self).current_indent,
        decreases node, 2nat,
    {
        proof {
            lemma_node_children(*node);
        }
        let ghost n = node@;
        let ghost cfg = self.config;
        let ghost d = self.current_indent as nat;
        let ghost base = self.output@;
        let mut i: usize = 0;
        while i < node.children.len()
            invariant
                i <= node.children.len(),
                n == node@,
                n.children == crate::formatter::cst::children_view(node.children@),
                self.config == cfg,
                self.current_indent == d,
                self.output@ == base + default_walk(n, cfg, d, i as nat),
            decreases node.children.len() - i,
        {
            match &node.children[i] {
                CstChild::Token(t) => {
                    self.write(t.text.as_str());
                },
                CstChild::Node(m) => {
                    self.format_node(m);
                },
                CstChild::Trivia(_) => {},
            }
            i += 1;
        }
    }
}


impl Formatter {
    fn format_file(&mut self, node: &CstNode)
        requires
            old(self).output@ == Seq::<char>::empty(),
            old(self).current_indent == 0,
        ensures
            final(self).output@ == layout(node@, old(self).config),
    {
        proof {
            lemma_node_children(*node);
        }
        let ghost cs = node@.children;
        let ghost cfg = self.config;
        let mut prev_block = false;
        let mut pending: Vec<String> = Vec::new();
        let mut blank: usize = 0;
        let mut i: usize = 0;
        while i < node.children.len()
            invariant
                i <= node.children.len(),
                cs == node@.children,
                cs == crate::formatter::cst::children_view(node.children@),
                self.config == cfg,
                self.current_indent == 0,
                blank <= i,
                self.output@ == file_scan(cs, cfg, i as nat).out,
                prev_block == file_scan(cs, cfg, i as nat).prev_block,
                strings_view(pending@) == file_scan(cs, cfg, i as nat).pending,
                blank == file_scan(cs, cfg, i as nat).blank,
            decreases node.children.len() - i,
        {
            match &node.children[i] {
                CstChild::Trivia(Trivia::LineComment(c)) => {
                    let ghost before = pending@;
                    pending.push(c.clone());
                    proof {
                        assert(strings_view(pending@) =~= strings_view(before).push(c@));
                    }
                    blank = 0;
                },
                CstChild::Trivia(Trivia::Newline) => {
                    blank = blank + 1;
                },
                CstChild::Node(m) => {
                    if prev_block {
                        push_repeated(&mut self.output, '\n', self.config.blank_lines_between_blocks);
                    }
                    if pending.len() > 0 {
                        self.write_file_comments(&pending);
                        if blank > 1 {
                            self.write_newline();
                        }
                    }
                    pending = Vec::new();
                    proof {
                        assert(strings_view(pending@) =~= Seq::<Seq<char>>::empty());
                    }
                    self.format_node(m);
                    prev_block = true;
                    blank = 0;
                },
                _ => {},
            }
            i += 1;
        }
        self.write_file_comments(&pending);
        let v = chars_of(self.output.as_str());
        let t = count_trailing_space(v.as_slice());
        proof {
            crate::text::lemma_trailing_space_bound(v@);
        }
        let kept = slice_chars(v.as_slice(), 0, v.len() - t);
        proof {
            assert(kept@ =~= trim_end(v@));
        }
        let mut out = crate::text::string_of(kept.as_slice());
        push_char(&mut out, '\n');
        self.output = out;
    }
}

/// Format a concrete syntax tree.
pub fn format_cst(cst: &Cst, config: &FormatConfig) -> (r: String)
    ensures
        r@ == fmt_file(cst.root@, *config),
{
    let eff = effective_config_of(&cst.root, config);
    let mut f = Formatter::new(eff);
    f.format_file(&cst.root);
    f.output
}

fn line_indent_at(cs: &Vec<CstChild>, k: usize) -> (r: Option<Vec<char>>)
    ensures
        match line_indent(crate::formatter::cst::children_view(cs@), k as int) {
            Some(w) => r matches Some(v) && v@ == w,
            None => r is None,
        },
{
    if k < 1 || k > cs.len() {
        return None;
    }
    match &cs[k - 1] {
        CstChild::Trivia(Trivia::Newline) => {
            let v: Vec<char> = Vec::new();
            proof {
                assert(v@ =~= Seq::<char>::empty());
            }
            Some(v)
        },
        CstChild::Trivia(Trivia::Whitespace(w)) => {
            if k >= 2 {
                match &cs[k - 2] {
                    CstChild::Trivia(Trivia::Newline) => Some(chars_of(w.as_str())),
                    _ => None,
                }
            } else {
                None
            }
        },
        _ => None,
    }
}

fn block_indent_of(cs: &Vec<CstChild>) -> (r: Option<Vec<char>>)
    ensures
        match block_indent(crate::formatter::cst::children_view(cs@), 0) {
            Some(w) => r matches Some(v) && v@ == w,
            None => r is None,
        },
{
    let ghost m = crate::formatter::cst::children_view(cs@);
    let mut k: usize = 0;
    while k < cs.len()
        invariant
            k <= cs.len(),
            m == crate::formatter::cst::children_view(cs@),
            block_indent(m, 0) == block_indent(m, k as nat),
        decreases cs.len() - k,
    {
        match &cs[k] {
            CstChild::Node(a) => {
                if a.kind == NodeKind::Attribute {
                    let li = line_indent_at(cs, k);
                    if li.is_some() {
                        return li;
                    }
                }
            },
            _ => {},
        }
        k += 1;
    }
    None
}

fn let_indent_of(cs: &Vec<CstChild>) -> (r: Option<Vec<char>>)
    ensures
        match let_indent(crate::formatter::cst::children_view(cs@), 0) {
            Some(w) => r matches Some(v) && v@ == w,
            None => r is None,
        },
{
    let ghost m = crate::formatter::cst::children_view(cs@);
    let mut k: usize = 0;
    while k < cs.len()
        invariant
            k <= cs.len(),
            m == crate::formatter::cst::children_view(cs@),
            let_indent(m, 0) == let_indent(m, k as nat),
        decreases cs.len() - k,
    {
        match &cs[k] {
            CstChild::Node(n) => {
                proof {
                    lemma_node_children(*n);
                }
                if n.kind == NodeKind::ResourceExpr {
                    return block_indent_of(&n.children);
                } else {
                    return None;
                }
            },
            _ => {},
        }
        k += 1;
    }
    None
}

fn node_indent_of(n: &CstNode) -> (r: Option<Vec<char>>)
    ensures
        match node_indent(n@) {
            Some(w) => r matches Some(v) && v@ == w,
            None => r is None,
        },
{
    proof {
        lemma_node_children(*n);
    }
    if n.kind == NodeKind::BackendBlock || n.kind == NodeKind::ProviderBlock || n.kind == NodeKind::ModuleCall
        || n.kind == NodeKind::AnonymousResource {
        block_indent_of(&n.children)
    } else if n.kind == NodeKind::LetBinding {
        let_indent_of(&n.children)
    } else {
        None
    }
}

/// The configuration a tree is laid out with.
fn effective_config_of(root: &CstNode, cfg: &FormatConfig) -> (r: FormatConfig)
    ensures
        r == effective_config(root@, *cfg),
{
    proof {
        lemma_node_children(*root);
    }
    let ghost m = root@.children;
    let mut found: Option<Vec<char>> = None;
    let mut k: usize = 0;
    while k < root.children.len()
        invariant_except_break
            found is None,
        invariant
            k <= root.children.len(),
            m == root@.children,
            m == crate::formatter::cst::children_view(root.children@),
            file_indent(m, 0) == file_indent(m, k as nat),
        ensures
            match file_indent(m, 0) {
                Some(w) => found matches Some(v) && v@ == w,
                None => found is None,
            },
        decreases root.children.len() - k,
    {
        match &root.children[k] {
            CstChild::Node(n) => {
                let ni = node_indent_of(n);
                if ni.is_some() {
                    found = ni;
                    break;
                }
            },
            _ => {},
        }
        k += 1;
    }
    match found {
        Some(w) => {
            let mut spaces = w.len() > 0;
            let mut i: usize = 0;
            while i < w.len()
                invariant
                    i <= w.len(),
                    spaces == (w@.len() > 0 && forall|j: int| 0 <= j < i ==> w@[j] == ' '),
                decreases w.len() - i,
            {
                if w[i] != ' ' {
                    spaces = false;
                }
                i += 1;
            }
            if spaces {
                FormatConfig { indent_size: w.len(), use_tabs: false, ..*cfg }
            } else if w.len() == 1 && w[0] == '\t' {
                proof {
                    assert(w@ =~= seq!['\t']);
                }
                FormatConfig { use_tabs: true, ..*cfg }
            } else {
                proof {
                    if w@ == seq!['\t'] {
                        assert(w@[0] == '\t');
                    }
                }
                *cfg
            }
        },
        None => *cfg,
    }
}

/// Format a .crn file
pub fn format(source: &str, config: &FormatConfig) -> (r: Result<String, FormatParseError>)
    requires
        crate::text::byte_len(source@) < usize::MAX,
    ensures
        match fmt_cst_opt(source@) {
            Some(c) => r matches Ok(f) && f@ == fmt_file(c, *config),
            None => r is Err,
        },
{
    match parse_fmt(source) {
        Ok(cst) => Ok(format_cst(&cst, config)),
        Err(e) => Err(e),
    }
}

/// Check if a file needs formatting
pub fn needs_format(source: &str, config: &FormatConfig) -> (r: Result<bool, FormatParseError>)
    requires
        crate::text::byte_len(source@) < usize::MAX,
    ensures
        r is Err <==> !fmt_parses(source@),
        r matches Ok(b) ==> b == (fmt_file(fmt_cst(source@), *config) != source@),
{
    match format(source, config) {
        Ok(formatted) => Ok(!str_eq(formatted.as_str(), source)),
        Err(e) => Err(e),
    }
}

} // verus!
