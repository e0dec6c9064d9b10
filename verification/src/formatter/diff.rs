//! Line differences between a file and its formatted text, as `carina fmt
//! --diff` shows them.

use vstd::prelude::*;

use similar::{ChangeTag, TextDiff};

use crate::cli::{nl, piece, styled_view, Style, Styled};

verus! {

/// What a line of a diff does.
#[derive(Debug, Clone, Copy, PartialEq, Eq, Structural)]
pub enum ChangeKind {
    /// The line is only in the old text
    Delete,
    /// The line is only in the new text
    Insert,
    /// The line is in both texts
    Equal,
}

/// The models of diff lines.
pub open spec fn changes_view(v: Seq<(ChangeKind, String)>) -> Seq<(ChangeKind, Seq<char>)> {
    Seq::new(v.len(), |i: int| (v[i].0, v[i].1@))
}

/// The line changes that `similar::TextDiff::from_lines` finds between two
/// texts, each with its line (the line keeps its line feed, if it has one).
pub uninterp spec fn line_changes(old: Seq<char>, new: Seq<char>) -> Seq<(ChangeKind, Seq<char>)>;

/// Calls `similar::TextDiff::from_lines` and `iter_all_changes`: the line
/// diff of two texts (Myers' algorithm, no deadline), each change with its
/// tag and its line. The contract names the result; it states nothing of
/// how the lines relate to the two texts.
#[verifier::external_body]
fn text_diff_lines(old: &str, new: &str) -> (r: Vec<(ChangeKind, String)>)
    ensures
        changes_view(r@) == line_changes(old@, new@),
{
    let diff = TextDiff::from_lines(old, new);
    let mut out = Vec::new();
    for change in diff.iter_all_changes() {
        let kind = match change.tag() {
            ChangeTag::Delete => ChangeKind::Delete,
            ChangeTag::Insert => ChangeKind::Insert,
            ChangeTag::Equal => ChangeKind::Equal,
        };
        out.push((kind, change.value().to_string()));
    }
    out
}

/// The sign of a diff line and its style.
pub open spec fn sign(k: ChangeKind) -> Seq<(Seq<char>, Style)> {
    match k {
        ChangeKind::Delete => piece("-"@, Style::Red),
        ChangeKind::Insert => piece("+"@, Style::Green),
        ChangeKind::Equal => piece(" "@, Style::Plain),
    }
}

/// The shown lines of the first `k` changes: the sign, the line, and a line
/// feed where the line lacks one.
pub open spec fn change_lines(cs: Seq<(ChangeKind, Seq<char>)>, k: nat) -> Seq<(Seq<char>, Style)>
    decreases k,
{
    if k == 0 || k > cs.len() {
        Seq::empty()
    } else {
        let (kind, line) = cs[k - 1];
        change_lines(cs, (k - 1) as nat) + sign(kind) + piece(line, Style::Plain) + if line.len() > 0
            && line.last() == '\n' {
            Seq::empty()
        } else {
            nl()
        }
    }
}

/// The diff of a file: a heading, then the lines of the changes.
pub open spec fn diff_text(file: Seq<char>, cs: Seq<(ChangeKind, Seq<char>)>) -> Seq<(Seq<char>, Style)> {
    nl() + piece("Diff for"@, Style::CyanBold) + piece(" "@ + file + ":"@, Style::Plain) + nl() + change_lines(
        cs,
        cs.len(),
    )
}

/// The shown lines of a list of changes.
pub fn show_changes(changes: &Vec<(ChangeKind, String)>) -> (r: Vec<Styled>)
    ensures
        styled_view(r@) == change_lines(changes_view(changes@), changes.len() as nat),
{
    let ghost cs = changes_view(changes@);
    let mut out: Vec<Styled> = Vec::new();
    let mut i: usize = 0;
    proof {
        assert(styled_view(out@) =~= Seq::<(Seq<char>, Style)>::empty());
    }
    while i < changes.len()
        invariant
            i <= changes.len(),
            cs == changes_view(changes@),
            styled_view(out@) == change_lines(cs, i as nat),
        decreases changes.len() - i,
    {
        let kind = changes[i].0;
        let line = &changes[i].1;
        let ghost before = styled_view(out@);
        let s = match kind {
            ChangeKind::Delete => Styled { text: crate::text::str_to_string("-"), style: Style::Red },
            ChangeKind::Insert => Styled { text: crate::text::str_to_string("+"), style: Style::Green },
            ChangeKind::Equal => Styled { text: crate::text::str_to_string(" "), style: Style::Plain },
        };
        out.push(s);
        out.push(Styled { text: line.clone(), style: Style::Plain });
        let v = crate::text::chars_of(line.as_str());
        let ends_nl = v.len() > 0 && v[v.len() - 1] == '\n';
        if !ends_nl {
            out.push(Styled { text: crate::text::str_to_string("\n"), style: Style::Plain });
        }
        proof {
            let ext = if line@.len() > 0 && line@.last() == '\n' {
                Seq::<(Seq<char>, Style)>::empty()
            } else {
                nl()
            };
            assert(styled_view(out@) =~= before + sign(kind) + piece(line@, Style::Plain) + ext);
        }
        i += 1;
    }
    out
}

/// What `carina fmt --diff` shows for a file whose text changes from
/// `original` to `formatted`.
pub fn diff_display(file: &str, original: &str, formatted: &str) -> (r: Vec<Styled>)
    ensures
        styled_view(r@) == diff_text(file@, line_changes(original@, formatted@)),
{
    let changes = text_diff_lines(original, formatted);
    let mut out: Vec<Styled> = Vec::new();
    out.push(Styled { text: crate::text::str_to_string("\n"), style: Style::Plain });
    out.push(Styled { text: crate::text::str_to_string("Diff for"), style: Style::CyanBold });
    let mut head = crate::text::str_to_string(" ");
    crate::text::push_str(&mut head, file);
    crate::text::push_str(&mut head, ":");
    out.push(Styled { text: head, style: Style::Plain });
    out.push(Styled { text: crate::text::str_to_string("\n"), style: Style::Plain });
    let lines = show_changes(&changes);
    let ghost before = styled_view(out@);
    let mut lines = lines;
    let ghost lv = styled_view(lines@);
    out.append(&mut lines);
    proof {
        assert(styled_view(out@) =~= before + lv);
        assert(before =~= nl() + piece("Diff for"@, Style::CyanBold) + piece(" "@ + file@ + ":"@, Style::Plain) + nl());
    }
    out
}

} // verus!
