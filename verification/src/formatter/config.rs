//! Formatting configuration.

use vstd::prelude::*;

use crate::text::push_char;

verus! {

/// Formatting options
#[derive(Debug, Clone, Copy)]
pub struct FormatConfig {
    /// Number of spaces for indentation (default: 4)
    pub indent_size: usize,
    /// Use tabs instead of spaces for indentation
    pub use_tabs: bool,
    /// Number of blank lines between top-level blocks (default: 1)
    pub blank_lines_between_blocks: usize,
    /// Align attribute values in a block
    pub align_attributes: bool,
}

impl Default for FormatConfig {
    fn default() -> (r: Self)
        ensures
            r.indent_size == 4,
            !r.use_tabs,
            r.blank_lines_between_blocks == 1,
            r.align_attributes,
    {
        FormatConfig { indent_size: 4, use_tabs: false, blank_lines_between_blocks: 1, align_attributes: true }
    }
}

/// `n` copies of a character.
pub open spec fn repeat_char(c: char, n: nat) -> Seq<char> {
    Seq::new(n, |i: int| c)
}

/// One level of indentation: a tab, or `indent_size` spaces.
pub open spec fn indent_unit(cfg: FormatConfig) -> Seq<char> {
    if cfg.use_tabs {
        seq!['\t']
    } else {
        repeat_char(' ', cfg.indent_size as nat)
    }
}

/// A text repeated `n` times.
pub open spec fn repeat_text(s: Seq<char>, n: nat) -> Seq<char>
    decreases n,
{
    if n == 0 {
        Seq::empty()
    } else {
        repeat_text(s, (n - 1) as nat) + s
    }
}

/// `n` levels of indentation.
pub open spec fn indentation(cfg: FormatConfig, n: nat) -> Seq<char> {
    repeat_text(indent_unit(cfg), n)
}

/// Appends `n` copies of a character.
pub fn push_repeated(out: &mut String, c: char, n: usize)
    ensures
        final(out)@ == old(out)@ + repeat_char(c, n as nat),
{
    let mut i: usize = 0;
    while i < n
        invariant
            i <= n,
            out@ == old(out)@ + repeat_char(c, i as nat),
        decreases n - i,
    {
        push_char(out, c);
        i += 1;
        proof {
            assert(out@ =~= old(out)@ + repeat_char(c, i as nat));
        }
    }
}

impl FormatConfig {
    /// Get the string to use for a single level of indentation
    pub fn indent_string(&self) -> (r: String)
        ensures
            r@ == indent_unit(*self),
    {
        let mut s = String::new();
        if self.use_tabs {
            push_char(&mut s, '\t');
            proof {
                assert(s@ =~= seq!['\t']);
            }
        } else {
            push_repeated(&mut s, ' ', self.indent_size);
            proof {
                assert(s@ =~= repeat_char(' ', self.indent_size as nat));
            }
        }
        s
    }
}

} // verus!
