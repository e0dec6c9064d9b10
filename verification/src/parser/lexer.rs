//! Lexer for `.crn` files: turns text into words, strings, numbers and
//! punctuation, skipping whitespace and comments (`#` or `//` to the end of
//! the line).
//!
//! A word is an identifier (`[A-Za-z_][A-Za-z0-9_]*`), or several joined by
//! dots with nothing in between (`aws.s3.bucket`). A string is the text
//! between double quotes, where a backslash escapes the next character. A
//! number is an optional `-` followed by ASCII digits.

use vstd::prelude::*;

use crate::text::{is_ascii_alpha, is_ascii_digit, is_ident_char, ident_char, ascii_alpha, ascii_digit, chars_of, string_of};

verus! {

/// The kinds of token.
#[derive(Debug, Clone, Copy, PartialEq, Eq, Structural)]
pub enum TokenKind {
    /// An identifier, or identifiers joined by dots
    Word,
    /// A string literal; the text is what stands between the quotes
    Str,
    /// An integer literal
    Num,
    /// One of `{ } [ ] ( ) = , :` or `|>`
    Punct,
}

/// A token: its kind, its text and the index of its first character.
#[derive(Debug, Clone)]
pub struct Token {
    pub kind: TokenKind,
    pub text: String,
    pub start: usize,
}

/// The mathematical content of a token.
pub struct TokenModel {
    pub kind: TokenKind,
    pub text: Seq<char>,
    pub start: nat,
}

impl View for Token {
    type V = TokenModel;

    open spec fn view(&self) -> TokenModel {
        TokenModel { kind: self.kind, text: self.text@, start: self.start as nat }
    }
}

/// The models of a sequence of tokens.
pub open spec fn tokens_view(t: Seq<Token>) -> Seq<TokenModel> {
    Seq::new(t.len(), |i: int| t[i]@)
}

pub open spec fn is_space(c: char) -> bool {
    c == ' ' || c == '\t' || c == '\n' || c == '\r'
}

pub open spec fn is_ident_start(c: char) -> bool {
    is_ascii_alpha(c) || c == '_'
}

pub open spec fn is_punct(c: char) -> bool {
    c == '{' || c == '}' || c == '[' || c == ']' || c == '(' || c == ')' || c == '=' || c == ','
        || c == ':'
}

/// The end of the run of identifier characters that starts at `i`.
pub open spec fn ident_end(s: Seq<char>, i: nat) -> nat
    decreases s.len() - i,
{
    if i < s.len() && is_ident_char(s[i as int]) {
        ident_end(s, i + 1)
    } else {
        i
    }
}

/// The end of the word that starts at `i`: identifiers joined by single dots.
pub open spec fn word_end(s: Seq<char>, i: nat) -> nat
    decreases s.len() - i,
{
    let e = ident_end(s, i);
    if e > i && e + 1 < s.len() && s[e as int] == '.' && is_ident_start(s[e + 1int]) {
        word_end(s, e + 1)
    } else {
        e
    }
}

/// The end of the run of digits that starts at `i`.
pub open spec fn digits_end(s: Seq<char>, i: nat) -> nat
    decreases s.len() - i,
{
    if i < s.len() && is_ascii_digit(s[i as int]) {
        digits_end(s, i + 1)
    } else {
        i
    }
}

/// The position of the closing quote of a string whose text starts at `i`,
/// if the string is closed.
pub open spec fn string_end(s: Seq<char>, i: nat) -> Option<nat>
    decreases s.len() - i,
{
    if i >= s.len() {
        None
    } else if s[i as int] == '"' {
        Some(i)
    } else if s[i as int] == '\\' {
        if i + 1 < s.len() {
            string_end(s, i + 2)
        } else {
            None
        }
    } else {
        string_end(s, i + 1)
    }
}

/// The end of the line that contains position `i`.
pub open spec fn line_end(s: Seq<char>, i: nat) -> nat
    decreases s.len() - i,
{
    if i < s.len() && s[i as int] != '\n' {
        line_end(s, i + 1)
    } else {
        i
    }
}

/// Whether a comment starts at `i`.
pub open spec fn comment_at(s: Seq<char>, i: nat) -> bool {
    i < s.len() && (s[i as int] == '#' || (s[i as int] == '/' && i + 1 < s.len() && s[i + 1int] == '/'))
}

/// Whether a number starts at `i`.
pub open spec fn number_at(s: Seq<char>, i: nat) -> bool {
    i < s.len() && (is_ascii_digit(s[i as int]) || (s[i as int] == '-' && i + 1 < s.len()
        && is_ascii_digit(s[i + 1int])))
}

/// The token that starts at `i` and the position after it, or `None` when no
/// token starts there. `i` is not whitespace and no comment starts there.
pub open spec fn token_at(s: Seq<char>, i: nat) -> Option<(TokenModel, nat)> {
    if i >= s.len() {
        None
    } else {
        let c = s[i as int];
        if is_ident_start(c) {
            let e = word_end(s, i);
            Some((TokenModel { kind: TokenKind::Word, text: s.subrange(i as int, e as int), start: i }, e))
        } else if number_at(s, i) {
            let e = digits_end(s, i + 1);
            Some((TokenModel { kind: TokenKind::Num, text: s.subrange(i as int, e as int), start: i }, e))
        } else if c == '"' {
            match string_end(s, i + 1) {
                Some(e) => Some(
                    (
                        TokenModel {
                            kind: TokenKind::Str,
                            text: s.subrange(i + 1int, e as int),
                            start: i,
                        },
                        e + 1,
                    ),
                ),
                None => None,
            }
        } else if c == '|' && i + 1 < s.len() && s[i + 1int] == '>' {
            Some((TokenModel { kind: TokenKind::Punct, text: seq!['|', '>'], start: i }, i + 2))
        } else if is_punct(c) {
            Some((TokenModel { kind: TokenKind::Punct, text: seq![c], start: i }, i + 1))
        } else {
            None
        }
    }
}

/// The tokens of `s` from position `i` on, or the position of the first
/// character that starts no token.
pub open spec fn lex_from(s: Seq<char>, i: nat) -> Result<Seq<TokenModel>, nat>
    decreases s.len() - i,
{
    if i >= s.len() {
        Ok(Seq::empty())
    } else if is_space(s[i as int]) {
        lex_from(s, i + 1)
    } else if comment_at(s, i) {
        let e = line_end(s, i);
        if i < e <= s.len() {
            lex_from(s, e)
        } else {
            Err(i)
        }
    } else {
        match token_at(s, i) {
            Some((tok, e)) => if i < e <= s.len() {
                match lex_from(s, e) {
                    Ok(rest) => Ok(seq![tok] + rest),
                    Err(p) => Err(p),
                }
            } else {
                Err(i)
            },
            None => Err(i),
        }
    }
}

/// The tokens of a text, or the position of the first character that starts no token.
pub open spec fn lex(s: Seq<char>) -> Result<Seq<TokenModel>, nat> {
    lex_from(s, 0)
}

proof fn lemma_ident_end(s: Seq<char>, i: nat)
    ensures
        i <= s.len() ==> i <= ident_end(s, i) <= s.len(),
        i > s.len() ==> ident_end(s, i) == i,
    decreases s.len() - i,
{
    if i < s.len() && is_ident_char(s[i as int]) {
        lemma_ident_end(s, i + 1);
    }
}

proof fn lemma_word_end(s: Seq<char>, i: nat)
    requires
        i <= s.len(),
    ensures
        i <= word_end(s, i) <= s.len(),
    decreases s.len() - i,
{
    lemma_ident_end(s, i);
    let e = ident_end(s, i);
    if e > i && e + 1 < s.len() && s[e as int] == '.' && is_ident_start(s[e + 1int]) {
        lemma_word_end(s, e + 1);
    }
}

proof fn lemma_digits_end(s: Seq<char>, i: nat)
    requires
        i <= s.len(),
    ensures
        i <= digits_end(s, i) <= s.len(),
    decreases s.len() - i,
{
    if i < s.len() && is_ascii_digit(s[i as int]) {
        lemma_digits_end(s, i + 1);
    }
}

proof fn lemma_string_end(s: Seq<char>, i: nat)
    ensures
        string_end(s, i) matches Some(e) ==> i <= e < s.len(),
    decreases s.len() - i,
{
    if i < s.len() && s[i as int] != '"' {
        if s[i as int] == '\\' {
            if i + 1 < s.len() {
                lemma_string_end(s, i + 2);
            }
        } else {
            lemma_string_end(s, i + 1);
        }
    }
}

proof fn lemma_line_end(s: Seq<char>, i: nat)
    requires
        i <= s.len(),
    ensures
        i <= line_end(s, i) <= s.len(),
    decreases s.len() - i,
{
    if i < s.len() && s[i as int] != '\n' {
        lemma_line_end(s, i + 1);
    }
}

fn scan_ident(s: &[char], i: usize) -> (e: usize)
    requires
        i <= s.len(),
    ensures
        e == ident_end(s@, i as nat),
        i <= e <= s.len(),
{
    let mut j = i;
    while j < s.len() && ident_char(s[j])
        invariant
            i <= j <= s.len(),
            ident_end(s@, j as nat) == ident_end(s@, i as nat),
        decreases s.len() - j,
    {
        j += 1;
    }
    j
}

fn scan_word(s: &[char], i: usize) -> (e: usize)
    requires
        i <= s.len(),
    ensures
        e == word_end(s@, i as nat),
        i <= e <= s.len(),
{
    let mut j = i;
    loop
        invariant
            i <= j <= s.len(),
            word_end(s@, j as nat) == word_end(s@, i as nat),
        decreases s.len() - j,
    {
        let e = scan_ident(s, j);
        if e > j && e < s.len() && s.len() - e > 1 && s[e] == '.' && (ascii_alpha(s[e + 1]) || s[e
            + 1] == '_') {
            j = e + 1;
        } else {
            return e;
        }
    }
}

fn scan_digits(s: &[char], i: usize) -> (e: usize)
    requires
        i <= s.len(),
    ensures
        e == digits_end(s@, i as nat),
        i <= e <= s.len(),
{
    let mut j = i;
    while j < s.len() && ascii_digit(s[j])
        invariant
            i <= j <= s.len(),
            digits_end(s@, j as nat) == digits_end(s@, i as nat),
        decreases s.len() - j,
    {
        j += 1;
    }
    j
}

fn scan_string(s: &[char], i: usize) -> (r: Option<usize>)
    requires
        i <= s.len(),
    ensures
        r == (match string_end(s@, i as nat) {
            Some(e) => Some(e as usize),
            None => None::<usize>,
        }),
        r matches Some(e) ==> i <= e < s.len(),
{
    proof {
        lemma_string_end(s@, i as nat);
    }
    let mut j = i;
    loop
        invariant
            i <= j,
            string_end(s@, j as nat) == string_end(s@, i as nat),
        decreases s.len() + 2 - j,
    {
        if j >= s.len() {
            return None;
        } else if s[j] == '"' {
            return Some(j);
        } else if s[j] == '\\' {
            if j + 1 < s.len() {
                j = j + 2;
            } else {
                return None;
            }
        } else {
            j = j + 1;
        }
    }
}

pub(crate) fn scan_line(s: &[char], i: usize) -> (e: usize)
    requires
        i <= s.len(),
    ensures
        e == line_end(s@, i as nat),
        i <= e <= s.len(),
{
    let mut j = i;
    while j < s.len() && s[j] != '\n'
        invariant
            i <= j <= s.len(),
            line_end(s@, j as nat) == line_end(s@, i as nat),
        decreases s.len() - j,
    {
        j += 1;
    }
    j
}

fn slice_string(s: &[char], a: usize, b: usize) -> (r: String)
    requires
        a <= b <= s.len(),
    ensures
        r@ == s@.subrange(a as int, b as int),
{
    let mut v: Vec<char> = Vec::new();
    let mut k = a;
    while k < b
        invariant
            a <= k <= b,
            b <= s.len(),
            v@ == s@.subrange(a as int, k as int),
        decreases b - k,
    {
        v.push(s[k]);
        k += 1;
        proof {
            assert(v@ =~= s@.subrange(a as int, k as int));
        }
    }
    string_of(v.as_slice())
}

/// The token that starts at `i` and the position after it.
pub(crate) fn next_token(s: &[char], i: usize) -> (r: Option<(Token, usize)>)
    requires
        i < s.len(),
    ensures
        match token_at(s@, i as nat) {
            Some((tok, e)) => r matches Some((t, e2)) && t@ == tok && e2 == e,
            None => r is None,
        },
{
    let c = s[i];
    if ascii_alpha(c) || c == '_' {
        let e = scan_word(s, i);
        let t = Token { kind: TokenKind::Word, text: slice_string(s, i, e), start: i };
        assert(token_at(s@, i as nat) == Some((t@, e as nat)));
        Some((t, e))
    } else if ascii_digit(c) || (c == '-' && i + 1 < s.len() && ascii_digit(s[i + 1])) {
        let e = scan_digits(s, i + 1);
        let t = Token { kind: TokenKind::Num, text: slice_string(s, i, e), start: i };
        assert(token_at(s@, i as nat) == Some((t@, e as nat)));
        Some((t, e))
    } else if c == '"' {
        match scan_string(s, i + 1) {
            Some(e) => {
                proof {
                    lemma_string_end(s@, (i + 1) as nat);
                    assert(string_end(s@, (i + 1) as nat) == Some(e as nat));
                }
                let t = Token { kind: TokenKind::Str, text: slice_string(s, i + 1, e), start: i };
                assert(token_at(s@, i as nat) == Some((t@, (e + 1) as nat)));
                Some((t, e + 1))
            },
            None => None,
        }
    } else if c == '|' && i + 1 < s.len() && s[i + 1] == '>' {
        let t = slice_string(s, i, i + 2);
        proof {
            assert(t@ =~= seq!['|', '>']);
        }
        let t = Token { kind: TokenKind::Punct, text: t, start: i };
        assert(token_at(s@, i as nat) == Some((t@, (i + 2) as nat)));
        Some((t, i + 2))
    } else if c == '{' || c == '}' || c == '[' || c == ']' || c == '(' || c == ')' || c == '='
        || c == ',' || c == ':' {
        let t = slice_string(s, i, i + 1);
        proof {
            assert(t@ =~= seq![c]);
        }
        let t = Token { kind: TokenKind::Punct, text: t, start: i };
        assert(token_at(s@, i as nat) == Some((t@, (i + 1) as nat)));
        Some((t, i + 1))
    } else {
        None
    }
}

/// The tokens of a text, or the position of the first character that starts no token.
pub fn tokenize(input: &str) -> (r: Result<Vec<Token>, usize>)
    ensures
        match lex(input@) {
            Ok(ts) => r matches Ok(v) && tokens_view(v@) == ts,
            Err(p) => r == Err::<Vec<Token>, usize>(p as usize),
        },
{
    let s = chars_of(input);
    let n = s.len();
    let mut out: Vec<Token> = Vec::new();
    let mut i: usize = 0;
    while i < n
        invariant
            i <= n,
            n == s.len(),
            s@ == input@,
            lex(s@) == (match lex_from(s@, i as nat) {
                Ok(rest) => Ok(tokens_view(out@) + rest),
                Err(p) => Err(p),
            }),
        decreases n - i,
    {
        let c = s[i];
        if c == ' ' || c == '\t' || c == '\n' || c == '\r' {
            i += 1;
        } else if c == '#' || (c == '/' && i + 1 < n && s[i + 1] == '/') {
            let e = scan_line(s.as_slice(), i);
            if e > i {
                i = e;
            } else {
                return Err(i);
            }
        } else {
            match next_token(s.as_slice(), i) {
                Some((tok, e)) => {
                    if e > i && e <= n {
                        let ghost before = tokens_view(out@);
                        let ghost tm = tok@;
                        out.push(tok);
                        proof {
                            assert(tokens_view(out@) =~= before.push(tm));
                            match lex_from(s@, e as nat) {
                                Ok(rest) => {
                                    assert(before + (seq![tm] + rest) =~= before.push(tm) + rest);
                                },
                                Err(_) => {},
                            }
                        }
                        i = e;
                    } else {
                        return Err(i);
                    }
                },
                None => {
                    return Err(i);
                },
            }
        }
    }
    proof {
        assert(tokens_view(out@) + Seq::<TokenModel>::empty() =~= tokens_view(out@));
    }
    Ok(out)
}


proof fn lemma_digits_all(s: Seq<char>, i: nat, k: int)
    requires
        i <= k < digits_end(s, i),
    ensures
        crate::text::is_ascii_digit(s[k]),
    decreases s.len() - i,
{
    if i < s.len() && is_ascii_digit(s[i as int]) {
        if k > i {
            lemma_digits_all(s, i + 1, k);
        }
    }
}

proof fn lemma_number_token_wf(s: Seq<char>, i: nat)
    requires
        i < s.len(),
        number_at(s, i),
        !is_ident_start(s[i as int]),
    ensures
        crate::parser::grammar::num_wf(token_at(s, i).unwrap().0.text),
{
    let e = digits_end(s, i + 1);
    lemma_digits_end(s, i + 1);
    let text = s.subrange(i as int, e as int);
    if s[i as int] == '-' {
        assert(is_ascii_digit(s[i + 1int]));
        lemma_digits_end(s, i + 2);
        assert(e >= i + 2);
        assert forall|k: int| 0 <= k < text.drop_first().len() implies is_ascii_digit(#[trigger] text.drop_first()[k]) by {
            lemma_digits_all(s, i + 1, i + 1 + k);
        }
    } else {
        assert(is_ascii_digit(s[i as int]));
        assert(e >= i + 1);
        assert forall|k: int| 0 <= k < text.len() implies is_ascii_digit(#[trigger] text[k]) by {
            if k > 0 {
                lemma_digits_all(s, i + 1, i + k);
            }
        }
    }
}

/// The number tokens of a lexed text have the form of numbers.
pub proof fn lemma_lex_wf(s: Seq<char>, i: nat)
    ensures
        lex_from(s, i) matches Ok(t) ==> crate::parser::grammar::tokens_wf(t),
    decreases s.len() - i,
{
    if i >= s.len() {
    } else if is_space(s[i as int]) {
        lemma_lex_wf(s, i + 1);
    } else if comment_at(s, i) {
        let e = line_end(s, i);
        if i < e <= s.len() {
            lemma_lex_wf(s, e);
        }
    } else {
        match token_at(s, i) {
            Some((tok, e)) => if i < e <= s.len() {
                lemma_lex_wf(s, e);
                match lex_from(s, e) {
                    Ok(rest) => {
                        let all = seq![tok] + rest;
                        if tok.kind == TokenKind::Num {
                            lemma_number_token_wf(s, i);
                        }
                        assert forall|k: int| 0 <= k < all.len() && #[trigger] all[k].kind == TokenKind::Num implies crate::parser::grammar::num_wf(all[k].text) by {
                            if k > 0 {
                                assert(all[k] == rest[k - 1]);
                            }
                        }
                    },
                    Err(_) => {},
                }
            },
            None => {},
        }
    }
}


/// Errors and tokens of a lexed text lie within the text.
pub proof fn lemma_lex_bounds(s: Seq<char>, i: nat)
    ensures
        lex_from(s, i) matches Err(p) ==> i <= p < s.len(),
        lex_from(s, i) matches Ok(t) ==> forall|k: int| 0 <= k < t.len() ==> i <= #[trigger] t[k].start < s.len(),
    decreases s.len() - i,
{
    if i >= s.len() {
    } else if is_space(s[i as int]) {
        lemma_lex_bounds(s, i + 1);
    } else if comment_at(s, i) {
        let e = line_end(s, i);
        if i < e <= s.len() {
            lemma_lex_bounds(s, e);
        }
    } else {
        match token_at(s, i) {
            Some((tok, e)) => if i < e <= s.len() {
                lemma_lex_bounds(s, e);
                match lex_from(s, e) {
                    Ok(rest) => {
                        let all = seq![tok] + rest;
                        assert forall|k: int| 0 <= k < all.len() implies i <= #[trigger] all[k].start < s.len() by {
                            if k > 0 {
                                assert(all[k] == rest[k - 1]);
                            }
                        }
                    },
                    Err(_) => {},
                }
            },
            None => {},
        }
    }
}

} // verus!
