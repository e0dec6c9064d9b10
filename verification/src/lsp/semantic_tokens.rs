//! Semantic highlighting of `.crn` text.
//!
//! Each line is scanned for keywords, resource types, region names, `env()`
//! calls, attribute names, `=`, strings, numbers and booleans. The tokens of a
//! line are ordered by start column and only the first token found at a column
//! is kept; the whole text is then encoded relative to the previous token, as
//! the editor protocol expects.
//!
//! Columns are byte offsets into the line, except for resource types, whose
//! columns count characters; some neighbour checks look up the character whose
//! index equals a byte offset. On ASCII text both agree.

use vstd::prelude::*;

use crate::text::{
    ascii_digit, ascii_lower, byte_len, byte_offsets, bytes_of, char_is_alphanumeric, chars_of,
    contains_char, count_leading_space, find_chars_from, find_from, has_char, ident_char,
    is_ascii_digit, is_ascii_lower, is_ident_char, is_prefix, leading_space, lemma_byte_len_mono,
    lemma_byte_len_sub, lemma_trim_byte_len, occurs_at, slice_chars, split, starts_with, trim,
    strip_cr, strip_cr_chars, text_lines, trim_chars, trim_start, alnum_char,
};

verus! {

/// One token of a line: start column, length and kind.
pub type LineToken = (u32, u32, u32);

/// Kind index of keywords (`provider`, `backend`, `let`, `true`, `false`).
pub const KEYWORD: u32 = 0;

/// Kind index of types (resource types, provider names, regions).
pub const TYPE: u32 = 1;

/// Kind index of variable names bound by `let`.
pub const VARIABLE: u32 = 2;

/// Kind index of attribute names.
pub const PROPERTY: u32 = 3;

/// Kind index of string literals.
pub const STRING: u32 = 4;

/// Kind index of number literals.
pub const NUMBER: u32 = 5;

/// Kind index of the `=` operator.
pub const OPERATOR: u32 = 6;

/// Kind index of function names (`env`).
pub const FUNCTION: u32 = 7;

/// Kind index of comments.
pub const COMMENT: u32 = 8;

// ---------------------------------------------------------------------------
// Model of one line
// ---------------------------------------------------------------------------

/// The byte offset of character `k` of a line.
pub open spec fn col(s: Seq<char>, k: int) -> int {
    byte_len(s.take(k)) as int
}

/// The character at index `k`, if there is one.
pub open spec fn char_at(s: Seq<char>, k: int) -> Option<char> {
    if 0 <= k < s.len() {
        Some(s[k])
    } else {
        None
    }
}

/// The first index from `from` on whose character is one of `stops`.
pub open spec fn first_of_from(s: Seq<char>, from: int, stops: Seq<char>) -> Option<int>
    decreases s.len() - from,
{
    if from < 0 || from >= s.len() {
        None
    } else if has_char(stops, s[from]) {
        Some(from)
    } else {
        first_of_from(s, from + 1, stops)
    }
}

/// The name that follows the first occurrence of a keyword, up to one of
/// `stops`, as a token of the given kind (trimmed first when `trim_name`).
pub open spec fn name_after(
    s: Seq<char>,
    kw: Seq<char>,
    stops: Seq<char>,
    kind: u32,
    trim_name: bool,
) -> Seq<LineToken> {
    match find_from(s, kw, 0) {
        Some(p) => {
            let a = p + kw.len();
            match first_of_from(s, a, stops) {
                Some(e) => {
                    let raw = s.subrange(a, e);
                    let name = if trim_name {
                        trim(raw)
                    } else {
                        raw
                    };
                    if name.len() > 0 {
                        seq![(col(s, a) as u32, byte_len(name) as u32, kind)]
                    } else {
                        seq![]
                    }
                },
                None => seq![],
            }
        },
        None => seq![],
    }
}

/// The tokens of a leading `provider`, `backend` or `let`.
pub open spec fn keyword_tokens(s: Seq<char>) -> Seq<LineToken> {
    let at = col(s, leading_space(s) as int) as u32;
    let t = trim_start(s);
    if is_prefix("provider "@, t) {
        seq![(at, 8u32, KEYWORD)] + name_after(s, "provider "@, seq![' ', '{'], TYPE, false)
    } else if is_prefix("backend "@, t) {
        seq![(at, 7u32, KEYWORD)] + name_after(s, "backend "@, seq![' ', '{'], TYPE, false)
    } else if is_prefix("let "@, t) {
        seq![(at, 3u32, KEYWORD)] + name_after(s, "let "@, seq![' ', '='], VARIABLE, true)
    } else {
        seq![]
    }
}

/// The end of the run of name characters and single dots that starts with
/// the character before `j`.
pub open spec fn run_end(s: Seq<char>, j: int) -> int
    decreases s.len() - j,
{
    if 0 < j < s.len() && (is_ident_char(s[j]) || (s[j] == '.' && s[j - 1] != '.')) {
        run_end(s, j + 1)
    } else {
        j
    }
}

/// The number of dots in a text.
pub open spec fn dot_count(s: Seq<char>) -> nat
    decreases s.len(),
{
    if s.len() == 0 {
        0
    } else {
        dot_count(s.drop_last()) + if s.last() == '.' {
            1nat
        } else {
            0nat
        }
    }
}

/// A three-part dotted name (`aws.s3.bucket`) starting at `i`: where the scan
/// stopped and the length of the name (a trailing dot is not part of it).
pub open spec fn resource_type_at(s: Seq<char>, i: int) -> Option<(int, int)> {
    let e = run_end(s, i + 1);
    let run = s.subrange(i, e);
    let trailing_dot = run.len() > 0 && run.last() == '.';
    let parts = dot_count(run) + if trailing_dot {
        0nat
    } else {
        1nat
    };
    if parts == 3 {
        Some(
            (
                e,
                run.len() - if trailing_dot {
                    1int
                } else {
                    0int
                },
            ),
        )
    } else {
        None
    }
}

/// Whether a name may start at `i`: a lower-case ASCII letter that does not
/// continue a word.
pub open spec fn starts_word(s: Seq<char>, i: int) -> bool {
    is_ascii_lower(s[i]) && (i == 0 || (!alnum_char(s[i - 1]) && s[i - 1] != '_'))
}

/// Whether a resource type may end at `e`.
pub open spec fn ends_type(s: Seq<char>, e: int) -> bool {
    e >= s.len() || s[e] == ' ' || s[e] == '{' || s[e] == '\t' || s[e] == '\n'
}

pub proof fn lemma_run_end_bounds(s: Seq<char>, j: int)
    ensures
        j <= run_end(s, j),
        j <= s.len() ==> run_end(s, j) <= s.len(),
    decreases s.len() - j,
{
    if 0 < j < s.len() && (is_ident_char(s[j]) || (s[j] == '.' && s[j - 1] != '.')) {
        lemma_run_end_bounds(s, j + 1);
    }
}

/// The resource types found from character `i` on; columns count characters.
pub open spec fn resource_scan(s: Seq<char>, i: int) -> Seq<LineToken>
    decreases s.len() - i,
{
    if i < 0 || i >= s.len() {
        seq![]
    } else {
        match resource_type_at(s, i) {
            Some((e, n)) => if starts_word(s, i) && ends_type(s, e) {
                proof {
                    lemma_run_end_bounds(s, i + 1);
                }
                seq![(i as u32, n as u32, TYPE)] + resource_scan(s, e)
            } else {
                resource_scan(s, i + 1)
            },
            None => resource_scan(s, i + 1),
        }
    }
}

/// Whether a neighbour of a matched word leaves it a word of its own.
pub open spec fn boundary_ok(c: Option<char>) -> bool {
    match c {
        None => true,
        Some(c) => !alnum_char(c) && c != '_' && c != '.',
    }
}

pub proof fn lemma_find_from_bounds(s: Seq<char>, pat: Seq<char>, from: int)
    ensures
        match find_from(s, pat, from) {
            Some(p) => from <= p && occurs_at(s, pat, p),
            None => true,
        },
    decreases s.len() - from,
{
    if from < 0 || from + pat.len() > s.len() {
    } else if occurs_at(s, pat, from) {
    } else if from >= s.len() {
    } else {
        lemma_find_from_bounds(s, pat, from + 1);
    }
}

/// The whole-word occurrences of `pat` from character `from` on, as tokens
/// of the given kind. The neighbours looked at are the characters whose
/// indices are the byte offsets just before and just after the match.
pub open spec fn pattern_scan(s: Seq<char>, pat: Seq<char>, kind: u32, from: int) -> Seq<
    LineToken,
>
    decreases s.len() - from,
{
    if pat.len() == 0 || from < 0 {
        seq![]
    } else {
        match find_from(s, pat, from) {
            None => seq![],
            Some(p) => {
                proof {
                    lemma_find_from_bounds(s, pat, from);
                }
                let b = col(s, p);
                let before = if b > 0 {
                    char_at(s, b - 1)
                } else {
                    None
                };
                let after = char_at(s, b + byte_len(pat));
                let here = if boundary_ok(before) && boundary_ok(after) {
                    seq![(b as u32, byte_len(pat) as u32, kind)]
                } else {
                    seq![]
                };
                here + pattern_scan(s, pat, kind, p + pat.len())
            },
        }
    }
}

/// The region names highlighted as types.
pub open spec fn region_names() -> Seq<Seq<char>> {
    seq![
        "aws.Region.ap_northeast_1"@,
        "aws.Region.ap_northeast_2"@,
        "aws.Region.ap_northeast_3"@,
        "aws.Region.ap_south_1"@,
        "aws.Region.ap_southeast_1"@,
        "aws.Region.ap_southeast_2"@,
        "aws.Region.ca_central_1"@,
        "aws.Region.eu_central_1"@,
        "aws.Region.eu_west_1"@,
        "aws.Region.eu_west_2"@,
        "aws.Region.eu_west_3"@,
        "aws.Region.eu_north_1"@,
        "aws.Region.sa_east_1"@,
        "aws.Region.us_east_1"@,
        "aws.Region.us_east_2"@,
        "aws.Region.us_west_1"@,
        "aws.Region.us_west_2"@,
    ]
}

/// The whole-word occurrences of each pattern in turn.
pub open spec fn patterns_scan(s: Seq<char>, pats: Seq<Seq<char>>, kind: u32) -> Seq<LineToken>
    decreases pats.len(),
{
    if pats.len() == 0 {
        seq![]
    } else {
        patterns_scan(s, pats.drop_last(), kind) + pattern_scan(s, pats.last(), kind, 0)
    }
}

/// The `env` of the first `env(`.
pub open spec fn env_tokens(s: Seq<char>) -> Seq<LineToken> {
    match find_from(s, "env("@, 0) {
        Some(p) => seq![(col(s, p) as u32, 3u32, FUNCTION)],
        None => seq![],
    }
}

/// The attribute name before the first `=` (where it is a plain name) and
/// the `=` itself.
pub open spec fn property_tokens(s: Seq<char>) -> Seq<LineToken> {
    match first_of_from(s, 0, seq!['=']) {
        None => seq![],
        Some(q) => {
            let name = trim(s.take(q));
            let prop = if name.len() > 0 && !is_prefix("provider"@, name) && !is_prefix(
                "let"@,
                name,
            ) && !has_char(name, '.') {
                match find_from(s, name, 0) {
                    Some(p) => seq![(col(s, p) as u32, byte_len(name) as u32, PROPERTY)],
                    None => seq![],
                }
            } else {
                seq![]
            };
            prop + seq![(col(s, q) as u32, 1u32, OPERATOR)]
        },
    }
}

/// The string literals from character `k` on, `open` being the start of an
/// unclosed one.
pub open spec fn string_scan(s: Seq<char>, k: int, open: Option<int>) -> Seq<LineToken>
    decreases s.len() - k,
{
    if k < 0 || k >= s.len() {
        seq![]
    } else if s[k] == '"' {
        match open {
            Some(st) => seq![(col(s, st) as u32, (col(s, k) - col(s, st) + 1) as u32, STRING)]
                + string_scan(s, k + 1, None),
            None => string_scan(s, k + 1, Some(k)),
        }
    } else {
        string_scan(s, k + 1, open)
    }
}

/// Whether a neighbour of a digit leaves it the edge of a number.
pub open spec fn not_word(c: Option<char>) -> bool {
    match c {
        None => true,
        Some(c) => !alnum_char(c) && c != '_',
    }
}

/// The number of ASCII digits in a row from character `k` on.
pub open spec fn digit_run(s: Seq<char>, k: int) -> nat
    decreases s.len() - k,
{
    if 0 <= k < s.len() && is_ascii_digit(s[k]) {
        1 + digit_run(s, k + 1)
    } else {
        0
    }
}

/// The number literals from character `k` on. The neighbours looked at are
/// the characters whose indices are one less and one more than the digit's
/// byte offset.
pub open spec fn number_scan(s: Seq<char>, k: int) -> Seq<LineToken>
    decreases s.len() - k,
{
    if k < 0 || k >= s.len() {
        seq![]
    } else {
        let rest = number_scan(s, k + 1);
        if is_ascii_digit(s[k]) {
            let i = col(s, k);
            let prev = if i > 0 {
                char_at(s, i - 1)
            } else {
                None
            };
            let next = char_at(s, i + 1);
            if not_word(prev) && not_word(next) {
                seq![(i as u32, 1u32, NUMBER)] + rest
            } else if not_word(prev) {
                seq![(i as u32, digit_run(s, k) as u32, NUMBER)] + rest
            } else {
                rest
            }
        } else {
            rest
        }
    }
}

/// Every token found on a line, in the order the scans find them.
pub open spec fn raw_tokens(s: Seq<char>) -> Seq<LineToken> {
    keyword_tokens(s) + resource_scan(s, 0) + patterns_scan(s, region_names(), TYPE) + env_tokens(s)
        + property_tokens(s) + string_scan(s, 0, None) + number_scan(s, 0) + pattern_scan(
        s,
        "true"@,
        KEYWORD,
        0,
    ) + pattern_scan(s, "false"@, KEYWORD, 0)
}

/// The first index from `j` on whose token starts at `x` or later.
pub open spec fn insert_pos(acc: Seq<LineToken>, x: u32, j: int) -> int
    decreases acc.len() - j,
{
    if j < 0 || j >= acc.len() || acc[j].0 >= x {
        j
    } else {
        insert_pos(acc, x, j + 1)
    }
}

/// A token added to a list ordered by start, unless its start is taken.
pub open spec fn add_first(acc: Seq<LineToken>, t: LineToken) -> Seq<LineToken> {
    let j = insert_pos(acc, t.0, 0);
    if 0 <= j < acc.len() && acc[j].0 == t.0 {
        acc
    } else {
        acc.insert(j, t)
    }
}

/// The tokens ordered by start, keeping the first token found at each start
/// (a stable sort by start followed by dropping repeated starts).
pub open spec fn ordered_firsts(raw: Seq<LineToken>) -> Seq<LineToken>
    decreases raw.len(),
{
    if raw.len() == 0 {
        seq![]
    } else {
        add_first(ordered_firsts(raw.drop_last()), raw.last())
    }
}

/// Whether the tokens' starts strictly increase.
pub open spec fn strictly_ordered(toks: Seq<LineToken>) -> bool {
    forall|i: int, j: int| 0 <= i < j < toks.len() ==> #[trigger] toks[i].0 < #[trigger] toks[j].0
}

proof fn lemma_insert_pos(acc: Seq<LineToken>, x: u32, j0: int)
    requires
        0 <= j0 <= acc.len(),
        forall|i: int| 0 <= i < j0 ==> #[trigger] acc[i].0 < x,
    ensures
        j0 <= insert_pos(acc, x, j0) <= acc.len(),
        forall|i: int| 0 <= i < insert_pos(acc, x, j0) ==> #[trigger] acc[i].0 < x,
        insert_pos(acc, x, j0) < acc.len() ==> acc[insert_pos(acc, x, j0)].0 >= x,
    decreases acc.len() - j0,
{
    if j0 < acc.len() && acc[j0].0 < x {
        lemma_insert_pos(acc, x, j0 + 1);
    }
}

proof fn lemma_add_first_ordered(acc: Seq<LineToken>, t: LineToken)
    requires
        strictly_ordered(acc),
    ensures
        strictly_ordered(add_first(acc, t)),
{
    lemma_insert_pos(acc, t.0, 0);
    let j = insert_pos(acc, t.0, 0);
    if !(0 <= j < acc.len() && acc[j].0 == t.0) {
        let r = acc.insert(j, t);
        assert forall|a: int, b: int| 0 <= a < b < r.len() implies #[trigger] r[a].0 < #[trigger] r[b].0 by {
            if b < j {
            } else if b == j {
                assert(r[a] == acc[a]);
            } else if a < j {
                assert(r[b] == acc[b - 1]);
                if j < acc.len() {
                    assert(acc[j].0 <= acc[b - 1].0);
                }
            } else if a == j {
                assert(r[b] == acc[b - 1]);
                assert(acc[j].0 <= acc[b - 1].0);
            } else {
                assert(r[a] == acc[a - 1]);
                assert(r[b] == acc[b - 1]);
            }
        }
    }
}

/// The tokens of a line come ordered by strictly increasing start.
pub proof fn lemma_ordered_firsts_ordered(raw: Seq<LineToken>)
    ensures
        strictly_ordered(ordered_firsts(raw)),
    decreases raw.len(),
{
    if raw.len() > 0 {
        lemma_ordered_firsts_ordered(raw.drop_last());
        lemma_add_first_ordered(ordered_firsts(raw.drop_last()), raw.last());
    }
}

/// The tokens of one line.
pub open spec fn line_tokens(s: Seq<char>) -> Seq<LineToken> {
    let lead = leading_space(s) as int;
    let t = trim_start(s);
    if t.len() == 0 {
        seq![]
    } else if is_prefix("//"@, t) {
        seq![(col(s, lead) as u32, (byte_len(s) - col(s, lead)) as u32, COMMENT)]
    } else {
        ordered_firsts(raw_tokens(s))
    }
}

// ---------------------------------------------------------------------------
// Scanning one line
// ---------------------------------------------------------------------------

/// `off` holds the byte offset of every character of `s` and of its end,
/// and `s` is short enough for its offsets to be `u32` columns.
pub open spec fn offsets_of(s: Seq<char>, off: Seq<usize>) -> bool {
    &&& byte_len(s) <= u32::MAX
    &&& off.len() == s.len() + 1
    &&& forall|k: int| 0 <= k <= s.len() ==> #[trigger] off[k] == col(s, k) && off[k] <= byte_len(s)
}

pub proof fn lemma_first_of_from_bounds(s: Seq<char>, from: int, stops: Seq<char>)
    ensures
        match first_of_from(s, from, stops) {
            Some(k) => from <= k < s.len() && has_char(stops, s[k]),
            None => true,
        },
    decreases s.len() - from,
{
    if from >= 0 && from < s.len() && !has_char(stops, s[from]) {
        lemma_first_of_from_bounds(s, from + 1, stops);
    }
}

pub proof fn lemma_first_of_from_complete(s: Seq<char>, from: int, j: int, stops: Seq<char>)
    requires
        0 <= from <= j < s.len(),
        has_char(stops, s[j]),
    ensures
        first_of_from(s, from, stops) is Some,
    decreases j - from,
{
    if !has_char(stops, s[from]) {
        lemma_first_of_from_complete(s, from + 1, j, stops);
    }
}

/// The first index from `from` on whose character is one of `stops`.
pub(crate) fn find_any(s: &[char], from: usize, stops: &[char]) -> (r: Option<usize>)
    ensures
        match first_of_from(s@, from as int, stops@) {
            Some(k) => r == Some(k as usize),
            None => r is None,
        },
{
    let mut k = from;
    while k < s.len()
        invariant
            from <= k,
            first_of_from(s@, from as int, stops@) == first_of_from(s@, k as int, stops@),
        decreases s.len() - k,
    {
        if contains_char(stops, s[k]) {
            return Some(k);
        }
        k += 1;
    }
    None
}

/// Two characters as a vector.
pub(crate) fn pair(a: char, b: char) -> (r: Vec<char>)
    ensures
        r@ == seq![a, b],
{
    let mut v: Vec<char> = Vec::new();
    v.push(a);
    v.push(b);
    proof {
        assert(v@ =~= seq![a, b]);
    }
    v
}

/// Appends the token of the name after the first occurrence of `kw`.
fn push_name_after(
    s: &[char],
    off: &Vec<usize>,
    kw: &[char],
    stops: &[char],
    kind: u32,
    trim_name: bool,
    out: &mut Vec<LineToken>,
)
    requires
        offsets_of(s@, off@),
    ensures
        final(out)@ == old(out)@ + name_after(s@, kw@, stops@, kind, trim_name),
{
    proof {
        lemma_find_from_bounds(s@, kw@, 0);
    }
    match find_chars_from(s, kw, 0) {
        None => {
            assert(out@ =~= old(out)@ + name_after(s@, kw@, stops@, kind, trim_name));
        },
        Some(p) => {
            proof {
                let k = find_from(s@, kw@, 0 as int)->0;
                assert(find_from(s@, kw@, 0 as int) is Some);
                assert(0 <= k && k + kw@.len() <= s@.len());
                assert(s@.len() == s.len());
                assert(k == p as int);
            }
            let a = p + kw.len();
            proof {
                lemma_first_of_from_bounds(s@, a as int, stops@);
            }
            match find_any(s, a, stops) {
                None => {
                    assert(out@ =~= old(out)@ + name_after(s@, kw@, stops@, kind, trim_name));
                },
                Some(e) => {
                    let raw = slice_chars(s, a, e);
                    let name = if trim_name {
                        trim_chars(raw.as_slice())
                    } else {
                        raw
                    };
                    proof {
                        lemma_byte_len_sub(s@, a as int, e as int);
                        lemma_trim_byte_len(raw@);
                    }
                    if name.len() > 0 {
                        let n = bytes_of(name.as_slice());
                        out.push((off[a] as u32, n as u32, kind));
                    }
                    assert(out@ =~= old(out)@ + name_after(s@, kw@, stops@, kind, trim_name));
                },
            }
        },
    }
}

/// Appends the tokens of a leading `provider`, `backend` or `let`.
fn push_keyword_tokens(s: &[char], off: &Vec<usize>, out: &mut Vec<LineToken>)
    requires
        offsets_of(s@, off@),
    ensures
        final(out)@ == old(out)@ + keyword_tokens(s@),
{
    let lead = count_leading_space(s);
    proof {
        crate::text::lemma_leading_space_bound(s@);
    }
    let t = slice_chars(s, lead, s.len());
    assert(t@ =~= trim_start(s@));
    let at = off[lead] as u32;
    let provider_kw = chars_of("provider ");
    let backend_kw = chars_of("backend ");
    let let_kw = chars_of("let ");
    if starts_with(t.as_slice(), provider_kw.as_slice()) {
        out.push((at, 8, KEYWORD));
        push_name_after(s, off, provider_kw.as_slice(), pair(' ', '{').as_slice(), TYPE, false, out);
    } else if starts_with(t.as_slice(), backend_kw.as_slice()) {
        out.push((at, 7, KEYWORD));
        push_name_after(s, off, backend_kw.as_slice(), pair(' ', '{').as_slice(), TYPE, false, out);
    } else if starts_with(t.as_slice(), let_kw.as_slice()) {
        out.push((at, 3, KEYWORD));
        push_name_after(s, off, let_kw.as_slice(), pair(' ', '=').as_slice(), VARIABLE, true, out);
    }
    assert(out@ =~= old(out)@ + keyword_tokens(s@));
}

proof fn lemma_dot_count_le(s: Seq<char>)
    ensures
        dot_count(s) <= s.len(),
    decreases s.len(),
{
    if s.len() > 0 {
        lemma_dot_count_le(s.drop_last());
    }
}

/// Where the run of name characters and single dots ends (see `run_end`).
fn find_run_end(s: &[char], j: usize) -> (r: usize)
    requires
        0 < j <= s.len(),
    ensures
        r as int == run_end(s@, j as int),
        j <= r <= s.len(),
{
    let mut k = j;
    while k < s.len() && (ident_char(s[k]) || (s[k] == '.' && s[k - 1] != '.'))
        invariant
            0 < j <= k <= s.len(),
            run_end(s@, j as int) == run_end(s@, k as int),
        decreases s.len() - k,
    {
        k += 1;
    }
    k
}

/// The number of dots between two positions.
fn count_dots(s: &[char], i: usize, e: usize) -> (r: usize)
    requires
        i <= e <= s.len(),
    ensures
        r == dot_count(s@.subrange(i as int, e as int)),
{
    let mut c: usize = 0;
    let mut k = i;
    proof {
        assert(s@.subrange(i as int, i as int) =~= Seq::<char>::empty());
    }
    while k < e
        invariant
            i <= k <= e <= s.len(),
            c == dot_count(s@.subrange(i as int, k as int)),
            c <= k - i,
        decreases e - k,
    {
        proof {
            assert(s@.subrange(i as int, k + 1).drop_last() =~= s@.subrange(i as int, k as int));
        }
        if s[k] == '.' {
            c += 1;
        }
        k += 1;
    }
    c
}

/// The three-part dotted name starting at `i` (see `resource_type_at`).
fn find_resource_type(s: &[char], i: usize) -> (r: Option<(usize, usize)>)
    requires
        i < s.len(),
    ensures
        match resource_type_at(s@, i as int) {
            Some((e, n)) => r == Some((e as usize, n as usize)) && i < e <= s.len() && n <= e - i,
            None => r is None,
        },
{
    let e = find_run_end(s, i + 1);
    let dots = count_dots(s, i, e);
    proof {
        lemma_dot_count_le(s@.subrange(i as int, e as int));
        assert(s@.subrange(i as int, e as int).last() == s@[e - 1]);
    }
    let trailing_dot = s[e - 1] == '.';
    let three_parts = if trailing_dot {
        dots == 3
    } else {
        dots == 2
    };
    if three_parts {
        let n = if trailing_dot {
            e - i - 1
        } else {
            e - i
        };
        Some((e, n))
    } else {
        None
    }
}

/// Appends the resource types of a line (columns count characters).
fn push_resource_types(s: &[char], out: &mut Vec<LineToken>)
    requires
        s.len() <= u32::MAX,
    ensures
        final(out)@ == old(out)@ + resource_scan(s@, 0),
{
    let mut i: usize = 0;
    while i < s.len()
        invariant
            i <= s.len() <= u32::MAX,
            old(out)@ + resource_scan(s@, 0) == out@ + resource_scan(s@, i as int),
        decreases s.len() - i,
    {
        let ghost before = out@;
        let mut next = i + 1;
        if ascii_lower(s[i]) && (i == 0 || (!char_is_alphanumeric(s[i - 1]) && s[i - 1] != '_')) {
            match find_resource_type(s, i) {
                Some((e, n)) => {
                    if e >= s.len() || s[e] == ' ' || s[e] == '{' || s[e] == '\t' || s[e] == '\n' {
                        out.push((i as u32, n as u32, TYPE));
                        next = e;
                        proof {
                            assert(resource_scan(s@, i as int) == seq![(i as u32, n as u32, TYPE)]
                                + resource_scan(s@, e as int));
                            assert(out@ + resource_scan(s@, e as int) =~= before + resource_scan(
                                s@,
                                i as int,
                            ));
                        }
                    }
                },
                None => {},
            }
        }
        i = next;
    }
    proof {
        assert(out@ + resource_scan(s@, i as int) =~= out@);
    }
}

/// Whether the character at index `k` (if any) may border a whole word.
fn boundary_ok_at(s: &[char], k: usize) -> (r: bool)
    ensures
        r == boundary_ok(char_at(s@, k as int)),
{
    if k < s.len() {
        let c = s[k];
        !char_is_alphanumeric(c) && c != '_' && c != '.'
    } else {
        true
    }
}

/// Appends the whole-word occurrences of `pat`.
fn push_pattern_scan(
    s: &[char],
    off: &Vec<usize>,
    pat: &[char],
    kind: u32,
    out: &mut Vec<LineToken>,
)
    requires
        offsets_of(s@, off@),
    ensures
        final(out)@ == old(out)@ + pattern_scan(s@, pat@, kind, 0),
{
    if pat.len() == 0 {
        assert(out@ =~= old(out)@ + pattern_scan(s@, pat@, kind, 0));
        return;
    }
    let mut from: usize = 0;
    loop
        invariant
            from <= s.len(),
            pat.len() > 0,
            offsets_of(s@, off@),
            old(out)@ + pattern_scan(s@, pat@, kind, 0) == out@ + pattern_scan(
                s@,
                pat@,
                kind,
                from as int,
            ),
        decreases s.len() - from,
    {
        proof {
            lemma_find_from_bounds(s@, pat@, from as int);
        }
        match find_chars_from(s, pat, from) {
            None => {
                assert(out@ =~= old(out)@ + pattern_scan(s@, pat@, kind, 0));
                return;
            },
            Some(p) => {
                proof {
                    let k = find_from(s@, pat@, from as int)->0;
                    assert(find_from(s@, pat@, from as int) is Some);
                    assert(s@.len() == s.len());
                    assert(k == p as int);
                    assert(s@.subrange(p as int, p + pat.len()) == pat@);
                    lemma_byte_len_sub(s@, p as int, p + pat.len());
                }
                let ghost before = out@;
                let ghost old_from = from;
                let b = off[p];
                let a = off[p + pat.len()];
                let before_ok = if b > 0 {
                    boundary_ok_at(s, b - 1)
                } else {
                    true
                };
                let after_ok = boundary_ok_at(s, a);
                if before_ok && after_ok {
                    out.push((b as u32, (a - b) as u32, kind));
                }
                from = p + pat.len();
                proof {
                    assert(out@ + pattern_scan(s@, pat@, kind, from as int) =~= before
                        + pattern_scan(s@, pat@, kind, old_from as int));
                }
            },
        }
    }
}

/// The region names, as character vectors.
fn region_list() -> (r: Vec<Vec<char>>)
    ensures
        crate::text::views(r@) == region_names(),
{
    let mut v: Vec<Vec<char>> = Vec::new();
    v.push(chars_of("aws.Region.ap_northeast_1"));
    v.push(chars_of("aws.Region.ap_northeast_2"));
    v.push(chars_of("aws.Region.ap_northeast_3"));
    v.push(chars_of("aws.Region.ap_south_1"));
    v.push(chars_of("aws.Region.ap_southeast_1"));
    v.push(chars_of("aws.Region.ap_southeast_2"));
    v.push(chars_of("aws.Region.ca_central_1"));
    v.push(chars_of("aws.Region.eu_central_1"));
    v.push(chars_of("aws.Region.eu_west_1"));
    v.push(chars_of("aws.Region.eu_west_2"));
    v.push(chars_of("aws.Region.eu_west_3"));
    v.push(chars_of("aws.Region.eu_north_1"));
    v.push(chars_of("aws.Region.sa_east_1"));
    v.push(chars_of("aws.Region.us_east_1"));
    v.push(chars_of("aws.Region.us_east_2"));
    v.push(chars_of("aws.Region.us_west_1"));
    v.push(chars_of("aws.Region.us_west_2"));
    proof {
        assert(crate::text::views(v@) =~= region_names());
    }
    v
}

/// Appends the whole-word occurrences of the region names.
fn push_regions(s: &[char], off: &Vec<usize>, out: &mut Vec<LineToken>)
    requires
        offsets_of(s@, off@),
    ensures
        final(out)@ == old(out)@ + patterns_scan(s@, region_names(), TYPE),
{
    let names = region_list();
    let mut k: usize = 0;
    proof {
        assert(region_names().take(0) =~= Seq::<Seq<char>>::empty());
    }
    while k < names.len()
        invariant
            k <= names.len(),
            crate::text::views(names@) == region_names(),
            offsets_of(s@, off@),
            out@ == old(out)@ + patterns_scan(s@, region_names().take(k as int), TYPE),
        decreases names.len() - k,
    {
        let ghost before = out@;
        proof {
            assert(region_names().take(k + 1).drop_last() =~= region_names().take(k as int));
            assert(crate::text::views(names@)[k as int] == names@[k as int]@);
        }
        push_pattern_scan(s, off, names[k].as_slice(), TYPE, out);
        k += 1;
        proof {
            assert(out@ =~= old(out)@ + patterns_scan(s@, region_names().take(k as int), TYPE));
        }
    }
    proof {
        assert(region_names().take(k as int) =~= region_names());
    }
}

/// Appends the `env` of the first `env(`.
fn push_env(s: &[char], off: &Vec<usize>, out: &mut Vec<LineToken>)
    requires
        offsets_of(s@, off@),
    ensures
        final(out)@ == old(out)@ + env_tokens(s@),
{
    let env_call = chars_of("env(");
    proof {
        lemma_find_from_bounds(s@, env_call@, 0);
    }
    match find_chars_from(s, env_call.as_slice(), 0) {
        Some(p) => {
            proof {
                assert(find_from(s@, "env("@, 0 as int) is Some);
                assert(s@.len() == s.len());
            }
            out.push((off[p] as u32, 3, FUNCTION));
        },
        None => {},
    }
    assert(out@ =~= old(out)@ + env_tokens(s@));
}

/// Appends the attribute name before the first `=` and the `=` itself.
fn push_property(s: &[char], off: &Vec<usize>, out: &mut Vec<LineToken>)
    requires
        offsets_of(s@, off@),
    ensures
        final(out)@ == old(out)@ + property_tokens(s@),
{
    let mut eq: Vec<char> = Vec::new();
    eq.push('=');
    assert(eq@ =~= seq!['=']);
    proof {
        lemma_first_of_from_bounds(s@, 0, seq!['=']);
    }
    match find_any(s, 0, eq.as_slice()) {
        None => {},
        Some(q) => {
            let before = slice_chars(s, 0, q);
            assert(before@ =~= s@.take(q as int));
            let name = trim_chars(before.as_slice());
            let provider_word = chars_of("provider");
            let let_word = chars_of("let");
            if name.len() > 0 && !starts_with(name.as_slice(), provider_word.as_slice())
                && !starts_with(name.as_slice(), let_word.as_slice()) && !contains_char(
                name.as_slice(),
                '.',
            ) {
                proof {
                    lemma_find_from_bounds(s@, name@, 0);
                }
                match find_chars_from(s, name.as_slice(), 0) {
                    Some(p) => {
                        proof {
                            assert(find_from(s@, name@, 0 as int) is Some);
                            assert(s@.len() == s.len());
                            lemma_byte_len_sub(s@, 0, q as int);
                            lemma_trim_byte_len(before@);
                        }
                        let n = bytes_of(name.as_slice());
                        out.push((off[p] as u32, n as u32, PROPERTY));
                    },
                    None => {},
                }
            }
            out.push((off[q] as u32, 1, OPERATOR));
        },
    }
    assert(out@ =~= old(out)@ + property_tokens(s@));
}

/// The optional index as a mathematical integer.
pub open spec fn opt_int(o: Option<usize>) -> Option<int> {
    match o {
        Some(k) => Some(k as int),
        None => None,
    }
}

/// Appends the string literals of a line.
fn push_strings(s: &[char], off: &Vec<usize>, out: &mut Vec<LineToken>)
    requires
        offsets_of(s@, off@),
    ensures
        final(out)@ == old(out)@ + string_scan(s@, 0, None),
{
    let mut open: Option<usize> = None;
    let mut k: usize = 0;
    while k < s.len()
        invariant
            k <= s.len(),
            offsets_of(s@, off@),
            match open {
                Some(st) => st < k,
                None => true,
            },
            old(out)@ + string_scan(s@, 0, None) == out@ + string_scan(s@, k as int, opt_int(open)),
        decreases s.len() - k,
    {
        let ghost before = out@;
        let ghost before_open = opt_int(open);
        if s[k] == '"' {
            match open {
                Some(st) => {
                    proof {
                        lemma_byte_len_mono(s@, st as int, k as int);
                        crate::text::lemma_byte_len_take(s@, k as int);
                        assert(off@[k + 1] <= byte_len(s@));
                    }
                    out.push((off[st] as u32, (off[k] - off[st] + 1) as u32, STRING));
                    open = None;
                },
                None => {
                    open = Some(k);
                },
            }
        }
        k += 1;
        proof {
            assert(out@ + string_scan(s@, k as int, opt_int(open)) =~= before + string_scan(
                s@,
                k - 1,
                before_open,
            ));
        }
    }
    assert(out@ + string_scan(s@, k as int, opt_int(open)) =~= out@);
}

/// Whether the character at index `k` (if any) may border a number.
fn not_word_at(s: &[char], k: usize) -> (r: bool)
    ensures
        r == not_word(char_at(s@, k as int)),
{
    if k < s.len() {
        let c = s[k];
        !char_is_alphanumeric(c) && c != '_'
    } else {
        true
    }
}

proof fn lemma_digit_run_le(s: Seq<char>, k: int)
    requires
        0 <= k <= s.len(),
    ensures
        digit_run(s, k) <= s.len() - k,
    decreases s.len() - k,
{
    if k < s.len() && is_ascii_digit(s[k]) {
        lemma_digit_run_le(s, k + 1);
    }
}

/// The number of ASCII digits in a row from `k` on.
fn count_digits(s: &[char], k: usize) -> (r: usize)
    requires
        k <= s.len(),
    ensures
        r == digit_run(s@, k as int),
        r <= s.len() - k,
{
    let mut j = k;
    while j < s.len() && ascii_digit(s[j])
        invariant
            k <= j <= s.len(),
            digit_run(s@, k as int) == (j - k) + digit_run(s@, j as int),
        decreases s.len() - j,
    {
        j += 1;
    }
    proof {
        lemma_digit_run_le(s@, k as int);
    }
    j - k
}

/// Appends the number literals of a line.
fn push_numbers(s: &[char], off: &Vec<usize>, out: &mut Vec<LineToken>)
    requires
        offsets_of(s@, off@),
    ensures
        final(out)@ == old(out)@ + number_scan(s@, 0),
{
    let mut k: usize = 0;
    while k < s.len()
        invariant
            k <= s.len(),
            offsets_of(s@, off@),
            old(out)@ + number_scan(s@, 0) == out@ + number_scan(s@, k as int),
        decreases s.len() - k,
    {
        let ghost before = out@;
        if ascii_digit(s[k]) {
            proof {
                crate::text::lemma_byte_len_take(s@, k as int);
                assert(off@[k + 1] <= byte_len(s@));
                crate::text::lemma_len_le_byte_len(s@);
            }
            let i = off[k];
            let prev = if i > 0 {
                not_word_at(s, i - 1)
            } else {
                true
            };
            let next = not_word_at(s, i + 1);
            if prev && next {
                out.push((i as u32, 1, NUMBER));
            } else if prev {
                let run = count_digits(s, k);
                out.push((i as u32, run as u32, NUMBER));
            }
        }
        k += 1;
        proof {
            assert(out@ + number_scan(s@, k as int) =~= before + number_scan(s@, k - 1));
        }
    }
    assert(out@ + number_scan(s@, k as int) =~= out@);
}

/// Every token found on a line, in the order the scans find them.
fn scan_line(s: &[char], off: &Vec<usize>) -> (r: Vec<LineToken>)
    requires
        offsets_of(s@, off@),
    ensures
        r@ == raw_tokens(s@),
{
    let mut out: Vec<LineToken> = Vec::new();
    push_keyword_tokens(s, off, &mut out);
    proof {
        crate::text::lemma_len_le_byte_len(s@);
    }
    push_resource_types(s, &mut out);
    push_regions(s, off, &mut out);
    push_env(s, off, &mut out);
    push_property(s, off, &mut out);
    push_strings(s, off, &mut out);
    push_numbers(s, off, &mut out);
    let true_word = chars_of("true");
    let false_word = chars_of("false");
    push_pattern_scan(s, off, true_word.as_slice(), KEYWORD, &mut out);
    push_pattern_scan(s, off, false_word.as_slice(), KEYWORD, &mut out);
    assert(out@ =~= raw_tokens(s@));
    out
}

/// Orders tokens by start, keeping the first token found at each start.
fn order_tokens(raw: &Vec<LineToken>) -> (r: Vec<LineToken>)
    ensures
        r@ == ordered_firsts(raw@),
{
    let mut acc: Vec<LineToken> = Vec::new();
    let mut i: usize = 0;
    proof {
        assert(raw@.take(0) =~= Seq::<LineToken>::empty());
    }
    while i < raw.len()
        invariant
            i <= raw.len(),
            acc@ == ordered_firsts(raw@.take(i as int)),
        decreases raw.len() - i,
    {
        proof {
            assert(raw@.take(i + 1).drop_last() =~= raw@.take(i as int));
        }
        let t = raw[i];
        let mut j: usize = 0;
        while j < acc.len() && acc[j].0 < t.0
            invariant
                j <= acc.len(),
                insert_pos(acc@, t.0, 0) == insert_pos(acc@, t.0, j as int),
            decreases acc.len() - j,
        {
            j += 1;
        }
        if !(j < acc.len() && acc[j].0 == t.0) {
            acc.insert(j, t);
        }
        i += 1;
    }
    proof {
        assert(raw@.take(i as int) =~= raw@);
    }
    acc
}

/// The tokens of one line given as characters.
fn tokens_of_line(s: &[char]) -> (r: Vec<LineToken>)
    requires
        byte_len(s@) <= u32::MAX,
    ensures
        r@ == line_tokens(s@),
{
    let off = byte_offsets(s);
    let lead = count_leading_space(s);
    proof {
        crate::text::lemma_leading_space_bound(s@);
        assert(s@.take(s.len() as int) =~= s@);
    }
    if lead == s.len() {
        return Vec::new();
    }
    let t = slice_chars(s, lead, s.len());
    assert(t@ =~= trim_start(s@));
    let slashes = chars_of("//");
    if starts_with(t.as_slice(), slashes.as_slice()) {
        let mut v: Vec<LineToken> = Vec::new();
        v.push((off[lead] as u32, (off[s.len()] - off[lead]) as u32, COMMENT));
        return v;
    }
    let raw = scan_line(s, &off);
    order_tokens(&raw)
}

// ---------------------------------------------------------------------------
// The whole text
// ---------------------------------------------------------------------------

/// A token as the editor protocol encodes it: relative to the previous token
/// (its line, and its start when on the same line).
#[derive(Debug, Clone, Copy, PartialEq, Eq, Structural)]
pub struct SemanticToken {
    pub delta_line: u32,
    pub delta_start: u32,
    pub length: u32,
    pub token_type: u32,
    pub token_modifiers_bitset: u32,
}

/// The tokens of each line in turn, with the index of their line.
pub open spec fn indexed_tokens(lines: Seq<Seq<char>>) -> Seq<(int, LineToken)>
    decreases lines.len(),
{
    if lines.len() == 0 {
        seq![]
    } else {
        let n = lines.len() - 1;
        indexed_tokens(lines.drop_last()) + line_tokens(lines.last()).map_values(
            |t: LineToken| (n, t),
        )
    }
}

/// The encoded form of the `n`th token, relative to the one before it (or
/// to line 0, column 0).
pub open spec fn encoded_at(toks: Seq<(int, LineToken)>, n: int) -> SemanticToken {
    let (line, t) = toks[n];
    let (prev_line, prev_start) = if n == 0 {
        (0int, 0int)
    } else {
        (toks[n - 1].0, toks[n - 1].1.0 as int)
    };
    let delta_line = line - prev_line;
    SemanticToken {
        delta_line: delta_line as u32,
        delta_start: if delta_line == 0 {
            (t.0 - prev_start) as u32
        } else {
            t.0
        },
        length: t.1,
        token_type: t.2,
        token_modifiers_bitset: 0,
    }
}

/// The highlighting of a whole text.
pub open spec fn encoded_tokens(text: Seq<char>) -> Seq<SemanticToken> {
    let toks = indexed_tokens(text_lines(text));
    Seq::new(toks.len(), |n: int| encoded_at(toks, n))
}

/// Computes the semantic tokens of `.crn` text.
pub struct SemanticTokensProvider;

impl SemanticTokensProvider {
    pub fn new() -> (r: Self)
        ensures
            r == SemanticTokensProvider,
    {
        SemanticTokensProvider
    }

    /// Tokenizes one line, returning `(start column, length, kind)` triples
    /// ordered by start column.
    pub fn tokenize_line(&self, line: &str, _line_idx: u32) -> (r: Vec<LineToken>)
        requires
            byte_len(line@) <= u32::MAX,
        ensures
            r@ == line_tokens(line@),
    {
        let s = chars_of(line);
        tokens_of_line(s.as_slice())
    }

    /// Appends the resource types of a line (`aws.s3.bucket` followed by a
    /// space, `{` or the end of the line); their columns count characters.
    pub fn find_resource_types(&self, line: &str, tokens: &mut Vec<LineToken>)
        requires
            line@.len() <= u32::MAX,
        ensures
            final(tokens)@ == old(tokens)@ + resource_scan(line@, 0),
    {
        let s = chars_of(line);
        push_resource_types(s.as_slice(), tokens);
    }
}

/// The tokens of a line come ordered by strictly increasing start.
pub proof fn lemma_line_tokens_ordered(s: Seq<char>)
    ensures
        strictly_ordered(line_tokens(s)),
{
    lemma_ordered_firsts_ordered(raw_tokens(s));
}

/// Whether the remembered line and start are those of the last of `toks`
/// (line 0, column 0 when there is none).
pub open spec fn last_matches(toks: Seq<(int, LineToken)>, prev_line: u32, prev_start: u32) -> bool {
    &&& toks.len() == 0 ==> prev_line == 0 && prev_start == 0
    &&& toks.len() > 0 ==> prev_line == toks.last().0 && prev_start == toks.last().1.0
}

/// Appends the encoded tokens of line `li`.
fn encode_line(
    out: &mut Vec<SemanticToken>,
    prev_line: &mut u32,
    prev_start: &mut u32,
    li: u32,
    lt: &Vec<LineToken>,
    Ghost(base): Ghost<Seq<(int, LineToken)>>,
)
    requires
        strictly_ordered(lt@),
        old(out)@.len() == base.len(),
        forall|k: int| 0 <= k < base.len() ==> #[trigger] old(out)@[k] == encoded_at(base, k),
        last_matches(base, *old(prev_line), *old(prev_start)),
        base.len() > 0 ==> base.last().0 < li,
    ensures
        ({
            let all = base + lt@.map_values(|t: LineToken| (li as int, t));
            &&& final(out)@.len() == all.len()
            &&& forall|k: int| 0 <= k < all.len() ==> #[trigger] final(out)@[k] == encoded_at(all, k)
            &&& last_matches(all, *final(prev_line), *final(prev_start))
            &&& all.len() > 0 ==> all.last().0 <= li
        }),
{
    let ghost here = lt@.map_values(|t: LineToken| (li as int, t));
    let mut m: usize = 0;
    while m < lt.len()
        invariant
            m <= lt.len(),
            strictly_ordered(lt@),
            here == lt@.map_values(|t: LineToken| (li as int, t)),
            out@.len() == base.len() + m,
            forall|k: int| 0 <= k < out@.len() ==> #[trigger] out@[k] == encoded_at(base + here, k),
            m == 0 ==> last_matches(base, *prev_line, *prev_start),
            m == 0 ==> (base.len() > 0 ==> base.last().0 < li),
            m > 0 ==> *prev_line == li && *prev_start == lt@[m - 1].0,
        decreases lt.len() - m,
    {
        let t = lt[m];
        let delta_line = li - *prev_line;
        let delta_start = if delta_line == 0 {
            t.0 - *prev_start
        } else {
            t.0
        };
        let tok = SemanticToken {
            delta_line,
            delta_start,
            length: t.1,
            token_type: t.2,
            token_modifiers_bitset: 0,
        };
        proof {
            let all = base + here;
            let k = base.len() + m;
            assert(all[k] == (li as int, t));
            if m > 0 {
                assert(all[k - 1] == (li as int, lt@[m - 1]));
            } else if base.len() > 0 {
                assert(all[k - 1] == base.last());
            }
            assert(tok == encoded_at(all, k));
        }
        out.push(tok);
        *prev_line = li;
        *prev_start = t.0;
        m += 1;
    }
    proof {
        let all = base + here;
        if lt.len() == 0 {
            assert(all =~= base);
        } else {
            assert(all.last() == (li as int, lt@[lt.len() - 1]));
        }
    }
}

impl SemanticTokensProvider {
    /// Tokenizes a whole text, line by line, encoding each token relative to
    /// the one before it.
    pub fn tokenize(&self, text: &str) -> (r: Vec<SemanticToken>)
        requires
            byte_len(text@) <= u32::MAX,
        ensures
            r@ == encoded_tokens(text@),
    {
        let chars = chars_of(text);
        let pieces = crate::text::split_chars(chars.as_slice(), '\n');
        let n = chars.len();
        let count = if n > 0 && chars[n - 1] != '\n' {
            pieces.len()
        } else {
            pieces.len() - 1
        };
        let ghost lines = text_lines(text@);
        proof {
            crate::text::lemma_split_len(text@, '\n');
            crate::text::lemma_split_bytes(text@, '\n');
            crate::text::lemma_len_le_byte_len(text@);
            assert(lines.len() == count);
            assert(lines.take(0) =~= Seq::<Seq<char>>::empty());
        }
        let mut out: Vec<SemanticToken> = Vec::new();
        let mut prev_line: u32 = 0;
        let mut prev_start: u32 = 0;
        let mut li: usize = 0;
        while li < count
            invariant
                li <= count == lines.len(),
                count <= u32::MAX,
                lines == text_lines(text@),
                crate::text::views(pieces@) == split(text@, '\n'),
                forall|i: int| 0 <= i < pieces.len() ==> byte_len(#[trigger] split(text@, '\n')[i]) <= byte_len(text@),
                byte_len(text@) <= u32::MAX,
                out@.len() == indexed_tokens(lines.take(li as int)).len(),
                forall|m: int| 0 <= m < out@.len() ==> #[trigger] out@[m] == encoded_at(indexed_tokens(lines.take(li as int)), m),
                last_matches(indexed_tokens(lines.take(li as int)), prev_line, prev_start),
                indexed_tokens(lines.take(li as int)).len() > 0 ==> indexed_tokens(
                    lines.take(li as int),
                ).last().0 < li,
            decreases count - li,
        {
            proof {
                assert(crate::text::views(pieces@)[li as int] == pieces@[li as int]@);
            }
            let line = if li + 1 < pieces.len() {
                strip_cr_chars(pieces[li].as_slice())
            } else {
                slice_chars(pieces[li].as_slice(), 0, pieces[li].len())
            };
            proof {
                assert(pieces[li as int]@.subrange(0, pieces[li as int]@.len() as int) =~= pieces[li as int]@);
                assert(line@ == lines[li as int]);
                assert(byte_len(split(text@, '\n')[li as int]) <= byte_len(text@));
            }
            let lt = tokens_of_line(line.as_slice());
            proof {
                lemma_line_tokens_ordered(line@);
            }
            let ghost base = indexed_tokens(lines.take(li as int));
            encode_line(&mut out, &mut prev_line, &mut prev_start, li as u32, &lt, Ghost(base));
            proof {
                assert(lines.take(li + 1).drop_last() =~= lines.take(li as int));
                assert(lines.take(li + 1).last() == lines[li as int]);
                assert(indexed_tokens(lines.take(li + 1)) == base + lt@.map_values(
                    |t: LineToken| (li as int, t),
                ));
            }
            li += 1;
        }
        proof {
            assert(lines.take(li as int) =~= lines);
            assert(out@ =~= encoded_tokens(text@));
        }
        out
    }
}

} // verus!
