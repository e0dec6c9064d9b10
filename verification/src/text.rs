//! Character-level text helpers shared by the parser, the formatter and the
//! validators. Text is handled as sequences of `char`.

use vstd::prelude::*;

verus! {

// ---------------------------------------------------------------------------
// Character classes
// ---------------------------------------------------------------------------

pub open spec fn is_ascii_lower(c: char) -> bool {
    'a' <= c && c <= 'z'
}

pub open spec fn is_ascii_upper(c: char) -> bool {
    'A' <= c && c <= 'Z'
}

pub open spec fn is_ascii_digit(c: char) -> bool {
    '0' <= c && c <= '9'
}

pub open spec fn is_ascii_alpha(c: char) -> bool {
    is_ascii_lower(c) || is_ascii_upper(c)
}

pub open spec fn is_ascii_alnum(c: char) -> bool {
    is_ascii_alpha(c) || is_ascii_digit(c)
}

pub open spec fn is_ident_char(c: char) -> bool {
    is_ascii_alnum(c) || c == '_'
}

pub fn ascii_lower(c: char) -> (r: bool)
    ensures
        r == is_ascii_lower(c),
{
    'a' <= c && c <= 'z'
}

pub fn ascii_upper(c: char) -> (r: bool)
    ensures
        r == is_ascii_upper(c),
{
    'A' <= c && c <= 'Z'
}

pub fn ascii_digit(c: char) -> (r: bool)
    ensures
        r == is_ascii_digit(c),
{
    '0' <= c && c <= '9'
}

pub fn ascii_alpha(c: char) -> (r: bool)
    ensures
        r == is_ascii_alpha(c),
{
    ascii_lower(c) || ascii_upper(c)
}

pub fn ascii_alnum(c: char) -> (r: bool)
    ensures
        r == is_ascii_alnum(c),
{
    ascii_alpha(c) || ascii_digit(c)
}

pub fn ident_char(c: char) -> (r: bool)
    ensures
        r == is_ident_char(c),
{
    ascii_alnum(c) || c == '_'
}

/// The upper-case mapping of a character as `char::to_uppercase` yields it.
pub uninterp spec fn uppercase_of(c: char) -> Seq<char>;

/// The lower-case mapping of a character as `char::to_lowercase` yields it.
pub uninterp spec fn lowercase_of(c: char) -> Seq<char>;

/// The lower-case form of a string as `str::to_lowercase` gives it.
pub uninterp spec fn lowercase_str(s: Seq<char>) -> Seq<char>;

/// Whether a character has the Unicode `Uppercase` property (`char::is_uppercase`).
pub uninterp spec fn unicode_upper(c: char) -> bool;

/// Whether a character has the Unicode `Lowercase` property (`char::is_lowercase`).
pub uninterp spec fn unicode_lower(c: char) -> bool;

/// Whether a character is alphabetic or numeric in Unicode (`char::is_alphanumeric`).
pub uninterp spec fn unicode_alnum(c: char) -> bool;

/// Whether a character has the Unicode `White_Space` property (`char::is_whitespace`).
pub uninterp spec fn unicode_space(c: char) -> bool;

/// Whether a character is white space: among ASCII characters the space and
/// U+0009 to U+000D; otherwise the Unicode `White_Space` property.
pub open spec fn space_char(c: char) -> bool {
    if (c as u32) < 128 {
        c == ' ' || (9 <= (c as u32) && (c as u32) <= 13)
    } else {
        unicode_space(c)
    }
}

/// Whether a character is upper case: `A`..=`Z` among ASCII characters;
/// otherwise the Unicode `Uppercase` property.
pub open spec fn upper_char(c: char) -> bool {
    if (c as u32) < 128 {
        is_ascii_upper(c)
    } else {
        unicode_upper(c)
    }
}

/// Whether a character is lower case: `a`..=`z` among ASCII characters;
/// otherwise the Unicode `Lowercase` property.
pub open spec fn lower_char(c: char) -> bool {
    if (c as u32) < 128 {
        is_ascii_lower(c)
    } else {
        unicode_lower(c)
    }
}

/// Whether a character is a letter or digit: ASCII letters and digits among
/// ASCII characters; otherwise Unicode's alphabetic or numeric characters.
pub open spec fn alnum_char(c: char) -> bool {
    if (c as u32) < 128 {
        is_ascii_alnum(c)
    } else {
        unicode_alnum(c)
    }
}

/// The upper-case form of a character: for ASCII, the upper-case letter of a
/// lower-case letter and the character itself otherwise.
pub open spec fn upper_text(c: char) -> Seq<char> {
    if is_ascii_lower(c) {
        seq![((c as u32) - 32) as char]
    } else if (c as u32) < 128 {
        seq![c]
    } else {
        uppercase_of(c)
    }
}

/// The lower-case form of a character: for ASCII, the lower-case letter of
/// an upper-case letter and the character itself otherwise.
pub open spec fn lower_text(c: char) -> Seq<char> {
    if is_ascii_upper(c) {
        seq![((c as u32) + 32) as char]
    } else if (c as u32) < 128 {
        seq![c]
    } else {
        lowercase_of(c)
    }
}

/// The lower-case form of a text: for ASCII text, each upper-case letter
/// replaced by its lower-case letter.
pub open spec fn lower_str(s: Seq<char>) -> Seq<char> {
    if forall|i: int| 0 <= i < s.len() ==> (#[trigger] s[i] as u32) < 128 {
        Seq::new(s.len(), |i: int| if is_ascii_upper(s[i]) { ((s[i] as u32) + 32) as char } else { s[i] })
    } else {
        lowercase_str(s)
    }
}

/// Calls `char::is_whitespace`: the Unicode `White_Space` property, which
/// among ASCII characters holds exactly of the space and of U+0009 to U+000D.
#[verifier::external_body]
pub fn char_is_whitespace(c: char) -> (r: bool)
    ensures
        r == unicode_space(c),
        r == space_char(c),
        (c as u32) < 128 ==> (r == (c == ' ' || (9 <= (c as u32) && (c as u32) <= 13))),
{
    c.is_whitespace()
}

/// Calls `char::to_uppercase`. The contract states the name of the result
/// and what the standard library documents for ASCII characters: a lower-case
/// ASCII letter maps to its upper-case letter and every other ASCII character
/// maps to itself. For other characters nothing beyond the name is stated.
#[verifier::external_body]
pub fn char_to_uppercase(c: char) -> (r: Vec<char>)
    ensures
        r@ == uppercase_of(c),
        r@ == upper_text(c),
        r@.len() >= 1,
        is_ascii_lower(c) ==> r@ == seq![((c as u32) - 32) as char],
        (c as u32) < 128 && !is_ascii_lower(c) ==> r@ == seq![c],
{
    c.to_uppercase().collect()
}

/// Calls `char::to_lowercase`. The contract states the name of the result
/// and the documented ASCII behaviour: an upper-case ASCII letter maps to its
/// lower-case letter and every other ASCII character maps to itself.
#[verifier::external_body]
pub fn char_to_lowercase(c: char) -> (r: Vec<char>)
    ensures
        r@ == lowercase_of(c),
        r@ == lower_text(c),
        r@.len() >= 1,
        is_ascii_upper(c) ==> r@ == seq![((c as u32) + 32) as char],
        (c as u32) < 128 && !is_ascii_upper(c) ==> r@ == seq![c],
{
    c.to_lowercase().collect()
}

/// Calls `char::is_uppercase`: the Unicode `Uppercase` property, which holds
/// exactly of `A`..=`Z` among ASCII characters.
#[verifier::external_body]
pub fn char_is_uppercase(c: char) -> (r: bool)
    ensures
        r == unicode_upper(c),
        r == upper_char(c),
        (c as u32) < 128 ==> (r == is_ascii_upper(c)),
{
    c.is_uppercase()
}

/// Calls `char::is_lowercase`: the Unicode `Lowercase` property, which holds
/// exactly of `a`..=`z` among ASCII characters.
#[verifier::external_body]
pub fn char_is_lowercase(c: char) -> (r: bool)
    ensures
        r == unicode_lower(c),
        r == lower_char(c),
        (c as u32) < 128 ==> (r == is_ascii_lower(c)),
{
    c.is_lowercase()
}

/// Calls `char::is_alphanumeric`, which among ASCII characters holds exactly
/// of letters and digits.
#[verifier::external_body]
pub fn char_is_alphanumeric(c: char) -> (r: bool)
    ensures
        r == unicode_alnum(c),
        r == alnum_char(c),
        (c as u32) < 128 ==> (r == is_ascii_alnum(c)),
{
    c.is_alphanumeric()
}

/// Calls `str::to_lowercase`. The contract states the name of the result and
/// the documented behaviour on ASCII text: each upper-case ASCII letter is
/// replaced by its lower-case letter and every other ASCII character is kept.
#[verifier::external_body]
pub fn str_to_lowercase(s: &str) -> (r: String)
    ensures
        r@ == lowercase_str(s@),
        r@ == lower_str(s@),
        (forall|i: int| 0 <= i < s@.len() ==> (#[trigger] s@[i] as u32) < 128) ==> r@ == Seq::new(
            s@.len(),
            |i: int| if is_ascii_upper(s@[i]) { ((s@[i] as u32) + 32) as char } else { s@[i] },
        ),
{
    s.to_lowercase()
}

// ---------------------------------------------------------------------------
// Strings and character vectors
// ---------------------------------------------------------------------------

/// Calls `String::push`, which appends one character to the string.
#[verifier::external_body]
pub fn push_char(s: &mut String, c: char)
    ensures
        final(s)@ == old(s)@.push(c),
{
    s.push(c);
}

/// The characters of a string slice, in order.
pub fn chars_of(s: &str) -> (r: Vec<char>)
    ensures
        r@ == s@,
{
    broadcast use vstd::string::group_string_axioms;

    let mut v: Vec<char> = Vec::new();
    for c in it: s.chars()
        invariant
            v@ == it.seq().take(it.index() as int),
            it.seq() == s@,
    {
        v.push(c);
    }
    proof {
        assert(v@ =~= s@);
    }
    v
}

/// A string holding the given characters.
pub fn string_of(v: &[char]) -> (r: String)
    ensures
        r@ == v@,
{
    let mut s = String::new();
    let mut i: usize = 0;
    while i < v.len()
        invariant
            i <= v.len(),
            s@ == v@.take(i as int),
        decreases v.len() - i,
    {
        push_char(&mut s, v[i]);
        i += 1;
        proof {
            assert(v@.take(i as int) =~= v@.take(i - 1).push(v@[i - 1]));
        }
    }
    proof {
        assert(v@.take(v.len() as int) =~= v@);
    }
    s
}

/// A string with the same characters as the given slice.
pub fn str_to_string(s: &str) -> (r: String)
    ensures
        r@ == s@,
{
    let v = chars_of(s);
    string_of(v.as_slice())
}

/// Appends the characters of a slice to a string.
pub fn push_chars(s: &mut String, v: &[char])
    ensures
        final(s)@ == old(s)@ + v@,
{
    let mut i: usize = 0;
    while i < v.len()
        invariant
            i <= v.len(),
            s@ == old(s)@ + v@.take(i as int),
        decreases v.len() - i,
    {
        push_char(s, v[i]);
        i += 1;
        proof {
            assert(v@.take(i as int) =~= v@.take(i - 1).push(v@[i - 1]));
        }
    }
    proof {
        assert(v@.take(v.len() as int) =~= v@);
    }
}

/// Appends a string slice to a string.
pub fn push_str(s: &mut String, t: &str)
    ensures
        final(s)@ == old(s)@ + t@,
{
    let v = chars_of(t);
    push_chars(s, v.as_slice());
}

/// Whether two character slices are equal.
pub fn chars_eq(a: &[char], b: &[char]) -> (r: bool)
    ensures
        r == (a@ == b@),
{
    if a.len() != b.len() {
        return false;
    }
    let mut i: usize = 0;
    while i < a.len()
        invariant
            i <= a.len(),
            a.len() == b.len(),
            a@.take(i as int) == b@.take(i as int),
        decreases a.len() - i,
    {
        if a[i] != b[i] {
            assert(a@[i as int] != b@[i as int]);
            return false;
        }
        i += 1;
        proof {
            assert(a@.take(i as int) =~= a@.take(i - 1).push(a@[i - 1]));
            assert(b@.take(i as int) =~= b@.take(i - 1).push(b@[i - 1]));
        }
    }
    proof {
        assert(a@ =~= a@.take(a.len() as int));
        assert(b@ =~= b@.take(b.len() as int));
    }
    true
}

/// Whether two string slices hold the same characters.
pub fn str_eq(a: &str, b: &str) -> (r: bool)
    ensures
        r == (a@ == b@),
{
    let va = chars_of(a);
    let vb = chars_of(b);
    chars_eq(va.as_slice(), vb.as_slice())
}

/// A copy of a string.
pub fn copy_string(s: &String) -> (r: String)
    ensures
        r@ == s@,
{
    s.clone()
}

// ---------------------------------------------------------------------------
// Sequence functions on characters
// ---------------------------------------------------------------------------

/// The character sequences held by a sequence of character vectors.
pub open spec fn views(v: Seq<Vec<char>>) -> Seq<Seq<char>> {
    Seq::new(v.len(), |i: int| v[i]@)
}

/// Whether `c` occurs in `s`.
pub open spec fn has_char(s: Seq<char>, c: char) -> bool {
    exists|i: int| 0 <= i < s.len() && s[i] == c
}

/// Whether `p` is a prefix of `s`.
pub open spec fn is_prefix(p: Seq<char>, s: Seq<char>) -> bool {
    p.len() <= s.len() && s.take(p.len() as int) == p
}

/// Whether `p` is a suffix of `s`.
pub open spec fn is_suffix(p: Seq<char>, s: Seq<char>) -> bool {
    p.len() <= s.len() && s.skip(s.len() - p.len()) == p
}

/// The pieces of `s` between occurrences of `sep`, as `str::split` yields them.
pub open spec fn split(s: Seq<char>, sep: char) -> Seq<Seq<char>>
    decreases s.len(),
{
    if s.len() == 0 {
        seq![Seq::<char>::empty()]
    } else {
        let rest = split(s.drop_last(), sep);
        if s.last() == sep {
            rest.push(Seq::<char>::empty())
        } else {
            rest.update(rest.len() - 1, rest.last().push(s.last()))
        }
    }
}

pub proof fn lemma_split_nonempty(s: Seq<char>, sep: char)
    ensures
        split(s, sep).len() >= 1,
    decreases s.len(),
{
    if s.len() > 0 {
        lemma_split_nonempty(s.drop_last(), sep);
    }
}

/// Whether `c` occurs in the slice.
pub fn contains_char(v: &[char], c: char) -> (r: bool)
    ensures
        r == has_char(v@, c),
{
    let mut i: usize = 0;
    while i < v.len()
        invariant
            i <= v.len(),
            forall|j: int| 0 <= j < i ==> v@[j] != c,
        decreases v.len() - i,
    {
        if v[i] == c {
            return true;
        }
        i += 1;
    }
    false
}

/// Whether `c` occurs in the string.
pub fn str_contains_char(s: &str, c: char) -> (r: bool)
    ensures
        r == has_char(s@, c),
{
    let v = chars_of(s);
    contains_char(v.as_slice(), c)
}

/// Whether the slice starts with the given characters.
pub fn starts_with(v: &[char], p: &[char]) -> (r: bool)
    ensures
        r == is_prefix(p@, v@),
{
    if p.len() > v.len() {
        return false;
    }
    let mut i: usize = 0;
    while i < p.len()
        invariant
            i <= p.len(),
            p.len() <= v.len(),
            forall|j: int| 0 <= j < i ==> v@[j] == p@[j],
        decreases p.len() - i,
    {
        if v[i] != p[i] {
            proof {
                assert(v@.take(p.len() as int)[i as int] != p@[i as int]);
            }
            return false;
        }
        i += 1;
    }
    proof {
        assert(v@.take(p.len() as int) =~= p@);
    }
    true
}

/// The pieces of the slice between occurrences of `sep`.
pub fn split_chars(v: &[char], sep: char) -> (r: Vec<Vec<char>>)
    ensures
        views(r@) == split(v@, sep),
        r.len() >= 1,
{
    let mut parts: Vec<Vec<char>> = Vec::new();
    let mut cur: Vec<char> = Vec::new();
    let mut i: usize = 0;
    while i < v.len()
        invariant
            i <= v.len(),
            views(parts@).push(cur@) == split(v@.take(i as int), sep),
        decreases v.len() - i,
    {
        let c = v[i];
        proof {
            let s = v@.take(i + 1);
            assert(s.drop_last() =~= v@.take(i as int));
            assert(s.last() == c);
        }
        if c == sep {
            let ghost old_parts = views(parts@);
            let ghost old_cur = cur@;
            parts.push(cur);
            cur = Vec::new();
            proof {
                assert(views(parts@) =~= old_parts.push(old_cur));
                assert(views(parts@).push(cur@) =~= old_parts.push(old_cur).push(
                    Seq::<char>::empty(),
                ));
            }
        } else {
            let ghost old_parts = views(parts@);
            let ghost old_cur = cur@;
            cur.push(c);
            proof {
                let rest = old_parts.push(old_cur);
                assert(views(parts@).push(cur@) =~= rest.update(
                    rest.len() - 1,
                    rest.last().push(c),
                ));
            }
        }
        i += 1;
    }
    proof {
        assert(v@.take(v.len() as int) =~= v@);
    }
    let ghost before = views(parts@);
    parts.push(cur);
    proof {
        assert(views(parts@) =~= before.push(cur@));
    }
    parts
}

/// The last piece of `s` after splitting at `sep`.
pub open spec fn last_piece(s: Seq<char>, sep: char) -> Seq<char> {
    split(s, sep).last()
}

/// A text without the separator splits into itself alone.
pub proof fn lemma_split_no_sep(s: Seq<char>, sep: char)
    requires
        !has_char(s, sep),
    ensures
        split(s, sep) == seq![s],
    decreases s.len(),
{
    if s.len() > 0 {
        assert(!has_char(s.drop_last(), sep)) by {
            if has_char(s.drop_last(), sep) {
                let i = choose|i: int| 0 <= i < s.drop_last().len() && s.drop_last()[i] == sep;
                assert(s[i] == sep);
            }
        }
        lemma_split_no_sep(s.drop_last(), sep);
        assert(s[s.len() - 1] == s.last());
        assert(split(s, sep) =~= seq![s.drop_last().push(s.last())]);
        assert(s.drop_last().push(s.last()) =~= s);
    } else {
        assert(s =~= Seq::<char>::empty());
    }
}

/// Splitting around one separator splits each side.
pub proof fn lemma_split_concat(a: Seq<char>, b: Seq<char>, sep: char)
    ensures
        split(a + seq![sep] + b, sep) == split(a, sep) + split(b, sep),
    decreases b.len(),
{
    lemma_split_nonempty(a, sep);
    if b.len() == 0 {
        assert(a + seq![sep] + b =~= (a + seq![sep]));
        assert((a + seq![sep]).drop_last() =~= a);
        assert(split(a, sep) + split(b, sep) =~= split(a, sep).push(Seq::<char>::empty()));
    } else {
        let b1 = b.drop_last();
        lemma_split_concat(a, b1, sep);
        lemma_split_nonempty(b1, sep);
        let s = a + seq![sep] + b;
        assert(s.drop_last() =~= a + seq![sep] + b1);
        assert(s.last() == b.last());
        let l = split(a, sep);
        let r1 = split(b1, sep);
        if b.last() == sep {
            assert((l + r1).push(Seq::<char>::empty()) =~= l + r1.push(Seq::<char>::empty()));
        } else {
            assert((l + r1).update((l + r1).len() - 1, (l + r1).last().push(b.last())) =~= l + r1.update(
                r1.len() - 1,
                r1.last().push(b.last()),
            ));
        }
    }
}

/// Joining the pieces of a split with the separator gives the text back.
pub proof fn lemma_join_split(s: Seq<char>, sep: char)
    ensures
        join(split(s, sep), seq![sep]) == s,
    decreases s.len(),
{
    if s.len() == 0 {
        assert(split(s, sep) =~= seq![Seq::<char>::empty()]);
        assert(s =~= Seq::<char>::empty());
    } else {
        lemma_join_split(s.drop_last(), sep);
        lemma_split_nonempty(s.drop_last(), sep);
        let rest = split(s.drop_last(), sep);
        if s.last() == sep {
            let ps = rest.push(Seq::<char>::empty());
            assert(ps.drop_last() =~= rest);
            assert(join(ps, seq![sep]) == join(rest, seq![sep]) + seq![sep] + Seq::<char>::empty());
            assert(s =~= s.drop_last() + seq![sep] + Seq::<char>::empty());
        } else {
            let ps = rest.update(rest.len() - 1, rest.last().push(s.last()));
            if rest.len() == 1 {
                assert(join(rest, seq![sep]) == rest[0]);
                assert(join(ps, seq![sep]) == ps[0]);
                assert(s =~= rest[0].push(s.last()));
            } else {
                assert(ps.drop_last() =~= rest.drop_last());
                assert(join(ps, seq![sep]) == join(rest.drop_last(), seq![sep]) + seq![sep] + rest.last().push(s.last()));
                assert(join(rest, seq![sep]) == join(rest.drop_last(), seq![sep]) + seq![sep] + rest.last());
                assert(s =~= join(rest, seq![sep]).push(s.last()));
                assert(join(ps, seq![sep]) =~= join(rest, seq![sep]).push(s.last()));
            }
        }
    }
}

/// The last piece of a split holds no separator.
pub proof fn lemma_last_piece_no_sep(s: Seq<char>, sep: char)
    ensures
        !has_char(last_piece(s, sep), sep),
    decreases s.len(),
{
    if s.len() > 0 {
        lemma_split_nonempty(s.drop_last(), sep);
        lemma_last_piece_no_sep(s.drop_last(), sep);
        let rest = split(s.drop_last(), sep);
        if s.last() == sep {
            assert(last_piece(s, sep) =~= Seq::<char>::empty());
        } else {
            let p = rest.last().push(s.last());
            assert(last_piece(s, sep) == p);
            assert forall|i: int| 0 <= i < p.len() implies p[i] != sep by {
                if i < p.len() - 1 {
                    assert(p[i] == rest.last()[i]);
                }
            }
        }
    } else {
        assert(last_piece(s, sep) =~= Seq::<char>::empty());
    }
}

/// The last piece of the slice after splitting at `sep`.
pub fn last_piece_chars(v: &[char], sep: char) -> (r: Vec<char>)
    ensures
        r@ == last_piece(v@, sep),
{
    let parts = split_chars(v, sep);
    let n = parts.len();
    let p = &parts[n - 1];
    proof {
        assert(views(parts@)[n - 1] == p@);
    }
    let mut out: Vec<char> = Vec::new();
    let mut i: usize = 0;
    while i < p.len()
        invariant
            i <= p.len(),
            out@ == p@.take(i as int),
        decreases p.len() - i,
    {
        out.push(p[i]);
        i += 1;
        proof {
            assert(p@.take(i as int) =~= p@.take(i - 1).push(p@[i - 1]));
        }
    }
    proof {
        assert(p@.take(p.len() as int) =~= p@);
    }
    out
}

/// `s` with every `from` replaced by `to`.
pub open spec fn replace_char(s: Seq<char>, from: char, to: char) -> Seq<char> {
    Seq::new(s.len(), |i: int| if s[i] == from { to } else { s[i] })
}

/// The slice with every `from` replaced by `to`.
pub fn replace_char_chars(v: &[char], from: char, to: char) -> (r: Vec<char>)
    ensures
        r@ == replace_char(v@, from, to),
{
    let mut out: Vec<char> = Vec::new();
    let mut i: usize = 0;
    while i < v.len()
        invariant
            i <= v.len(),
            out@ == replace_char(v@.take(i as int), from, to),
        decreases v.len() - i,
    {
        let c = v[i];
        if c == from {
            out.push(to);
        } else {
            out.push(c);
        }
        i += 1;
        proof {
            assert(out@ =~= replace_char(v@.take(i as int), from, to));
        }
    }
    proof {
        assert(v@.take(v.len() as int) =~= v@);
    }
    out
}

/// The pieces joined with `sep` between neighbours.
pub open spec fn join(parts: Seq<Seq<char>>, sep: Seq<char>) -> Seq<char>
    decreases parts.len(),
{
    if parts.len() == 0 {
        Seq::<char>::empty()
    } else if parts.len() == 1 {
        parts[0]
    } else {
        join(parts.drop_last(), sep) + sep + parts.last()
    }
}

/// Joins character vectors with a separator.
pub fn join_chars(parts: &[Vec<char>], sep: &[char]) -> (r: Vec<char>)
    ensures
        r@ == join(views(parts@), sep@),
{
    let mut out: Vec<char> = Vec::new();
    let mut i: usize = 0;
    while i < parts.len()
        invariant
            i <= parts.len(),
            out@ == join(views(parts@).take(i as int), sep@),
        decreases parts.len() - i,
    {
        let ghost prev = out@;
        if i > 0 {
            let mut k: usize = 0;
            while k < sep.len()
                invariant
                    k <= sep.len(),
                    out@ == prev + sep@.take(k as int),
                decreases sep.len() - k,
            {
                out.push(sep[k]);
                k += 1;
                proof {
                    assert(sep@.take(k as int) =~= sep@.take(k - 1).push(sep@[k - 1]));
                }
            }
            proof {
                assert(sep@.take(sep.len() as int) =~= sep@);
            }
        }
        let ghost mid = out@;
        let p = &parts[i];
        let mut k: usize = 0;
        while k < p.len()
            invariant
                k <= p.len(),
                out@ == mid + p@.take(k as int),
            decreases p.len() - k,
        {
            out.push(p[k]);
            k += 1;
            proof {
                assert(p@.take(k as int) =~= p@.take(k - 1).push(p@[k - 1]));
            }
        }
        proof {
            assert(p@.take(p.len() as int) =~= p@);
            let dv = views(parts@);
            assert(dv[i as int] == p@);
            let t = dv.take(i + 1);
            assert(t.drop_last() =~= dv.take(i as int));
            if i == 0 {
                assert(out@ =~= join(t, sep@));
            } else {
                assert(out@ =~= join(t, sep@));
            }
        }
        i += 1;
    }
    proof {
        assert(views(parts@).take(parts.len() as int) =~= views(parts@));
    }
    out
}

/// The characters of a slice copied into a new vector.
pub fn copy_chars(v: &[char]) -> (r: Vec<char>)
    ensures
        r@ == v@,
{
    let mut out: Vec<char> = Vec::new();
    let mut i: usize = 0;
    while i < v.len()
        invariant
            i <= v.len(),
            out@ == v@.take(i as int),
        decreases v.len() - i,
    {
        out.push(v[i]);
        i += 1;
        proof {
            assert(v@.take(i as int) =~= v@.take(i - 1).push(v@[i - 1]));
        }
    }
    proof {
        assert(v@.take(v.len() as int) =~= v@);
    }
    out
}

// ---------------------------------------------------------------------------
// Decimal numbers
// ---------------------------------------------------------------------------

/// Whether every character is an ASCII digit.
pub open spec fn all_digits(s: Seq<char>) -> bool {
    forall|i: int| 0 <= i < s.len() ==> is_ascii_digit(#[trigger] s[i])
}

/// The number written by a string of ASCII digits.
pub open spec fn digits_value(s: Seq<char>) -> nat
    decreases s.len(),
{
    if s.len() == 0 {
        0
    } else {
        digits_value(s.drop_last()) * 10 + ((s.last() as nat) - ('0' as nat)) as nat
    }
}

/// What `str::parse::<u8>` gives: an optional `+`, then at least one digit,
/// with a value of at most 255.
pub open spec fn parse_u8(s: Seq<char>) -> Option<u8> {
    let d = if s.len() > 0 && s[0] == '+' {
        s.drop_first()
    } else {
        s
    };
    if d.len() == 0 || !all_digits(d) || digits_value(d) > 255 {
        None
    } else {
        Some(digits_value(d) as u8)
    }
}

pub proof fn lemma_digits_value_mono(s: Seq<char>, k: int)
    requires
        all_digits(s),
        0 <= k <= s.len(),
    ensures
        digits_value(s.take(k)) <= digits_value(s),
    decreases s.len() - k,
{
    if k < s.len() {
        lemma_digits_value_mono(s, k + 1);
        assert(s.take(k + 1).drop_last() =~= s.take(k));
        assert(is_ascii_digit(s[k]));
    } else {
        assert(s.take(k) =~= s);
    }
}

/// The value of a decimal `u8`, as `str::parse::<u8>` computes it.
pub fn parse_u8_chars(s: &[char]) -> (r: Option<u8>)
    ensures
        r == parse_u8(s@),
{
    let start: usize = if s.len() > 0 && s[0] == '+' {
        1
    } else {
        0
    };
    let ghost d = if s@.len() > 0 && s@[0] == '+' {
        s@.drop_first()
    } else {
        s@
    };
    proof {
        assert(d =~= s@.skip(start as int));
    }
    if start == s.len() {
        return None;
    }
    let mut value: u32 = 0;
    let mut i: usize = start;
    while i < s.len()
        invariant
            start <= i <= s.len(),
            d =~= s@.skip(start as int),
            d == (if s@.len() > 0 && s@[0] == '+' {
                s@.drop_first()
            } else {
                s@
            }),
            all_digits(d.take(i - start)),
            value as nat == digits_value(d.take(i - start)),
            value <= 255,
        decreases s.len() - i,
    {
        let c = s[i];
        if !ascii_digit(c) {
            proof {
                assert(d[i - start] == c);
                assert(!all_digits(d));
            }
            return None;
        }
        let ghost t = d.take(i - start + 1);
        proof {
            assert(t.drop_last() =~= d.take(i - start));
            assert(t.last() == c);
        }
        value = value * 10 + ((c as u32) - ('0' as u32));
        i += 1;
        proof {
            assert forall|j: int| 0 <= j < t.len() implies is_ascii_digit(#[trigger] t[j]) by {
                if j < t.len() - 1 {
                    assert(t[j] == d.take(i - 1 - start)[j]);
                }
            }
        }
        if value > 255 {
            proof {
                if all_digits(d) {
                    lemma_digits_value_mono(d, i - start);
                }
            }
            return None;
        }
    }
    proof {
        assert(d.take(s.len() - start) =~= d);
    }
    Some(value as u8)
}

/// The decimal digits of a natural number.
pub open spec fn nat_digits(n: nat) -> Seq<char>
    decreases n,
{
    if n < 10 {
        seq![(n + 48) as char]
    } else {
        nat_digits(n / 10).push(((n % 10) + 48) as char)
    }
}

/// The decimal text of an integer, with a leading `-` when it is negative.
pub open spec fn int_text(n: int) -> Seq<char> {
    if n < 0 {
        seq!['-'] + nat_digits((-n) as nat)
    } else {
        nat_digits(n as nat)
    }
}

/// The decimal digits of a `u64`.
pub fn u64_digits(n: u64) -> (r: Vec<char>)
    ensures
        r@ == nat_digits(n as nat),
    decreases n,
{
    if n < 10 {
        let mut v = Vec::new();
        v.push(((n as u32) + 48) as u8 as char);
        proof {
            assert(v@ =~= nat_digits(n as nat));
        }
        v
    } else {
        let mut v = u64_digits(n / 10);
        v.push((((n % 10) as u32) + 48) as u8 as char);
        v
    }
}

/// The decimal text of an `i64` (what `to_string` prints).
pub fn i64_text(n: i64) -> (r: Vec<char>)
    ensures
        r@ == int_text(n as int),
{
    if n < 0 {
        let m: u64 = if n == i64::MIN {
            9223372036854775808u64
        } else {
            (-n) as u64
        };
        let d = u64_digits(m);
        let mut v: Vec<char> = Vec::new();
        v.push('-');
        let mut i: usize = 0;
        while i < d.len()
            invariant
                i <= d.len(),
                v@ == seq!['-'] + d@.take(i as int),
            decreases d.len() - i,
        {
            v.push(d[i]);
            i += 1;
            proof {
                assert(d@.take(i as int) =~= d@.take(i - 1).push(d@[i - 1]));
            }
        }
        proof {
            assert(d@.take(d.len() as int) =~= d@);
        }
        v
    } else {
        u64_digits(n as u64)
    }
}

/// The decimal text of a `usize`.
pub fn usize_text(n: usize) -> (r: Vec<char>)
    ensures
        r@ == nat_digits(n as nat),
{
    u64_digits(n as u64)
}


/// Whether `a` comes before `b` in lexicographic order, comparing from
/// position `k` on (characters by their code points; a proper prefix first).
pub open spec fn lex_lt_from(a: Seq<char>, b: Seq<char>, k: nat) -> bool
    decreases a.len() - k,
{
    if k >= a.len() {
        k < b.len()
    } else if k >= b.len() {
        false
    } else if a[k as int] != b[k as int] {
        (a[k as int] as u32) < (b[k as int] as u32)
    } else {
        lex_lt_from(a, b, k + 1)
    }
}

/// Whether `a` comes strictly before `b` in lexicographic order, as `<` on
/// `String` orders them.
pub open spec fn lex_lt(a: Seq<char>, b: Seq<char>) -> bool {
    lex_lt_from(a, b, 0)
}

pub proof fn lemma_lex_irreflexive(a: Seq<char>, k: nat)
    ensures
        !lex_lt_from(a, a, k),
    decreases a.len() - k,
{
    if k < a.len() {
        lemma_lex_irreflexive(a, k + 1);
    }
}

pub proof fn lemma_lex_total(a: Seq<char>, b: Seq<char>, k: nat)
    requires
        a != b,
        k <= a.len(),
        k <= b.len(),
        a.take(k as int) == b.take(k as int),
    ensures
        lex_lt_from(a, b, k) || lex_lt_from(b, a, k),
    decreases a.len() - k,
{
    if k == a.len() && k == b.len() {
        assert(a =~= a.take(k as int));
        assert(b =~= b.take(k as int));
    } else if k < a.len() && k < b.len() && a[k as int] == b[k as int] {
        assert(a.take(k + 1int) =~= a.take(k as int).push(a[k as int]));
        assert(b.take(k + 1int) =~= b.take(k as int).push(b[k as int]));
        lemma_lex_total(a, b, k + 1);
    } else if k < a.len() && k < b.len() {
        vstd::utf8::char_u32_cast(a[k as int], a[k as int] as u32);
        vstd::utf8::char_u32_cast(b[k as int], b[k as int] as u32);
    }
}

pub proof fn lemma_lex_transitive(a: Seq<char>, b: Seq<char>, c: Seq<char>, k: nat)
    requires
        lex_lt_from(a, b, k),
        lex_lt_from(b, c, k),
    ensures
        lex_lt_from(a, c, k),
    decreases a.len() - k,
{
    if k < a.len() && k < b.len() && k < c.len() && a[k as int] == b[k as int] && b[k as int] == c[k as int] {
        lemma_lex_transitive(a, b, c, k + 1);
    }
}

/// Whether `a` comes strictly before `b` in lexicographic order.
pub fn str_lt(a: &str, b: &str) -> (r: bool)
    ensures
        r == lex_lt(a@, b@),
{
    let va = chars_of(a);
    let vb = chars_of(b);
    let mut k: usize = 0;
    while k < va.len()
        invariant
            k <= va.len(),
            va@ == a@,
            vb@ == b@,
            lex_lt(a@, b@) == lex_lt_from(a@, b@, k as nat),
        decreases va.len() - k,
    {
        if k >= vb.len() {
            return false;
        }
        let x = va[k];
        let y = vb[k];
        if x != y {
            return (x as u32) < (y as u32);
        }
        k += 1;
    }
    k < vb.len()
}

/// How many characters at the start of a text are white space.
pub open spec fn leading_space(s: Seq<char>) -> nat
    decreases s.len(),
{
    if s.len() == 0 || !space_char(s[0]) {
        0
    } else {
        1 + leading_space(s.drop_first())
    }
}

/// How many characters at the end of a text are white space.
pub open spec fn trailing_space(s: Seq<char>) -> nat
    decreases s.len(),
{
    if s.len() == 0 || !space_char(s.last()) {
        0
    } else {
        1 + trailing_space(s.drop_last())
    }
}

/// A text without its leading white space (`str::trim_start`).
pub open spec fn trim_start(s: Seq<char>) -> Seq<char> {
    s.skip(leading_space(s) as int)
}

/// A text without leading and trailing white space (`str::trim`).
pub open spec fn trim(s: Seq<char>) -> Seq<char> {
    let t = trim_start(s);
    t.take(t.len() - trailing_space(t))
}

pub proof fn lemma_leading_space_bound(s: Seq<char>)
    ensures
        leading_space(s) <= s.len(),
        forall|i: int| 0 <= i < leading_space(s) ==> space_char(#[trigger] s[i]),
        leading_space(s) < s.len() ==> !space_char(s[leading_space(s) as int]),
    decreases s.len(),
{
    if s.len() > 0 && space_char(s[0]) {
        lemma_leading_space_bound(s.drop_first());
        assert forall|i: int| 0 <= i < leading_space(s) implies space_char(#[trigger] s[i]) by {
            if i > 0 {
                assert(s[i] == s.drop_first()[i - 1]);
            }
        }
    }
}

pub proof fn lemma_trailing_space_bound(s: Seq<char>)
    ensures
        trailing_space(s) <= s.len(),
    decreases s.len(),
{
    if s.len() > 0 && space_char(s.last()) {
        lemma_trailing_space_bound(s.drop_last());
    }
}

pub proof fn lemma_trim_byte_len(s: Seq<char>)
    ensures
        byte_len(trim(s)) <= byte_len(s),
        byte_len(trim_start(s)) <= byte_len(s),
{
    lemma_leading_space_bound(s);
    let t = trim_start(s);
    lemma_trailing_space_bound(t);
    assert(t =~= s.subrange(leading_space(s) as int, s.len() as int));
    lemma_byte_len_sub(s, leading_space(s) as int, s.len() as int);
    assert(trim(s) =~= t.subrange(0, t.len() - trailing_space(t)));
    lemma_byte_len_sub(t, 0, t.len() - trailing_space(t));
}

/// The number of leading white-space characters.
pub fn count_leading_space(s: &[char]) -> (r: usize)
    ensures
        r == leading_space(s@),
{
    let mut i: usize = 0;
    while i < s.len() && char_is_whitespace(s[i])
        invariant
            i <= s.len(),
            forall|j: int| 0 <= j < i ==> space_char(#[trigger] s@[j]),
        decreases s.len() - i,
    {
        i += 1;
    }
    proof {
        lemma_leading_space_counts(s@, i as int);
    }
    i
}

proof fn lemma_leading_space_counts(s: Seq<char>, i: int)
    requires
        0 <= i <= s.len(),
        forall|j: int| 0 <= j < i ==> space_char(#[trigger] s[j]),
        i < s.len() ==> !space_char(s[i]),
    ensures
        leading_space(s) == i,
    decreases i,
{
    if i > 0 {
        let r = s.drop_first();
        assert forall|j: int| 0 <= j < i - 1 implies space_char(#[trigger] r[j]) by {
            assert(r[j] == s[j + 1]);
        }
        if i - 1 < r.len() {
            assert(r[i - 1] == s[i]);
        }
        lemma_leading_space_counts(r, i - 1);
    }
}

/// The number of trailing white-space characters.
pub fn count_trailing_space(s: &[char]) -> (r: usize)
    ensures
        r == trailing_space(s@),
{
    let mut n: usize = 0;
    proof {
        assert(s@.take(s.len() as int) =~= s@);
    }
    while n < s.len() && char_is_whitespace(s[s.len() - 1 - n])
        invariant
            n <= s.len(),
            trailing_space(s@) == n + trailing_space(s@.take(s.len() - n)),
        decreases s.len() - n,
    {
        proof {
            let t = s@.take(s.len() - n);
            assert(t.last() == s@[s.len() - 1 - n]);
            assert(t.drop_last() =~= s@.take(s.len() - n - 1));
        }
        n += 1;
    }
    proof {
        let t = s@.take(s.len() - n);
        if n < s.len() {
            assert(t.last() == s@[s.len() - 1 - n]);
        }
    }
    n
}

/// The characters of a slice between two positions.
pub fn slice_chars(s: &[char], from: usize, to: usize) -> (r: Vec<char>)
    requires
        from <= to <= s.len(),
    ensures
        r@ == s@.subrange(from as int, to as int),
{
    let mut out: Vec<char> = Vec::new();
    let mut i: usize = from;
    while i < to
        invariant
            from <= i <= to <= s.len(),
            out@ == s@.subrange(from as int, i as int),
        decreases to - i,
    {
        out.push(s[i]);
        i += 1;
        proof {
            assert(out@ =~= s@.subrange(from as int, i as int));
        }
    }
    out
}

/// A text without leading and trailing white space.
pub fn trim_chars(s: &[char]) -> (r: Vec<char>)
    ensures
        r@ == trim(s@),
{
    let lead = count_leading_space(s);
    proof {
        lemma_leading_space_bound(s@);
    }
    let t = slice_chars(s, lead, s.len());
    proof {
        assert(t@ =~= trim_start(s@));
    }
    let trail = count_trailing_space(t.as_slice());
    proof {
        lemma_trailing_space_bound(t@);
    }
    slice_chars(t.as_slice(), 0, t.len() - trail)
}

/// Whether `pat` occurs in `s` at position `k`.
pub open spec fn occurs_at(s: Seq<char>, pat: Seq<char>, k: int) -> bool {
    0 <= k && k + pat.len() <= s.len() && s.subrange(k, k + pat.len() as int) == pat
}

/// The first position from `from` on at which `pat` occurs.
pub open spec fn find_from(s: Seq<char>, pat: Seq<char>, from: int) -> Option<int>
    decreases s.len() - from,
{
    if from < 0 || from + pat.len() > s.len() {
        None
    } else if occurs_at(s, pat, from) {
        Some(from)
    } else if from >= s.len() {
        None
    } else {
        find_from(s, pat, from + 1)
    }
}

/// Whether `pat` occurs at `k` (exec).
pub fn matches_at(s: &[char], pat: &[char], k: usize) -> (r: bool)
    ensures
        r == occurs_at(s@, pat@, k as int),
{
    if k > s.len() || pat.len() > s.len() - k {
        return false;
    }
    let mut j: usize = 0;
    while j < pat.len()
        invariant
            j <= pat.len(),
            k + pat.len() <= s.len(),
            forall|m: int| 0 <= m < j ==> s@[k + m] == pat@[m],
        decreases pat.len() - j,
    {
        if s[k + j] != pat[j] {
            proof {
                assert(s@.subrange(k as int, k + pat.len())[j as int] != pat@[j as int]);
            }
            return false;
        }
        j += 1;
    }
    proof {
        assert(s@.subrange(k as int, k + pat.len()) =~= pat@);
    }
    true
}

/// The first position from `from` on at which `pat` occurs.
pub fn find_chars_from(s: &[char], pat: &[char], from: usize) -> (r: Option<usize>)
    ensures
        match find_from(s@, pat@, from as int) {
            Some(k) => r == Some(k as usize),
            None => r is None,
        },
{
    let mut k: usize = from;
    while k < s.len()
        invariant
            from <= k,
            find_from(s@, pat@, from as int) == find_from(s@, pat@, k as int),
        decreases s.len() - k,
    {
        if pat.len() > s.len() - k {
            return None;
        }
        if matches_at(s, pat, k) {
            return Some(k);
        }
        k += 1;
    }
    if k == s.len() && matches_at(s, pat, k) {
        Some(k)
    } else {
        None
    }
}
// ---------------------------------------------------------------------------
// UTF-8 widths
// ---------------------------------------------------------------------------

/// The number of bytes UTF-8 takes for a character.
pub open spec fn utf8_width(c: char) -> nat {
    if (c as u32) < 0x80 {
        1
    } else if (c as u32) < 0x800 {
        2
    } else if (c as u32) < 0x10000 {
        3
    } else {
        4
    }
}

/// The number of bytes UTF-8 takes for a text (what `str::len` counts).
pub open spec fn byte_len(s: Seq<char>) -> nat
    decreases s.len(),
{
    if s.len() == 0 {
        0
    } else {
        byte_len(s.drop_last()) + utf8_width(s.last())
    }
}

/// The UTF-8 width of a character.
pub fn char_width(c: char) -> (r: usize)
    ensures
        r == utf8_width(c),
{
    let u = c as u32;
    if u < 0x80 {
        1
    } else if u < 0x800 {
        2
    } else if u < 0x10000 {
        3
    } else {
        4
    }
}

pub proof fn lemma_byte_len_take(s: Seq<char>, k: int)
    requires
        0 <= k < s.len(),
    ensures
        byte_len(s.take(k + 1)) == byte_len(s.take(k)) + utf8_width(s[k]),
        byte_len(s.take(k)) <= byte_len(s.take(k + 1)),
{
    assert(s.take(k + 1).drop_last() =~= s.take(k));
}

pub proof fn lemma_byte_len_mono(s: Seq<char>, j: int, k: int)
    requires
        0 <= j <= k <= s.len(),
    ensures
        byte_len(s.take(j)) <= byte_len(s.take(k)),
    decreases k - j,
{
    if j < k {
        lemma_byte_len_take(s, k - 1);
        lemma_byte_len_mono(s, j, k - 1);
    }
    if k == s.len() {
        assert(s.take(k) =~= s);
    }
}

pub proof fn lemma_byte_len_split(s: Seq<char>, i: int, j: int)
    requires
        0 <= i <= j <= s.len(),
    ensures
        byte_len(s.take(j)) == byte_len(s.take(i)) + byte_len(s.subrange(i, j)),
    decreases j - i,
{
    if j == i {
        assert(s.take(j) =~= s.take(i));
    } else {
        lemma_byte_len_split(s, i, j - 1);
        lemma_byte_len_take(s, j - 1);
        assert(s.subrange(i, j).drop_last() =~= s.subrange(i, j - 1));
    }
}

pub proof fn lemma_byte_len_sub(s: Seq<char>, i: int, j: int)
    requires
        0 <= i <= j <= s.len(),
    ensures
        byte_len(s.subrange(i, j)) <= byte_len(s),
        byte_len(s.subrange(i, j)) == byte_len(s.take(j)) - byte_len(s.take(i)),
{
    lemma_byte_len_split(s, i, j);
    lemma_byte_len_mono(s, j, s.len() as int);
    assert(s.take(s.len() as int) =~= s);
}

pub proof fn lemma_len_le_byte_len(s: Seq<char>)
    ensures
        s.len() <= byte_len(s),
    decreases s.len(),
{
    if s.len() > 0 {
        lemma_len_le_byte_len(s.drop_last());
    }
}

/// The number of bytes UTF-8 takes for the characters of a slice.
pub fn bytes_of(v: &[char]) -> (r: usize)
    requires
        byte_len(v@) <= u32::MAX,
    ensures
        r == byte_len(v@),
{
    let mut total: usize = 0;
    let mut k: usize = 0;
    while k < v.len()
        invariant
            k <= v.len(),
            byte_len(v@) <= u32::MAX,
            total == byte_len(v@.take(k as int)),
        decreases v.len() - k,
    {
        proof {
            lemma_byte_len_take(v@, k as int);
            lemma_byte_len_mono(v@, k + 1, v.len() as int);
            assert(v@.take(v.len() as int) =~= v@);
        }
        total = total + char_width(v[k]);
        k += 1;
    }
    proof {
        assert(v@.take(v.len() as int) =~= v@);
    }
    total
}

/// The byte offset of each character of a slice, and of its end.
pub fn byte_offsets(v: &[char]) -> (r: Vec<usize>)
    requires
        byte_len(v@) <= usize::MAX,
    ensures
        r.len() == v.len() + 1,
        forall|k: int| 0 <= k <= v.len() ==> #[trigger] r@[k] == byte_len(v@.take(k)),
        forall|k: int| 0 <= k <= v.len() ==> #[trigger] r@[k] <= byte_len(v@),
{
    let mut out: Vec<usize> = Vec::new();
    out.push(0);
    proof {
        assert(v@.take(0) =~= Seq::<char>::empty());
        lemma_byte_len_mono(v@, 0, v.len() as int);
        assert(v@.take(v.len() as int) =~= v@);
    }
    let mut total: usize = 0;
    let mut k: usize = 0;
    while k < v.len()
        invariant
            k <= v.len(),
            byte_len(v@) <= usize::MAX,
            v@.take(v.len() as int) == v@,
            total == byte_len(v@.take(k as int)),
            out.len() == k + 1,
            forall|m: int| 0 <= m <= k ==> #[trigger] out@[m] == byte_len(v@.take(m)),
            forall|m: int| 0 <= m <= k ==> #[trigger] out@[m] <= byte_len(v@),
        decreases v.len() - k,
    {
        proof {
            lemma_byte_len_take(v@, k as int);
            lemma_byte_len_mono(v@, k + 1, v.len() as int);
        }
        total = total + char_width(v[k]);
        k += 1;
        out.push(total);
    }
    out
}

pub proof fn lemma_split_len(s: Seq<char>, sep: char)
    ensures
        split(s, sep).len() <= s.len() + 1,
        s.len() > 0 && s.last() != sep ==> split(s, sep).len() <= s.len(),
    decreases s.len(),
{
    if s.len() > 0 {
        lemma_split_len(s.drop_last(), sep);
        lemma_split_nonempty(s.drop_last(), sep);
    }
}

pub proof fn lemma_split_bytes(s: Seq<char>, sep: char)
    ensures
        forall|i: int| 0 <= i < split(s, sep).len() ==> byte_len(#[trigger] split(s, sep)[i]) <= byte_len(s),
    decreases s.len(),
{
    if s.len() > 0 {
        let rest = split(s.drop_last(), sep);
        lemma_split_bytes(s.drop_last(), sep);
        lemma_split_nonempty(s.drop_last(), sep);
        if s.last() != sep {
            let l = rest.last().push(s.last());
            assert(l.drop_last() =~= rest.last());
            assert(byte_len(rest[rest.len() - 1]) <= byte_len(s.drop_last()));
        }
    }
}

// ---------------------------------------------------------------------------
// Lines
// ---------------------------------------------------------------------------

/// A line without a final carriage return.
pub open spec fn strip_cr(s: Seq<char>) -> Seq<char> {
    if s.len() > 0 && s.last() == '\r' {
        s.drop_last()
    } else {
        s
    }
}

/// The lines of a text, as `str::lines` yields them: split at `\n`, a `\r`
/// before the `\n` dropped, and no empty line after a final `\n`.
pub open spec fn text_lines(s: Seq<char>) -> Seq<Seq<char>> {
    let pieces = split(s, '\n');
    let count = if s.len() > 0 && s.last() != '\n' {
        pieces.len() as int
    } else {
        pieces.len() - 1
    };
    Seq::new(
        count as nat,
        |i: int|
            if i < pieces.len() - 1 {
                strip_cr(pieces[i])
            } else {
                pieces[i]
            },
    )
}

/// A line without a final carriage return (exec).
pub fn strip_cr_chars(v: &[char]) -> (r: Vec<char>)
    ensures
        r@ == strip_cr(v@),
        byte_len(r@) <= byte_len(v@),
{
    if v.len() > 0 && v[v.len() - 1] == '\r' {
        let r = slice_chars(v, 0, v.len() - 1);
        assert(r@ =~= v@.drop_last());
        r
    } else {
        let r = slice_chars(v, 0, v.len());
        assert(r@ =~= v@);
        r
    }
}

/// The lines of a text (see `text_lines`).
pub fn lines_of(s: &[char]) -> (r: Vec<Vec<char>>)
    ensures
        views(r@) == text_lines(s@),
        forall|i: int| 0 <= i < r.len() ==> byte_len(#[trigger] r@[i]@) <= byte_len(s@),
{
    let pieces = split_chars(s, '\n');
    let n = s.len();
    let count = if n > 0 && s[n - 1] != '\n' {
        pieces.len()
    } else {
        pieces.len() - 1
    };
    proof {
        lemma_split_bytes(s@, '\n');
    }
    let mut out: Vec<Vec<char>> = Vec::new();
    let mut li: usize = 0;
    while li < count
        invariant
            li <= count <= pieces.len(),
            count == text_lines(s@).len(),
            views(pieces@) == split(s@, '\n'),
            forall|i: int| 0 <= i < pieces.len() ==> byte_len(#[trigger] split(s@, '\n')[i]) <= byte_len(s@),
            out.len() == li,
            forall|i: int| 0 <= i < li ==> #[trigger] out@[i]@ == text_lines(s@)[i],
            forall|i: int| 0 <= i < li ==> byte_len(#[trigger] out@[i]@) <= byte_len(s@),
        decreases count - li,
    {
        proof {
            assert(views(pieces@)[li as int] == pieces@[li as int]@);
            assert(byte_len(split(s@, '\n')[li as int]) <= byte_len(s@));
        }
        let line = if li + 1 < pieces.len() {
            strip_cr_chars(pieces[li].as_slice())
        } else {
            let l = slice_chars(pieces[li].as_slice(), 0, pieces[li].len());
            assert(l@ =~= pieces@[li as int]@);
            l
        };
        out.push(line);
        li += 1;
    }
    proof {
        assert(views(out@) =~= text_lines(s@));
    }
    out
}

/// The total number of characters of a list of texts.
pub open spec fn total_len(ls: Seq<Seq<char>>) -> nat
    decreases ls.len(),
{
    if ls.len() == 0 {
        0
    } else {
        total_len(ls.drop_last()) + ls.last().len()
    }
}

pub proof fn lemma_split_total(s: Seq<char>, sep: char)
    ensures
        total_len(split(s, sep)) + split(s, sep).len() == s.len() + 1,
    decreases s.len(),
{
    if s.len() > 0 {
        let rest = split(s.drop_last(), sep);
        lemma_split_total(s.drop_last(), sep);
        lemma_split_nonempty(s.drop_last(), sep);
        if s.last() == sep {
            assert(rest.push(Seq::<char>::empty()).drop_last() =~= rest);
        } else {
            let u = rest.update(rest.len() - 1, rest.last().push(s.last()));
            assert(u.drop_last() =~= rest.drop_last());
            assert(u.last() == rest.last().push(s.last()));
            assert(total_len(u) == total_len(u.drop_last()) + u.last().len());
            assert(total_len(rest) == total_len(rest.drop_last()) + rest.last().len());
        }
    } else {
        let one = seq![Seq::<char>::empty()];
        assert(one.drop_last() =~= Seq::<Seq<char>>::empty());
        assert(total_len(one) == total_len(one.drop_last()) + one.last().len());
    }
}

pub proof fn lemma_total_take(b: Seq<Seq<char>>, n: int)
    requires
        0 <= n <= b.len(),
    ensures
        total_len(b.take(n)) <= total_len(b),
    decreases b.len() - n,
{
    if n < b.len() {
        lemma_total_take(b, n + 1);
        assert(b.take(n + 1).drop_last() =~= b.take(n));
    } else {
        assert(b.take(n) =~= b);
    }
}

pub proof fn lemma_total_pointwise(a: Seq<Seq<char>>, b: Seq<Seq<char>>)
    requires
        a.len() == b.len(),
        forall|i: int| 0 <= i < a.len() ==> #[trigger] a[i].len() <= b[i].len(),
    ensures
        total_len(a) <= total_len(b),
    decreases a.len(),
{
    if a.len() > 0 {
        lemma_total_pointwise(a.drop_last(), b.drop_last());
    }
}

/// The lines of a text hold at most as many characters as the text.
pub proof fn lemma_lines_total(s: Seq<char>)
    ensures
        total_len(text_lines(s)) <= s.len(),
{
    let pieces = split(s, '\n');
    let lines = text_lines(s);
    lemma_split_total(s, '\n');
    lemma_split_nonempty(s, '\n');
    let front = pieces.take(lines.len() as int);
    assert forall|i: int| 0 <= i < lines.len() implies #[trigger] lines[i].len() <= front[i].len() by {}
    lemma_total_pointwise(lines, front);
    lemma_total_take(pieces, lines.len() as int);
}

pub proof fn lemma_total_prefix(ls: Seq<Seq<char>>, k: int)
    requires
        0 <= k < ls.len(),
    ensures
        total_len(ls.take(k + 1)) == total_len(ls.take(k)) + ls[k].len(),
        total_len(ls.take(k + 1)) <= total_len(ls),
{
    assert(ls.take(k + 1).drop_last() =~= ls.take(k));
    lemma_total_take(ls, k + 1);
}

pub proof fn lemma_trim_len(s: Seq<char>)
    ensures
        trim(s).len() <= s.len(),
{
    lemma_leading_space_bound(s);
    lemma_trailing_space_bound(trim_start(s));
}

pub proof fn lemma_byte_len_concat(a: Seq<char>, b: Seq<char>)
    ensures
        byte_len(a + b) == byte_len(a) + byte_len(b),
    decreases b.len(),
{
    if b.len() == 0 {
        assert(a + b =~= a);
    } else {
        lemma_byte_len_concat(a, b.drop_last());
        assert((a + b).drop_last() =~= a + b.drop_last());
    }
}

pub proof fn lemma_replace_char_bytes(s: Seq<char>, from: char, to: char)
    requires
        utf8_width(from) == utf8_width(to),
    ensures
        byte_len(replace_char(s, from, to)) == byte_len(s),
    decreases s.len(),
{
    if s.len() > 0 {
        lemma_replace_char_bytes(s.drop_last(), from, to);
        assert(replace_char(s, from, to).drop_last() =~= replace_char(s.drop_last(), from, to));
    }
}

pub proof fn lemma_lines_count(s: Seq<char>)
    ensures
        text_lines(s).len() <= s.len(),
{
    lemma_split_len(s, '\n');
    lemma_split_nonempty(s, '\n');
}

} // verus!
