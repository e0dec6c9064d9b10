//! Case conversion utilities for Carina DSL to CloudFormation attribute names
//!
//! Carina uses snake_case (e.g., `bucket_name`, `versioning_configuration`)
//! CloudFormation uses CamelCase (e.g., `BucketName`, `VersioningConfiguration`)
//!
//! Enum values are also converted: `enabled` -> `Enabled`

use vstd::prelude::*;

use crate::resource::{
    insert_all, lemma_dict_view, lemma_list_view, values_view, Value, ValueMap, ValueModel,
};
use crate::text::{
    ascii_lower, char_is_uppercase, char_to_lowercase, char_to_uppercase, chars_of,
    is_ascii_digit, is_ascii_lower, is_ascii_upper, lower_text, lower_str, push_char, split, split_chars, str_to_lowercase,
    string_of, upper_char, upper_text, views,
};

verus! {

/// The concatenation of a sequence of character sequences.
pub open spec fn concat(parts: Seq<Seq<char>>) -> Seq<char>
    decreases parts.len(),
{
    if parts.len() == 0 {
        Seq::<char>::empty()
    } else {
        concat(parts.drop_last()) + parts.last()
    }
}

/// A word with its first character upper-cased.
pub open spec fn capitalized(s: Seq<char>) -> Seq<char> {
    if s.len() == 0 {
        s
    } else {
        upper_text(s[0]) + s.drop_first()
    }
}

/// The CamelCase form of a snake_case name: each `_`-separated piece capitalized.
pub open spec fn camel_case(s: Seq<char>) -> Seq<char> {
    let parts = split(s, '_');
    concat(Seq::new(parts.len(), |i: int| capitalized(parts[i])))
}

/// What one character of a CamelCase name becomes in snake_case.
pub open spec fn snake_piece(c: char, first: bool) -> Seq<char> {
    if upper_char(c) {
        if first {
            seq![lower_text(c)[0]]
        } else {
            seq!['_', lower_text(c)[0]]
        }
    } else {
        seq![c]
    }
}

/// The snake_case form of a CamelCase name.
pub open spec fn snake_case(s: Seq<char>) -> Seq<char> {
    concat(Seq::new(s.len(), |i: int| snake_piece(s[i], i == 0)))
}

/// Whether a string looks like an enum value: a non-empty run of lower-case
/// ASCII letters (so no whitespace, `-` or `.`).
pub open spec fn likely_enum_value(s: Seq<char>) -> bool {
    s.len() > 0 && forall|i: int| 0 <= i < s.len() ==> is_ascii_lower(#[trigger] s[i])
}

/// Whether a string looks like a CamelCase enum value from AWS: an upper-case
/// first character followed by lower-case ASCII letters.
pub open spec fn aws_enum_value(s: Seq<char>) -> bool {
    s.len() > 0 && upper_char(s[0]) && forall|i: int| 1 <= i < s.len() ==> is_ascii_lower(#[trigger] s[i])
}

/// The snake_case pieces of characters that do not start a name.
pub open spec fn snake_tail(t: Seq<char>) -> Seq<char>
    decreases t.len(),
{
    if t.len() == 0 {
        Seq::empty()
    } else {
        snake_tail(t.drop_last()) + snake_piece(t.last(), false)
    }
}

proof fn lemma_snake_head(t: Seq<char>)
    requires
        t.len() > 0,
    ensures
        snake_case(t) == snake_piece(t[0], true) + snake_tail(t.drop_first()),
    decreases t.len(),
{
    let ps = Seq::new(t.len(), |i: int| snake_piece(t[i], i == 0));
    if t.len() == 1 {
        assert(ps.drop_last() =~= Seq::<Seq<char>>::empty());
        assert(t.drop_first() =~= Seq::<char>::empty());
        assert(snake_case(t) == concat(ps.drop_last()) + ps.last());
    } else {
        let u = t.drop_last();
        lemma_snake_head(u);
        assert(ps.drop_last() =~= Seq::new(u.len(), |i: int| snake_piece(u[i], i == 0)));
        assert(snake_case(t) == snake_case(u) + snake_piece(t.last(), false));
        assert(t.drop_first().drop_last() =~= u.drop_first());
        assert(t.drop_first().last() == t.last());
    }
}

proof fn lemma_snake_tail_append(a: Seq<char>, b: Seq<char>)
    ensures
        snake_tail(a + b) == snake_tail(a) + snake_tail(b),
    decreases b.len(),
{
    if b.len() == 0 {
        assert(a + b =~= a);
    } else {
        lemma_snake_tail_append(a, b.drop_last());
        assert((a + b).drop_last() =~= a + b.drop_last());
        assert((a + b).last() == b.last());
    }
}

proof fn lemma_snake_tail_plain(x: Seq<char>)
    requires
        forall|i: int| 0 <= i < x.len() ==> is_ascii_lower(#[trigger] x[i]) || is_ascii_digit(x[i]),
    ensures
        snake_tail(x) == x,
    decreases x.len(),
{
    if x.len() > 0 {
        lemma_snake_tail_plain(x.drop_last());
        assert(!upper_char(x.last()));
        assert(x.drop_last().push(x.last()) =~= x);
    }
}

proof fn lemma_snake_case_append(a: Seq<char>, b: Seq<char>)
    requires
        a.len() > 0,
    ensures
        snake_case(a + b) == snake_case(a) + snake_tail(b),
{
    lemma_snake_head(a + b);
    lemma_snake_head(a);
    assert((a + b).drop_first() =~= a.drop_first() + b);
    lemma_snake_tail_append(a.drop_first(), b);
}

/// Whether a piece of a snake_case name is a lower-case letter followed by
/// lower-case letters and digits.
pub open spec fn plain_piece(p: Seq<char>) -> bool {
    p.len() > 0 && is_ascii_lower(p[0]) && forall|i: int| 0 <= i < p.len() ==> is_ascii_lower(#[trigger] p[i])
        || is_ascii_digit(p[i])
}

proof fn lemma_capitalized_piece(p: Seq<char>)
    requires
        plain_piece(p),
    ensures
        snake_case(capitalized(p)) == p,
        snake_tail(capitalized(p)) == seq!['_'] + p,
{
    let c = p[0];
    let u = ((c as u32) - 32) as char;
    assert(u as u32 == (c as u32) - 32);
    assert(is_ascii_upper(u));
    assert(upper_char(u));
    assert(((u as u32) + 32) as char == c);
    assert(lower_text(u) == seq![c]);
    assert(capitalized(p) =~= seq![u] + p.drop_first());
    lemma_snake_head(capitalized(p));
    assert(capitalized(p).drop_first() =~= p.drop_first());
    assert forall|i: int| 0 <= i < p.drop_first().len() implies is_ascii_lower(#[trigger] p.drop_first()[i]) || is_ascii_digit(p.drop_first()[i]) by {
        assert(p.drop_first()[i] == p[i + 1]);
    }
    lemma_snake_tail_plain(p.drop_first());
    assert(snake_piece(u, true) == seq![c]);
    assert(seq![c] + p.drop_first() =~= p);
    lemma_snake_tail_append(seq![u], p.drop_first());
    assert(seq![u].drop_last() =~= Seq::<char>::empty());
    assert(snake_tail(seq![u]) == snake_tail(Seq::<char>::empty()) + snake_piece(u, false));
    assert(snake_piece(u, false) == seq!['_', c]);
    assert(seq!['_', c] + p.drop_first() =~= seq!['_'] + p);
}

/// Converting a snake_case name to CamelCase and back gives the name again,
/// when each `_`-separated piece is a lower-case letter followed by
/// lower-case letters and digits.
pub proof fn lemma_snake_camel_round_trip(s: Seq<char>)
    requires
        forall|i: int| 0 <= i < split(s, '_').len() ==> plain_piece(#[trigger] split(s, '_')[i]),
    ensures
        snake_case(camel_case(s)) == s,
{
    let parts = split(s, '_');
    crate::text::lemma_split_nonempty(s, '_');
    let caps = Seq::new(parts.len(), |i: int| capitalized(parts[i]));
    let n = parts.len();
    assert forall|k: int| 1 <= k <= n implies snake_case(concat(#[trigger] caps.take(k))) == crate::text::join(
        parts.take(k),
        seq!['_'],
    ) by {
        lemma_round_trip_prefix(parts, caps, k);
    }
    assert(caps.take(n as int) =~= caps);
    assert(parts.take(n as int) =~= parts);
    crate::text::lemma_join_split(s, '_');
}

proof fn lemma_round_trip_prefix(parts: Seq<Seq<char>>, caps: Seq<Seq<char>>, k: int)
    requires
        1 <= k <= parts.len(),
        caps.len() == parts.len(),
        forall|i: int| 0 <= i < parts.len() ==> plain_piece(#[trigger] parts[i]),
        forall|i: int| 0 <= i < parts.len() ==> #[trigger] caps[i] == capitalized(parts[i]),
    ensures
        snake_case(concat(caps.take(k))) == crate::text::join(parts.take(k), seq!['_']),
    decreases k,
{
    if k == 1 {
        assert(caps.take(1).drop_last() =~= Seq::<Seq<char>>::empty());
        assert(concat(caps.take(1)) == concat(Seq::<Seq<char>>::empty()) + caps[0]);
        assert(concat(caps.take(1)) =~= capitalized(parts[0]));
        lemma_capitalized_piece(parts[0]);
        assert(parts.take(1).len() == 1);
    } else {
        lemma_round_trip_prefix(parts, caps, k - 1);
        lemma_concat_step(caps, k - 1);
        let x = concat(caps.take(k - 1));
        lemma_capitalized_piece(parts[k - 1]);
        lemma_capitalized_piece(parts[0]);
        lemma_concat_nonempty(caps, k - 1);
        lemma_snake_case_append(x, caps[k - 1]);
        assert(parts.take(k).drop_last() =~= parts.take(k - 1));
        assert(parts.take(k).last() == parts[k - 1]);
        assert(crate::text::join(parts.take(k), seq!['_']) == crate::text::join(parts.take(k - 1), seq!['_'])
            + seq!['_'] + parts[k - 1]);
        assert(seq!['_'] + parts[k - 1] =~= seq!['_'] + parts[k - 1]);
        assert(crate::text::join(parts.take(k - 1), seq!['_']) + seq!['_'] + parts[k - 1] =~= crate::text::join(
            parts.take(k - 1),
            seq!['_'],
        ) + (seq!['_'] + parts[k - 1]));
    }
}

proof fn lemma_concat_nonempty(caps: Seq<Seq<char>>, k: int)
    requires
        1 <= k <= caps.len(),
        caps[0].len() > 0,
    ensures
        concat(caps.take(k)).len() > 0,
    decreases k,
{
    if k == 1 {
        assert(caps.take(1).drop_last() =~= Seq::<Seq<char>>::empty());
    } else {
        lemma_concat_nonempty(caps, k - 1);
        assert(caps.take(k).drop_last() =~= caps.take(k - 1));
    }
}

proof fn lemma_concat_step(ps: Seq<Seq<char>>, i: int)
    requires
        0 <= i < ps.len(),
    ensures
        concat(ps.take(i + 1)) == concat(ps.take(i)) + ps[i],
{
    assert(ps.take(i + 1).drop_last() =~= ps.take(i));
}

/// Appends the upper-case form of the first character and the rest of a word.
fn push_capitalized(out: &mut String, p: &[char])
    ensures
        final(out)@ == old(out)@ + capitalized(p@),
{
    if p.len() == 0 {
        return;
    }
    let up = char_to_uppercase(p[0]);
    let mut k: usize = 0;
    while k < up.len()
        invariant
            k <= up.len(),
            out@ == old(out)@ + up@.take(k as int),
        decreases up.len() - k,
    {
        push_char(out, up[k]);
        k += 1;
        proof {
            assert(up@.take(k as int) =~= up@.take(k - 1).push(up@[k - 1]));
        }
    }
    let mut j: usize = 1;
    while j < p.len()
        invariant
            1 <= j <= p.len(),
            out@ == old(out)@ + up@ + p@.subrange(1, j as int),
        decreases p.len() - j,
    {
        push_char(out, p[j]);
        j += 1;
        proof {
            assert(p@.subrange(1, j as int) =~= p@.subrange(1, j - 1).push(p@[j - 1]));
        }
    }
    proof {
        assert(up@.take(up.len() as int) =~= up@);
        assert(p@.subrange(1, p.len() as int) =~= p@.drop_first());
        assert(old(out)@ + up@ + p@.drop_first() =~= old(out)@ + (up@ + p@.drop_first()));
    }
}

/// Convert snake_case to CamelCase (PascalCase)
/// e.g., "bucket_name" -> "BucketName"
pub fn to_camel_case(s: &str) -> (r: String)
    ensures
        r@ == camel_case(s@),
{
    let c = chars_of(s);
    let parts = split_chars(c.as_slice(), '_');
    let ghost ps = Seq::new(views(parts@).len(), |i: int| capitalized(views(parts@)[i]));
    let mut out = String::new();
    let mut i: usize = 0;
    while i < parts.len()
        invariant
            i <= parts.len(),
            ps.len() == parts.len(),
            forall|j: int| 0 <= j < parts.len() ==> #[trigger] ps[j] == capitalized(parts@[j]@),
            out@ == concat(ps.take(i as int)),
        decreases parts.len() - i,
    {
        push_capitalized(&mut out, parts[i].as_slice());
        proof {
            lemma_concat_step(ps, i as int);
        }
        i += 1;
    }
    proof {
        assert(ps.take(parts.len() as int) =~= ps);
    }
    out
}

/// Convert CamelCase to snake_case
/// e.g., "BucketName" -> "bucket_name"
pub fn to_snake_case(s: &str) -> (r: String)
    ensures
        r@ == snake_case(s@),
{
    let c = chars_of(s);
    let ghost ps = Seq::new(s@.len(), |i: int| snake_piece(s@[i], i == 0));
    let mut result = String::new();
    let mut i: usize = 0;
    while i < c.len()
        invariant
            i <= c.len(),
            c@ == s@,
            ps == Seq::new(s@.len(), |i: int| snake_piece(s@[i], i == 0)),
            result@ == concat(ps.take(i as int)),
        decreases c.len() - i,
    {
        let ch = c[i];
        let ghost before = result@;
        if char_is_uppercase(ch) {
            if i > 0 {
                push_char(&mut result, '_');
            }
            let low = char_to_lowercase(ch);
            push_char(&mut result, low[0]);
        } else {
            push_char(&mut result, ch);
        }
        proof {
            lemma_concat_step(ps, i as int);
            assert(result@ =~= before + ps[i as int]);
        }
        i += 1;
    }
    proof {
        assert(ps.take(c.len() as int) =~= ps);
    }
    result
}

/// Check if a string looks like an enum value (single lowercase word)
/// e.g., "enabled", "suspended", "disabled"
pub fn is_likely_enum_value(s: &str) -> (r: bool)
    ensures
        r == likely_enum_value(s@),
{
    let c = chars_of(s);
    if c.len() == 0 {
        return false;
    }
    let mut i: usize = 0;
    while i < c.len()
        invariant
            i <= c.len(),
            c@ == s@,
            forall|j: int| 0 <= j < i ==> is_ascii_lower(#[trigger] c@[j]),
        decreases c.len() - i,
    {
        if !ascii_lower(c[i]) {
            return false;
        }
        i += 1;
    }
    true
}

/// Capitalize first letter of a string
/// e.g., "enabled" -> "Enabled"
pub fn capitalize_first(s: &str) -> (r: String)
    ensures
        r@ == capitalized(s@),
{
    let c = chars_of(s);
    let mut out = String::new();
    push_capitalized(&mut out, c.as_slice());
    out
}

/// Whether a string is an upper-case character followed by lower-case ASCII letters.
fn is_aws_enum_value(s: &str) -> (r: bool)
    ensures
        r == aws_enum_value(s@),
{
    let c = chars_of(s);
    if c.len() == 0 || !char_is_uppercase(c[0]) {
        return false;
    }
    let mut i: usize = 1;
    while i < c.len()
        invariant
            1 <= i <= c.len(),
            c@ == s@,
            c@.len() > 0,
            forall|j: int| 1 <= j < i ==> is_ascii_lower(#[trigger] c@[j]),
        decreases c.len() - i,
    {
        if !ascii_lower(c[i]) {
            return false;
        }
        i += 1;
    }
    true
}

/// The CamelCase model of a value: map keys are converted, and single
/// lower-case words are capitalized, all the way down.
pub open spec fn camel_value(v: ValueModel) -> ValueModel
    decreases v, 1nat,
{
    match v {
        ValueModel::Dict(e) => ValueModel::Dict(insert_all(Seq::empty(), camel_pairs(e))),
        ValueModel::List(items) => ValueModel::List(camel_items(items)),
        ValueModel::Str(s) => if likely_enum_value(s) {
            ValueModel::Str(capitalized(s))
        } else {
            v
        },
        _ => v,
    }
}

/// Each entry with its key and value in CamelCase.
pub open spec fn camel_pairs(e: Seq<(Seq<char>, ValueModel)>) -> Seq<(Seq<char>, ValueModel)>
    decreases e, 0nat,
{
    Seq::new(
        e.len(),
        |i: int|
            if 0 <= i < e.len() {
                (camel_case(e[i].0), camel_value(e[i].1))
            } else {
                (Seq::<char>::empty(), ValueModel::Int(0))
            },
    )
}

/// Each item in CamelCase.
pub open spec fn camel_items(items: Seq<ValueModel>) -> Seq<ValueModel>
    decreases items, 0nat,
{
    Seq::new(
        items.len(),
        |i: int|
            if 0 <= i < items.len() {
                camel_value(items[i])
            } else {
                ValueModel::Int(0)
            },
    )
}

/// The snake_case model of a value: map keys are converted, and CamelCase
/// single words are lower-cased, all the way down.
pub open spec fn snake_value(v: ValueModel) -> ValueModel
    decreases v, 1nat,
{
    match v {
        ValueModel::Dict(e) => ValueModel::Dict(insert_all(Seq::empty(), snake_pairs(e))),
        ValueModel::List(items) => ValueModel::List(snake_items(items)),
        ValueModel::Str(s) => if aws_enum_value(s) {
            ValueModel::Str(lower_str(s))
        } else {
            v
        },
        _ => v,
    }
}

/// Each entry with its key and value in snake_case.
pub open spec fn snake_pairs(e: Seq<(Seq<char>, ValueModel)>) -> Seq<(Seq<char>, ValueModel)>
    decreases e, 0nat,
{
    Seq::new(
        e.len(),
        |i: int|
            if 0 <= i < e.len() {
                (snake_case(e[i].0), snake_value(e[i].1))
            } else {
                (Seq::<char>::empty(), ValueModel::Int(0))
            },
    )
}

/// Each item in snake_case.
pub open spec fn snake_items(items: Seq<ValueModel>) -> Seq<ValueModel>
    decreases items, 0nat,
{
    Seq::new(
        items.len(),
        |i: int|
            if 0 <= i < items.len() {
                snake_value(items[i])
            } else {
                ValueModel::Int(0)
            },
    )
}

/// The entries of a map after converting each key and value, later keys
/// replacing earlier ones that convert to the same key.
pub open spec fn convert_entries(
    e: Seq<(Seq<char>, ValueModel)>,
    camel: bool,
) -> Seq<(Seq<char>, ValueModel)> {
    if camel {
        insert_all(Seq::empty(), camel_pairs(e))
    } else {
        insert_all(Seq::empty(), snake_pairs(e))
    }
}

/// Recursively convert Value keys to CamelCase (camel) or snake_case
/// Also converts single-word enum values
fn convert_value(value: &Value, camel: bool) -> (r: Value)
    ensures
        camel ==> r@ == camel_value(value@),
        !camel ==> r@ == snake_value(value@),
    decreases value,
{
    match value {
        Value::Dict(m) => {
            let c = convert_map(m, camel);
            proof {
                lemma_dict_view(c);
                lemma_dict_view(*m);
            }
            Value::Dict(c)
        },
        Value::List(items) => {
            let mut out: Vec<Value> = Vec::new();
            let mut i: usize = 0;
            while i < items.len()
                invariant
                    i <= items.len(),
                    out.len() == i,
                    forall|j: int|
                        0 <= j < i ==> (camel ==> (#[trigger] out@[j])@ == camel_value(items@[j]@))
                            && (!camel ==> out@[j]@ == snake_value(items@[j]@)),
                    decreases_to!(*value => *items),
                decreases items.len() - i,
            {
                proof {
                    assert(decreases_to!(*items => items@[i as int]));
                }
                let c = convert_value(&items[i], camel);
                out.push(c);
                i += 1;
            }
            proof {
                lemma_list_view(out);
                lemma_list_view(*items);
            }
            let r = Value::List(out);
            proof {
                let iv = values_view(items@);
                if camel {
                    assert(values_view(out@) =~= camel_items(iv));
                } else {
                    assert(values_view(out@) =~= snake_items(iv));
                }
            }
            r
        },
        Value::String(s) => {
            if camel {
                if is_likely_enum_value(s.as_str()) {
                    Value::String(capitalize_first(s.as_str()))
                } else {
                    Value::String(s.clone())
                }
            } else {
                // Convert CamelCase single words to lowercase (likely enum values from AWS)
                // e.g., "Enabled" -> "enabled"
                if is_aws_enum_value(s.as_str()) {
                    Value::String(str_to_lowercase(s.as_str()))
                } else {
                    Value::String(s.clone())
                }
            }
        },
        other => other.clone(),
    }
}

/// Converts the keys and values of a map, later keys replacing earlier ones
/// that convert to the same key.
fn convert_map(m: &ValueMap, camel: bool) -> (r: ValueMap)
    ensures
        r@ == convert_entries(m@, camel),
    decreases m, 0nat,
{
    let ghost e = m@;
    let ghost pairs = if camel {
        camel_pairs(e)
    } else {
        snake_pairs(e)
    };
    let mut out = ValueMap::new();
    let mut k: usize = 0;
    while k < m.entries.len()
        invariant
            k <= m.entries.len(),
            e == m@,
            e.len() == m.entries.len(),
            pairs.len() == e.len(),
            forall|j: int|
                0 <= j < e.len() ==> #[trigger] pairs[j] == (if camel {
                    (camel_case(e[j].0), camel_value(e[j].1))
                } else {
                    (snake_case(e[j].0), snake_value(e[j].1))
                }),
            out@ == insert_all(Seq::empty(), pairs.take(k as int)),
        decreases m.entries.len() - k,
    {
        proof {
            assert(decreases_to!(m.entries => m.entries@[k as int]));
        }
        let key = if camel {
            to_camel_case(m.entries[k].0.as_str())
        } else {
            to_snake_case(m.entries[k].0.as_str())
        };
        let v = convert_value(&m.entries[k].1, camel);
        out.insert(key, v);
        proof {
            assert(e[k as int] == (m.entries@[k as int].0@, m.entries@[k as int].1@));
            assert(pairs.take(k + 1).drop_last() =~= pairs.take(k as int));
            assert(pairs.take(k + 1).last() == pairs[k as int]);
        }
        k += 1;
    }
    proof {
        assert(pairs.take(m.entries.len() as int) =~= pairs);
    }
    out
}

/// Convert attributes from snake_case to CamelCase (for sending to AWS)
pub fn attributes_to_camel_case(attributes: &ValueMap) -> (r: ValueMap)
    ensures
        r@ == convert_entries(attributes@, true),
{
    convert_map(attributes, true)
}

/// Convert attributes from CamelCase to snake_case (for reading from AWS)
pub fn attributes_to_snake_case(attributes: &ValueMap) -> (r: ValueMap)
    ensures
        r@ == convert_entries(attributes@, false),
{
    convert_map(attributes, false)
}

/// Recursively convert Value keys to CamelCase
/// Also capitalizes single-word lowercase strings (likely enum values)
pub fn value_to_camel_case(value: &Value) -> (r: Value)
    ensures
        r@ == camel_value(value@),
{
    convert_value(value, true)
}

/// Recursively convert Value keys to snake_case
/// Also converts CamelCase enum values to lowercase
pub fn value_to_snake_case(value: &Value) -> (r: Value)
    ensures
        r@ == snake_value(value@),
{
    convert_value(value, false)
}

} // verus!
