//! The round-trip law: parsing the serialized text of a well-formed name
//! gives the name back, under the algebra's case-folding equality.

use vstd::prelude::*;

use crate::dn::{
    attr_eq, dn_eq, fold_name, name_eq, rdn_eq, spec_lower, AttrView, NameView,
};
use crate::dn_parser::{
    digit_end, digits_val, is_ascii_digit, is_alpha, is_escapable, is_hex, is_name_char, is_space,
    hex_val, name_end, skip_ws, spec_parse_attr, spec_parse_dn, spec_parse_dn_list,
    spec_parse_name, spec_parse_oid, spec_parse_rdn, spec_parse_value, spec_read_simple,
    toks_value, trim_back, trim_front, Tok,
};
use crate::dn_text::{
    digit_char, escape_at, hex_digit_char, is_reserved, spec_digits,
    spec_escape_from, spec_escape_value, spec_oid_text_from, spec_serialize_attr,
    spec_serialize_dn, spec_serialize_dn_from, spec_serialize_name, spec_serialize_rdn,
    spec_serialize_rdn_from,
};

verus! {

// ---------------------------------------------------------------------------
// Well-formed names
// ---------------------------------------------------------------------------

/// A name the grammar can express: a textual name of letters, digits and
/// hyphens starting with a letter, or a non-empty OID.
pub open spec fn wf_name(n: NameView) -> bool {
    match n {
        NameView::Text(s) => s.len() > 0 && is_alpha(s[0]) && forall|i: int|
            0 <= i < s.len() ==> is_name_char(s[i]),
        NameView::Oid(p) => p.len() > 0,
    }
}

pub open spec fn wf_attr(a: AttrView) -> bool {
    wf_name(a.name)
}

/// A component the grammar can express: at least one attribute, each with a
/// well-formed name; values are arbitrary.
pub open spec fn wf_rdn(r: Seq<AttrView>) -> bool {
    r.len() > 0 && forall|i: int| 0 <= i < r.len() ==> wf_attr(#[trigger] r[i])
}

/// A name the grammar can express: at least one component. The root's text
/// is empty, which the grammar does not produce.
pub open spec fn wf_dn(d: Seq<Seq<AttrView>>) -> bool {
    d.len() > 0 && forall|i: int| 0 <= i < d.len() ==> wf_rdn(#[trigger] d[i])
}

// ---------------------------------------------------------------------------
// Digits
// ---------------------------------------------------------------------------

/// Every character of a number's decimal spelling is a digit, and the
/// spelling is non-empty with a digit first.
proof fn lemma_digits_are_digits(n: int)
    requires
        0 <= n,
    ensures
        spec_digits(n).len() > 0,
        forall|i: int| 0 <= i < spec_digits(n).len() ==> is_ascii_digit(#[trigger] spec_digits(n)[i]),
    decreases n,
{
    if n < 10 {
        assert(is_ascii_digit(digit_char(n)));
        assert(spec_digits(n) == seq![digit_char(n)]);
        assert forall|i: int| 0 <= i < spec_digits(n).len() implies is_ascii_digit(
            #[trigger] spec_digits(n)[i],
        ) by {
            assert(spec_digits(n)[i] == digit_char(n));
        }
    } else {
        lemma_digits_are_digits(n / 10);
        assert(is_ascii_digit(digit_char(n % 10)));
        assert forall|i: int| 0 <= i < spec_digits(n).len() implies is_ascii_digit(
            #[trigger] spec_digits(n)[i],
        ) by {
            if i < spec_digits(n / 10).len() {
                assert(spec_digits(n)[i] == spec_digits(n / 10)[i]);
            } else {
                assert(spec_digits(n)[i] == digit_char(n % 10));
            }
        }
    }
}

/// Reading back a number's decimal spelling gives the number.
proof fn lemma_digits_val_of_digits(n: int)
    requires
        0 <= n,
    ensures
        digits_val(spec_digits(n)) == n,
    decreases n,
{
    if n < 10 {
        assert(spec_digits(n) == seq![digit_char(n)]);
        assert(spec_digits(n).len() == 1);
        assert(spec_digits(n).drop_last() =~= Seq::<char>::empty());
        assert(digits_val(Seq::<char>::empty()) == 0);
        assert(spec_digits(n).last() == digit_char(n));
        assert(digits_val(spec_digits(n)) == digits_val(spec_digits(n).drop_last()) * 10 + (
        spec_digits(n).last() as int - '0' as int));
        assert(digit_char(n) as int == '0' as int + n);
    } else {
        lemma_digits_val_of_digits(n / 10);
        assert(spec_digits(n).drop_last() =~= spec_digits(n / 10));
        assert(spec_digits(n).last() == digit_char(n % 10));
        assert(digits_val(spec_digits(n)) == digits_val(spec_digits(n).drop_last()) * 10 + (
        spec_digits(n).last() as int - '0' as int));
        assert(digit_char(n % 10) as int == '0' as int + (n % 10));
        assert(digit_char(n % 10) as int - '0' as int == n % 10);
    }
}

/// The end of a digit run that stops where the digits stop.
proof fn lemma_digit_end_of_run(s: Seq<char>, i: int, j: int)
    requires
        0 <= i <= j <= s.len(),
        forall|t: int| i <= t < j ==> is_ascii_digit(s[t]),
        j == s.len() || !is_ascii_digit(s[j]),
    ensures
        digit_end(s, i) == j,
    decreases j - i,
{
    if i < j {
        lemma_digit_end_of_run(s, i + 1, j);
    }
}

/// The end of a name-character run that stops where they stop.
proof fn lemma_name_end_of_run(s: Seq<char>, i: int, j: int)
    requires
        0 <= i <= j <= s.len(),
        forall|t: int| i <= t < j ==> is_name_char(s[t]),
        j == s.len() || !is_name_char(s[j]),
    ensures
        name_end(s, i) == j,
    decreases j - i,
{
    if i < j {
        lemma_name_end_of_run(s, i + 1, j);
    }
}

// ---------------------------------------------------------------------------
// Names
// ---------------------------------------------------------------------------

/// Folding is idempotent: folding an already folded name changes nothing.
proof fn lemma_fold_idempotent(s: Seq<char>)
    ensures
        fold_name(fold_name(s)) == fold_name(s),
{
    assert forall|i: int| 0 <= i < s.len() implies spec_lower(spec_lower(s[i])) == spec_lower(
        s[i],
    ) by {
        if 'A' <= s[i] && s[i] <= 'Z' {
            assert(((s[i] as u8) + 32) as char as u8 == (s[i] as u8) + 32);
        }
    }
    assert forall|i: int| 0 <= i < fold_name(fold_name(s)).len() implies fold_name(fold_name(s))[i]
        == fold_name(s)[i] by {
        assert(fold_name(fold_name(s))[i] == spec_lower(fold_name(s)[i]));
        assert(fold_name(s)[i] == spec_lower(s[i]));
    }
    assert(fold_name(fold_name(s)) =~= fold_name(s));
}

/// Parsing an OID's spelling, when it ends before a character that neither
/// continues a number nor starts another component.
proof fn lemma_parse_oid_of(s: Seq<char>, i: int, parts: Seq<u16>)
    requires
        parts.len() > 0,
        0 <= i,
        i + spec_oid_text_from(parts, 0).len() <= s.len(),
        s.subrange(i, i + spec_oid_text_from(parts, 0).len()) == spec_oid_text_from(parts, 0),
        i + spec_oid_text_from(parts, 0).len() == s.len() || (!is_ascii_digit(
            s[i + spec_oid_text_from(parts, 0).len()],
        ) && s[i + spec_oid_text_from(parts, 0).len()] != '.'),
    ensures
        spec_parse_oid(s, i) == Some((parts, i + spec_oid_text_from(parts, 0).len())),
    decreases parts.len(),
{
    let text = spec_oid_text_from(parts, 0);
    let e = i + text.len();
    let d0 = spec_digits(parts[0] as int);
    lemma_digits_are_digits(parts[0] as int);
    lemma_digits_val_of_digits(parts[0] as int);
    if parts.len() == 1 {
        assert(text == d0);
        assert forall|t: int| i <= t < e implies is_ascii_digit(s[t]) by {
            assert(s[t] == text[t - i]);
        }
        assert(is_ascii_digit(s[i]));
        lemma_digit_end_of_run(s, i, e);
        assert(s.subrange(i, e) =~= d0);
        assert(digits_val(s.subrange(i, e)) == parts[0] as int);
        assert(seq![(digits_val(s.subrange(i, e)) as u16)] =~= parts);
    } else {
        let rest = parts.drop_first();
        let rtext = spec_oid_text_from(rest, 0);
        assert(spec_oid_text_from(parts, 1) == rtext) by {
            lemma_oid_text_shift(parts, 1);
        }
        assert(text == d0 + seq!['.'] + rtext);
        let m = i + d0.len();
        assert forall|t: int| i <= t < m implies is_ascii_digit(s[t]) by {
            assert(s[t] == text[t - i]);
            assert(text[t - i] == d0[t - i]);
        }
        assert(s[m] == text[m - i]);
        assert(text[d0.len() as int] == '.');
        assert(!is_ascii_digit('.'));
        lemma_digit_end_of_run(s, i, m);
        assert(s.subrange(i, m) =~= d0);
        assert(digits_val(s.subrange(i, m)) == parts[0] as int);
        // the dot is followed by the first digit of the next part
        let d1 = spec_digits(rest[0] as int);
        lemma_digits_are_digits(rest[0] as int);
        assert(rtext[0] == d1[0]) by {
            if rest.len() == 1 {
            } else {
                assert(rtext == spec_digits(rest[0] as int) + seq!['.'] + spec_oid_text_from(
                    rest,
                    1,
                ));
            }
        }
        assert(s.subrange(i, e)[m + 1 - i] == s[m + 1]);
        assert(s[m + 1] == text[m + 1 - i]);
        assert(text[m + 1 - i] == (d0 + seq!['.'] + rtext)[m + 1 - i]);
        assert((d0 + seq!['.'] + rtext)[m + 1 - i] == rtext[0]);
        assert(is_ascii_digit(s[m + 1]));
        assert forall|t: int| 0 <= t < rtext.len() implies s.subrange(m + 1, e)[t] == rtext[t] by {
            assert(s.subrange(i, e)[m + 1 - i + t] == s[m + 1 + t]);
            assert(text[m + 1 - i + t] == (d0 + seq!['.'] + rtext)[m + 1 - i + t]);
        }
        assert(s.subrange(m + 1, e) =~= rtext);
        lemma_parse_oid_of(s, m + 1, rest);
        assert(spec_parse_oid(s, m + 1) == Some((rest, e)));
        assert(seq![parts[0]] + rest =~= parts);
    }
}

/// The tail of an OID's spelling is the spelling of the tail.
proof fn lemma_oid_text_shift(parts: Seq<u16>, k: int)
    requires
        1 <= k <= parts.len(),
    ensures
        spec_oid_text_from(parts, k) == spec_oid_text_from(parts.drop_first(), k - 1),
    decreases parts.len() - k,
{
    let rest = parts.drop_first();
    if k >= parts.len() {
    } else if k == parts.len() - 1 {
        assert(rest[k - 1] == parts[k]);
    } else {
        lemma_oid_text_shift(parts, k + 1);
        assert(rest[k - 1] == parts[k]);
    }
}

// ---------------------------------------------------------------------------
// Values
// ---------------------------------------------------------------------------

/// A character that ends a value inside a larger name: the attribute,
/// component and name separators.
pub open spec fn is_value_end(c: char) -> bool {
    c == ',' || c == ';' || c == '+'
}

/// Whether the serializer escapes the character at position `t` of `v`.
pub open spec fn esc_flag(v: Seq<char>, t: int) -> bool {
    (v[t] == ' ' && (t == 0 || t == v.len() - 1)) || (v[t] as u32) < 32 || is_reserved(v[t])
}

/// The tokens reading the escaped text of `v` from position `k` on yields.
pub open spec fn toks_of(v: Seq<char>, k: int) -> Seq<Tok>
    decreases v.len() - k,
{
    if k < 0 || k >= v.len() {
        Seq::empty()
    } else {
        seq![(v[k], esc_flag(v, k))] + toks_of(v, k + 1)
    }
}

proof fn lemma_toks_of_index(v: Seq<char>, k: int)
    requires
        0 <= k <= v.len(),
    ensures
        toks_of(v, k).len() == v.len() - k,
        forall|t: int|
            0 <= t < v.len() - k ==> #[trigger] toks_of(v, k)[t] == (v[k + t], esc_flag(v, k + t)),
    decreases v.len() - k,
{
    if k < v.len() {
        lemma_toks_of_index(v, k + 1);
        assert forall|t: int| 0 <= t < v.len() - k implies #[trigger] toks_of(v, k)[t] == (
            v[k + t],
            esc_flag(v, k + t),
        ) by {
            if t > 0 {
                assert(toks_of(v, k)[t] == toks_of(v, k + 1)[t - 1]);
            }
        }
    }
}

/// The hexadecimal digit characters: their codes, values, and that none is
/// escapable or reserved.
proof fn lemma_hex_digit_char(x: int)
    requires
        0 <= x < 16,
    ensures
        is_hex(hex_digit_char(x)),
        hex_val(hex_digit_char(x)) == x,
        !is_escapable(hex_digit_char(x)),
        !is_reserved(hex_digit_char(x)),
        hex_digit_char(x) != '\\',
    {
    if x < 10 {
        assert(hex_digit_char(x) as int == '0' as int + x);
    } else {
        assert(hex_digit_char(x) as int == 'a' as int + (x - 10));
    }
}

/// Reading the escaped text of the characters of `v` from `k` on, standing
/// at `i` in `s`, yields the tokens and stops at the value's end.
proof fn lemma_read_simple_of(s: Seq<char>, i: int, v: Seq<char>, k: int)
    requires
        0 <= k <= v.len(),
        0 <= i,
        i + spec_escape_from(v, k).len() <= s.len(),
        s.subrange(i, i + spec_escape_from(v, k).len()) == spec_escape_from(v, k),
        i + spec_escape_from(v, k).len() == s.len() || is_value_end(
            s[i + spec_escape_from(v, k).len()],
        ),
    ensures
        spec_read_simple(s, i) == Some((toks_of(v, k), i + spec_escape_from(v, k).len())),
    decreases v.len() - k,
{
    let text = spec_escape_from(v, k);
    let e = i + text.len();
    if k >= v.len() {
        assert(text.len() == 0);
        if i < s.len() {
            assert(is_reserved(s[i]));
            assert(s[i] != '\\');
        }
    } else {
        let chunk = escape_at(v, k);
        let rest = spec_escape_from(v, k + 1);
        assert(text == chunk + rest);
        assert forall|t: int| 0 <= t < chunk.len() implies s[i + t] == chunk[t] by {
            assert(s.subrange(i, e)[t] == s[i + t]);
            assert(text[t] == (chunk + rest)[t]);
        }
        let m = i + chunk.len();
        assert forall|t: int| 0 <= t < rest.len() implies s.subrange(m, e)[t] == rest[t] by {
            assert(s.subrange(i, e)[chunk.len() + t] == s[m + t]);
            assert(text[chunk.len() + t] == (chunk + rest)[chunk.len() + t]);
        }
        assert(s.subrange(m, e) =~= rest);
        lemma_read_simple_of(s, m, v, k + 1);
        let c = v[k];
        if c == ' ' && (k == 0 || k == v.len() - 1) {
            assert(chunk == seq!['\\', ' ']);
            assert(s[i] == '\\' && s[i + 1] == ' ');
            assert(is_escapable(' '));
            assert(esc_flag(v, k));
            assert(seq![(s[i + 1], true)] + toks_of(v, k + 1) =~= toks_of(v, k));
        } else if (c as u32) < 32 {
            let hi = (c as u32) as int / 16;
            let lo = (c as u32) as int % 16;
            assert(chunk == seq!['\\', hex_digit_char(hi), hex_digit_char(lo)]);
            assert(s[i] == '\\');
            assert(s[i + 1] == hex_digit_char(hi));
            assert(s[i + 2] == hex_digit_char(lo));
            lemma_hex_digit_char(hi);
            lemma_hex_digit_char(lo);
            assert(!is_escapable(s[i + 1]));
            assert(hex_val(s[i + 1]) * 16 + hex_val(s[i + 2]) == c as u32);
            let x: int = hex_val(s[i + 1]) * 16 + hex_val(s[i + 2]);
            assert(0 <= x < 32);
            assert(x == c as u32);
            let ch = (x as u8) as char;
            assert(ch as u8 == x as u8);
            assert(ch as u32 == x);
            vstd::utf8::char_u32_cast(c, c as u32);
            vstd::utf8::char_u32_cast(ch, ch as u32);
            assert((x as u32) as char == ch);
            assert((c as u32) as char == c);
            assert(ch == c);
            assert(esc_flag(v, k));
            assert(seq![((((hex_val(s[i + 1]) * 16 + hex_val(s[i + 2])) as u8) as char), true)]
                + toks_of(v, k + 1) =~= toks_of(v, k));
        } else if is_reserved(c) {
            assert(chunk == seq!['\\', c]);
            assert(s[i] == '\\' && s[i + 1] == c);
            assert(is_escapable(c));
            assert(esc_flag(v, k));
            assert(seq![(s[i + 1], true)] + toks_of(v, k + 1) =~= toks_of(v, k));
        } else {
            assert(chunk == seq![c]);
            assert(s[i + 0] == chunk[0]);
            assert(s[i] == c);
            assert(s[i] != '\\');
            assert(!is_reserved(s[i]));
            assert(!esc_flag(v, k));
            assert(seq![(s[i], false)] + toks_of(v, k + 1) =~= toks_of(v, k));
        }
    }
}

/// The tokens of an escaped value survive trimming and spell the value.
proof fn lemma_toks_value(v: Seq<char>)
    ensures
        toks_value(toks_of(v, 0)) == v,
{
    let toks = toks_of(v, 0);
    lemma_toks_of_index(v, 0);
    if toks.len() > 0 {
        assert(toks[0] == (v[0], esc_flag(v, 0)));
        if v[0] == ' ' {
            assert(esc_flag(v, 0));
        }
        assert(!(toks[0].0 == ' ' && !toks[0].1));
        assert(toks.last() == (v[v.len() - 1], esc_flag(v, v.len() - 1)));
        if v[v.len() - 1] == ' ' {
            assert(esc_flag(v, v.len() - 1));
        }
        assert(!(toks.last().0 == ' ' && !toks.last().1));
    }
    assert(trim_front(toks) == toks);
    assert(trim_back(toks) == toks);
    let m = toks.map_values(|p: Tok| p.0);
    assert forall|t: int| 0 <= t < m.len() implies m[t] == v[t] by {
        assert(m[t] == toks[t].0);
        assert(toks[t] == (v[t], esc_flag(v, t)));
    }
    assert(m =~= v);
}

/// Parsing the escaped text of a value, when a separator or the end
/// follows, gives the value back exactly.
proof fn lemma_parse_value_of(s: Seq<char>, i: int, v: Seq<char>)
    requires
        0 <= i,
        i + spec_escape_value(v).len() <= s.len(),
        s.subrange(i, i + spec_escape_value(v).len()) == spec_escape_value(v),
        i + spec_escape_value(v).len() == s.len() || is_value_end(
            s[i + spec_escape_value(v).len()],
        ),
    ensures
        spec_parse_value(s, i) == Some((v, i + spec_escape_value(v).len())),
{
    let text = spec_escape_value(v);
    let e = i + text.len();
    if i < s.len() {
        if v.len() == 0 {
            assert(e == i);
            assert(is_value_end(s[i]));
            assert(s[i] != '#' && s[i] != '"');
        } else {
            let chunk = escape_at(v, 0);
            assert(text == chunk + spec_escape_from(v, 1));
            assert(s.subrange(i, e)[0] == s[i]);
            assert(text[0] == chunk[0]);
            if v[0] == ' ' && (0 == 0 || 0 == v.len() - 1) {
                assert(chunk[0] == '\\');
            } else if (v[0] as u32) < 32 {
                assert(chunk[0] == '\\');
            } else if is_reserved(v[0]) {
                assert(chunk[0] == '\\');
            } else {
                assert(chunk[0] == v[0]);
                assert(!is_reserved(v[0]));
            }
            assert(s[i] != '#' && s[i] != '"');
        }
    }
    lemma_read_simple_of(s, i, v, 0);
    lemma_toks_value(v);
}

// ---------------------------------------------------------------------------
// Attributes, components, names
// ---------------------------------------------------------------------------

/// A well-formed name's spelling is never empty.
proof fn lemma_name_text_nonempty(n: NameView)
    requires
        wf_name(n),
    ensures
        spec_serialize_name(n).len() > 0,
{
    match n {
        NameView::Text(_) => {},
        NameView::Oid(parts) => {
            lemma_digits_are_digits(parts[0] as int);
            if parts.len() > 1 {
                assert(spec_oid_text_from(parts, 0) == spec_digits(parts[0] as int) + seq!['.']
                    + spec_oid_text_from(parts, 1));
            }
        },
    }
}

/// Parsing a well-formed attribute's spelling, when a separator or the end
/// follows it.
proof fn lemma_parse_attr_of(s: Seq<char>, i: int, a: AttrView)
    requires
        wf_attr(a),
        0 <= i,
        i + spec_serialize_attr(a).len() <= s.len(),
        s.subrange(i, i + spec_serialize_attr(a).len()) == spec_serialize_attr(a),
        i + spec_serialize_attr(a).len() == s.len() || is_value_end(
            s[i + spec_serialize_attr(a).len()],
        ),
    ensures
        spec_parse_attr(s, i) matches Some((a2, j)) && j == i + spec_serialize_attr(a).len()
            && attr_eq(a2, a),
{
    let ntext = spec_serialize_name(a.name);
    let vtext = spec_escape_value(a.value);
    let text = spec_serialize_attr(a);
    assert(text == ntext + seq!['='] + vtext);
    let e = i + text.len();
    lemma_name_text_nonempty(a.name);
    let j0 = i + ntext.len();
    assert forall|t: int| 0 <= t < ntext.len() implies s.subrange(i, j0)[t] == ntext[t] by {
        assert(s.subrange(i, e)[t] == s[i + t]);
        assert(text[t] == (ntext + seq!['='] + vtext)[t]);
        assert(s.subrange(i, j0)[t] == s[i + t]);
    }
    assert(s.subrange(i, j0) =~= ntext);
    assert(s.subrange(i, e)[ntext.len() as int] == s[j0]);
    assert(text[ntext.len() as int] == (ntext + seq!['='] + vtext)[ntext.len() as int]);
    assert(s[j0] == '=');
    // the name starts with a letter or a digit, so no whitespace is skipped
    assert(s.subrange(i, e)[0] == s[i]);
    assert(s[i] == ntext[0]);
    match a.name {
        NameView::Text(t) => {
            assert(is_alpha(t[0]));
            assert(!is_space(s[i]));
        },
        NameView::Oid(parts) => {
            lemma_digits_are_digits(parts[0] as int);
            assert(ntext[0] == spec_digits(parts[0] as int)[0]) by {
                if parts.len() > 1 {
                    assert(spec_oid_text_from(parts, 0) == spec_digits(parts[0] as int)
                        + seq!['.'] + spec_oid_text_from(parts, 1));
                }
            }
            assert(is_ascii_digit(s[i]));
            assert(!is_space(s[i]));
        },
    }
    assert(skip_ws(s, i) == i);
    lemma_parse_name_of(s, i, a.name);
    assert(!is_space('='));
    assert(skip_ws(s, j0) == j0);
    // the value and its terminator
    let k0 = j0 + 1;
    assert forall|t: int| 0 <= t < vtext.len() implies s.subrange(k0, e)[t] == vtext[t] by {
        assert(s.subrange(i, e)[ntext.len() + 1 + t] == s[k0 + t]);
        assert(text[ntext.len() + 1 + t] == (ntext + seq!['='] + vtext)[ntext.len() + 1 + t]);
        assert(s.subrange(k0, e)[t] == s[k0 + t]);
    }
    assert(s.subrange(k0, e) =~= vtext);
    if vtext.len() > 0 {
        let chunk = escape_at(a.value, 0);
        assert(vtext == chunk + spec_escape_from(a.value, 1));
        assert(s.subrange(k0, e)[0] == s[k0]);
        assert(vtext[0] == chunk[0]);
        let c = a.value[0];
        if c == ' ' && (0 == 0 || 0 == a.value.len() - 1) {
            assert(chunk[0] == '\\');
        } else if (c as u32) < 32 {
            assert(chunk[0] == '\\');
        } else if is_reserved(c) {
            assert(chunk[0] == '\\');
        } else {
            assert(chunk[0] == c);
        }
        assert(!is_space(s[k0]) || s[k0] == ' ');
        if s[k0] == ' ' {
            // a literal space cannot open the escaped text: an edge space is
            // escaped, and the escapes open with a backslash
            assert(c == ' ' ==> chunk[0] == '\\');
            assert(chunk[0] != ' ' || (chunk[0] == c && c != ' '));
            assert(false);
        }
        assert(skip_ws(s, k0) == k0);
    } else {
        if k0 < s.len() {
            assert(k0 == e);
            assert(is_value_end(s[e]));
            assert(!is_space(s[k0]));
        }
        assert(skip_ws(s, k0) == k0);
    }
    lemma_parse_value_of(s, k0, a.value);
    if e < s.len() {
        assert(!is_space(s[e]));
    }
    assert(skip_ws(s, e) == e);
}

/// Parsing a well-formed component's spelling from its `k`-th attribute on,
/// when a component separator or the end follows.
proof fn lemma_parse_rdn_of(s: Seq<char>, i: int, r: Seq<AttrView>, k: int)
    requires
        wf_rdn(r),
        0 <= k < r.len(),
        0 <= i,
        i + spec_serialize_rdn_from(r, k).len() <= s.len(),
        s.subrange(i, i + spec_serialize_rdn_from(r, k).len()) == spec_serialize_rdn_from(r, k),
        i + spec_serialize_rdn_from(r, k).len() == s.len() || s[i + spec_serialize_rdn_from(
            r,
            k,
        ).len()] == ',' || s[i + spec_serialize_rdn_from(r, k).len()] == ';',
    ensures
        spec_parse_rdn(s, i) matches Some((r2, j)) && j == i + spec_serialize_rdn_from(r, k).len()
            && r2.len() == r.len() - k && forall|t: int|
            0 <= t < r2.len() ==> attr_eq(#[trigger] r2[t], r[k + t]),
    decreases r.len() - k,
{
    let text = spec_serialize_rdn_from(r, k);
    let e = i + text.len();
    let atext = spec_serialize_attr(r[k]);
    if k == r.len() - 1 {
        assert(text == atext);
        lemma_parse_attr_of(s, i, r[k]);
        let (a2, j) = spec_parse_attr(s, i)->Some_0;
        assert(j == e);
        assert(!(j < s.len() && s[j] == '+'));
        assert(seq![a2].len() == 1);
        assert forall|t: int| 0 <= t < 1 implies attr_eq(#[trigger] seq![a2][t], r[k + t]) by {
            assert(seq![a2][0] == a2);
        }
    } else {
        let rest = spec_serialize_rdn_from(r, k + 1);
        assert(text == atext + seq!['+'] + rest);
        let j0 = i + atext.len();
        assert forall|t: int| 0 <= t < atext.len() implies s.subrange(i, j0)[t] == atext[t] by {
            assert(s.subrange(i, e)[t] == s[i + t]);
            assert(text[t] == (atext + seq!['+'] + rest)[t]);
            assert(s.subrange(i, j0)[t] == s[i + t]);
        }
        assert(s.subrange(i, j0) =~= atext);
        assert(s.subrange(i, e)[atext.len() as int] == s[j0]);
        assert(text[atext.len() as int] == (atext + seq!['+'] + rest)[atext.len() as int]);
        assert(s[j0] == '+');
        lemma_parse_attr_of(s, i, r[k]);
        let (a2, j) = spec_parse_attr(s, i)->Some_0;
        assert(j == j0);
        lemma_name_text_nonempty(r[k].name);
        assert(j0 >= i);
        assert forall|t: int| 0 <= t < rest.len() implies s.subrange(j0 + 1, e)[t] == rest[t] by {
            assert(s.subrange(i, e)[atext.len() + 1 + t] == s[j0 + 1 + t]);
            assert(text[atext.len() + 1 + t] == (atext + seq!['+'] + rest)[atext.len() + 1 + t]);
            assert(s.subrange(j0 + 1, e)[t] == s[j0 + 1 + t]);
        }
        assert(s.subrange(j0 + 1, e) =~= rest);
        lemma_parse_rdn_of(s, j0 + 1, r, k + 1);
        let (r2rest, jr) = spec_parse_rdn(s, j0 + 1)->Some_0;
        assert forall|t: int| 0 <= t < (seq![a2] + r2rest).len() implies attr_eq(
            #[trigger] (seq![a2] + r2rest)[t],
            r[k + t],
        ) by {
            if t == 0 {
                assert((seq![a2] + r2rest)[0] == a2);
            } else {
                assert((seq![a2] + r2rest)[t] == r2rest[t - 1]);
                assert(attr_eq(r2rest[t - 1], r[k + 1 + (t - 1)]));
            }
        }
    }
}

/// Parsing a whole well-formed name's spelling from its `k`-th component on,
/// running to the end of the text.
proof fn lemma_parse_dn_list_of(s: Seq<char>, i: int, d: Seq<Seq<AttrView>>, k: int)
    requires
        wf_dn(d),
        0 <= k < d.len(),
        0 <= i,
        i + spec_serialize_dn_from(d, k).len() == s.len(),
        s.subrange(i, s.len() as int) == spec_serialize_dn_from(d, k),
    ensures
        spec_parse_dn_list(s, i) matches Some((d2, j)) && j == s.len() && d2.len() == d.len() - k
            && forall|t: int| 0 <= t < d2.len() ==> rdn_eq(#[trigger] d2[t], d[k + t]),
    decreases d.len() - k,
{
    let text = spec_serialize_dn_from(d, k);
    let e = i + text.len();
    let rtext = spec_serialize_rdn(d[k]);
    if k == d.len() - 1 {
        assert(text == rtext);
        lemma_parse_rdn_of(s, i, d[k], 0);
        let (r2, j) = spec_parse_rdn(s, i)->Some_0;
        assert(j == e);
        assert(!(j < s.len()));
        assert(rdn_eq(r2, d[k])) by {
            assert(forall|t: int| 0 <= t < r2.len() ==> attr_eq(#[trigger] r2[t], d[k][0 + t]));
        }
        assert forall|t: int| 0 <= t < 1 implies rdn_eq(#[trigger] seq![r2][t], d[k + t]) by {
            assert(seq![r2][0] == r2);
        }
    } else {
        let rest = spec_serialize_dn_from(d, k + 1);
        assert(text == rtext + seq![','] + rest);
        let j0 = i + rtext.len();
        assert forall|t: int| 0 <= t < rtext.len() implies s.subrange(i, j0)[t] == rtext[t] by {
            assert(s.subrange(i, e)[t] == s[i + t]);
            assert(text[t] == (rtext + seq![','] + rest)[t]);
            assert(s.subrange(i, j0)[t] == s[i + t]);
        }
        assert(s.subrange(i, j0) =~= rtext);
        assert(s.subrange(i, e)[rtext.len() as int] == s[j0]);
        assert(text[rtext.len() as int] == (rtext + seq![','] + rest)[rtext.len() as int]);
        assert(s[j0] == ',');
        lemma_parse_rdn_of(s, i, d[k], 0);
        let (r2, j) = spec_parse_rdn(s, i)->Some_0;
        assert(j == j0);
        assert(rdn_eq(r2, d[k])) by {
            assert(forall|t: int| 0 <= t < r2.len() ==> attr_eq(#[trigger] r2[t], d[k][0 + t]));
        }
        assert(j0 >= i);
        assert forall|t: int| 0 <= t < rest.len() implies s.subrange(j0 + 1, e)[t] == rest[t] by {
            assert(s.subrange(i, e)[rtext.len() + 1 + t] == s[j0 + 1 + t]);
            assert(text[rtext.len() + 1 + t] == (rtext + seq![','] + rest)[rtext.len() + 1 + t]);
            assert(s.subrange(j0 + 1, e)[t] == s[j0 + 1 + t]);
        }
        assert(s.subrange(j0 + 1, e) =~= rest);
        lemma_parse_dn_list_of(s, j0 + 1, d, k + 1);
        let (d2rest, jr) = spec_parse_dn_list(s, j0 + 1)->Some_0;
        assert forall|t: int| 0 <= t < (seq![r2] + d2rest).len() implies rdn_eq(
            #[trigger] (seq![r2] + d2rest)[t],
            d[k + t],
        ) by {
            if t == 0 {
                assert((seq![r2] + d2rest)[0] == r2);
            } else {
                assert((seq![r2] + d2rest)[t] == d2rest[t - 1]);
                assert(rdn_eq(d2rest[t - 1], d[k + 1 + (t - 1)]));
            }
        }
    }
}

// ---------------------------------------------------------------------------
// The law
// ---------------------------------------------------------------------------

/// Round trip: parsing the serialized text of any well-formed name — names
/// of letters, digits and hyphens or OID forms, values arbitrary — succeeds
/// and gives the name back, under the algebra's case-folding equality.
pub proof fn lemma_parse_serialize_round_trip(d: Seq<Seq<AttrView>>)
    requires
        wf_dn(d),
    ensures
        spec_parse_dn(spec_serialize_dn(d)) matches Some(d2) && dn_eq(d2, d),
{
    let s = spec_serialize_dn(d);
    assert(s.subrange(0, s.len() as int) =~= s);
    lemma_parse_dn_list_of(s, 0, d, 0);
}

/// Parsing a well-formed name's spelling, when an `=` follows it.
proof fn lemma_parse_name_of(s: Seq<char>, i: int, n: NameView)
    requires
        wf_name(n),
        0 <= i,
        i + spec_serialize_name(n).len() < s.len(),
        s.subrange(i, i + spec_serialize_name(n).len()) == spec_serialize_name(n),
        s[i + spec_serialize_name(n).len()] == '=',
    ensures
        spec_parse_name(s, i) matches Some((n2, j)) && j == i + spec_serialize_name(n).len()
            && name_eq(n2, n),
{
    let text = spec_serialize_name(n);
    let e = i + text.len();
    match n {
        NameView::Text(t) => {
            assert(s[i] == text[0]);
            assert(is_alpha(s[i]));
            assert forall|k: int| i <= k < e implies is_name_char(s[k]) by {
                assert(s[k] == t[k - i]);
            }
            assert(!is_name_char('='));
            lemma_name_end_of_run(s, i, e);
            assert(s.subrange(i, e) =~= t);
            lemma_fold_idempotent(t);
        },
        NameView::Oid(parts) => {
            lemma_digits_are_digits(parts[0] as int);
            assert(text[0] == spec_digits(parts[0] as int)[0]) by {
                if parts.len() > 1 {
                    assert(text == spec_digits(parts[0] as int) + seq!['.'] + spec_oid_text_from(
                        parts,
                        1,
                    ));
                }
            }
            assert(s[i] == text[0]);
            assert(is_ascii_digit(s[i]));
            assert(!is_alpha(s[i]));
            assert(!is_ascii_digit('=') && '=' != '.');
            lemma_parse_oid_of(s, i, parts);
        },
    }
}

} // verus!
