//! Parsing of distinguished names from their string form.
//!
//! Grammar: `dn := rdn (("," | ";") rdn)*`; `rdn := attr ("+" attr)*`;
//! `attr := name "=" value`; `name := letter (letter|digit|"-")* | oid`;
//! `oid := digits ("." digits)*`; a value is unescaped (reserved characters
//! backslash-escaped, two-hex-digit escapes for control characters, leading
//! and trailing unescaped spaces trimmed), quoted, or a `#`-prefixed hex
//! string decoded as UTF-8. Textual names are lower-cased while parsing.

use vstd::prelude::*;

use crate::dn::{fold_name, AttrView, Attribute, AttributeName, NameView, DN, RDN};
use crate::dn_text::is_reserved;

verus! {

// ---------------------------------------------------------------------------
// Character classes
// ---------------------------------------------------------------------------

/// The whitespace allowed around names and values.
pub open spec fn is_space(c: char) -> bool {
    c == ' ' || c == '\t' || c == '\n' || c == '\r'
}

pub open spec fn is_alpha(c: char) -> bool {
    ('a' <= c && c <= 'z') || ('A' <= c && c <= 'Z')
}

pub open spec fn is_ascii_digit(c: char) -> bool {
    '0' <= c && c <= '9'
}

/// A character allowed after the first one of a textual name.
pub open spec fn is_name_char(c: char) -> bool {
    is_alpha(c) || is_ascii_digit(c) || c == '-'
}

/// A character that may follow a backslash as itself: a reserved character
/// or a space.
pub open spec fn is_escapable(c: char) -> bool {
    is_reserved(c) || c == ' '
}

pub open spec fn is_hex(c: char) -> bool {
    is_ascii_digit(c) || ('a' <= c && c <= 'f') || ('A' <= c && c <= 'F')
}

/// The numeric value of a hexadecimal digit.
pub open spec fn hex_val(c: char) -> int {
    if is_ascii_digit(c) {
        c as int - '0' as int
    } else if 'a' <= c && c <= 'f' {
        c as int - 'a' as int + 10
    } else {
        c as int - 'A' as int + 10
    }
}

// ---------------------------------------------------------------------------
// Character runs
// ---------------------------------------------------------------------------

/// The first position at or after `i` that does not hold whitespace.
pub open spec fn skip_ws(s: Seq<char>, i: int) -> int
    decreases s.len() - i,
{
    if i < 0 || i >= s.len() {
        i
    } else if is_space(s[i]) {
        skip_ws(s, i + 1)
    } else {
        i
    }
}

/// The end of the run of name characters starting at `i`.
pub open spec fn name_end(s: Seq<char>, i: int) -> int
    decreases s.len() - i,
{
    if i < 0 || i >= s.len() {
        i
    } else if is_name_char(s[i]) {
        name_end(s, i + 1)
    } else {
        i
    }
}

/// The end of the run of decimal digits starting at `i`.
pub open spec fn digit_end(s: Seq<char>, i: int) -> int
    decreases s.len() - i,
{
    if i < 0 || i >= s.len() {
        i
    } else if is_ascii_digit(s[i]) {
        digit_end(s, i + 1)
    } else {
        i
    }
}

pub proof fn lemma_digit_end(s: Seq<char>, i: int)
    requires
        0 <= i <= s.len(),
    ensures
        i <= digit_end(s, i) <= s.len(),
        digit_end(s, i) < s.len() ==> !is_ascii_digit(s[digit_end(s, i)]),
        forall|j: int| i <= j < digit_end(s, i) ==> is_ascii_digit(s[j]),
    decreases s.len() - i,
{
    if i < s.len() && is_ascii_digit(s[i]) {
        lemma_digit_end(s, i + 1);
    }
}

// ---------------------------------------------------------------------------
// Numbers
// ---------------------------------------------------------------------------

/// The value of a run of decimal digits.
pub open spec fn digits_val(s: Seq<char>) -> int
    decreases s.len(),
{
    if s.len() == 0 {
        0
    } else {
        digits_val(s.drop_last()) * 10 + (s.last() as int - '0' as int)
    }
}

pub proof fn lemma_digits_val_nonneg(s: Seq<char>)
    requires
        forall|j: int| 0 <= j < s.len() ==> is_ascii_digit(s[j]),
    ensures
        digits_val(s) >= 0,
    decreases s.len(),
{
    if s.len() > 0 {
        lemma_digits_val_nonneg(s.drop_last());
    }
}

/// A prefix of a digit run never exceeds the whole run's value.
pub proof fn lemma_digits_val_prefix(s: Seq<char>, k: int)
    requires
        forall|j: int| 0 <= j < s.len() ==> is_ascii_digit(s[j]),
        0 <= k <= s.len(),
    ensures
        digits_val(s.take(k)) <= digits_val(s),
    decreases s.len() - k,
{
    if k < s.len() {
        lemma_digits_val_prefix(s, k + 1);
        assert(s.take(k + 1).drop_last() =~= s.take(k));
        assert(forall|j: int| 0 <= j < s.take(k).len() ==> is_ascii_digit(s.take(k)[j]));
        lemma_digits_val_nonneg(s.take(k));
        assert(digits_val(s.take(k + 1)) == digits_val(s.take(k)) * 10 + (s[k] as int
            - '0' as int));
    } else {
        assert(s.take(k) =~= s);
    }
}

// ---------------------------------------------------------------------------
// The parser, as a specification
// ---------------------------------------------------------------------------

/// Parse an OID: digit runs joined by dots, each a number below 65536. A dot
/// continues the OID only when a digit follows it.
pub open spec fn spec_parse_oid(s: Seq<char>, i: int) -> Option<(Seq<u16>, int)>
    decreases s.len() - i,
{
    if i < 0 || i >= s.len() || !is_ascii_digit(s[i]) {
        None
    } else {
        let j = digit_end(s, i);
        let v = digits_val(s.subrange(i, j));
        if v > 65535 {
            None
        } else if j >= i && j + 1 < s.len() && s[j] == '.' && is_ascii_digit(s[j + 1]) {
            match spec_parse_oid(s, j + 1) {
                Some((rest, k)) => Some((seq![v as u16] + rest, k)),
                None => None,
            }
        } else {
            Some((seq![v as u16], j))
        }
    }
}

/// Parse an attribute name: a textual name is lower-cased, a leading digit
/// starts an OID.
pub open spec fn spec_parse_name(s: Seq<char>, i: int) -> Option<(NameView, int)> {
    if 0 <= i < s.len() && is_alpha(s[i]) {
        Some((NameView::Text(fold_name(s.subrange(i, name_end(s, i)))), name_end(s, i)))
    } else {
        match spec_parse_oid(s, i) {
            Some((parts, j)) => Some((NameView::Oid(parts), j)),
            None => None,
        }
    }
}

/// One parsed character of a value, with whether it came from an escape.
/// Escaped spaces at the ends survive trimming; unescaped ones do not.
pub type Tok = (char, bool);

/// Read the body of an unescaped (simple) value: stops before an unescaped
/// reserved character or at the end; fails on an invalid escape.
pub open spec fn spec_read_simple(s: Seq<char>, i: int) -> Option<(Seq<Tok>, int)>
    decreases s.len() - i,
{
    if i < 0 {
        None
    } else if i >= s.len() {
        Some((Seq::empty(), i))
    } else if s[i] == '\\' {
        if i + 1 < s.len() && is_escapable(s[i + 1]) {
            match spec_read_simple(s, i + 2) {
                Some((rest, k)) => Some((seq![(s[i + 1], true)] + rest, k)),
                None => None,
            }
        } else if i + 2 < s.len() && is_hex(s[i + 1]) && is_hex(s[i + 2]) && hex_val(s[i + 1]) * 16
            + hex_val(s[i + 2]) < 32 {
            match spec_read_simple(s, i + 3) {
                Some((rest, k)) => Some(
                    (seq![((((hex_val(s[i + 1]) * 16 + hex_val(s[i + 2])) as u8) as char), true)]
                        + rest, k),
                ),
                None => None,
            }
        } else {
            None
        }
    } else if is_reserved(s[i]) {
        Some((Seq::empty(), i))
    } else {
        match spec_read_simple(s, i + 1) {
            Some((rest, k)) => Some((seq![(s[i], false)] + rest, k)),
            None => None,
        }
    }
}

/// Read the body of a quoted value up to and over the closing quote; the
/// reserved characters may stand unescaped, only `\` and `"` may not.
pub open spec fn spec_read_quoted(s: Seq<char>, i: int) -> Option<(Seq<char>, int)>
    decreases s.len() - i,
{
    if i < 0 || i >= s.len() {
        None
    } else if s[i] == '"' {
        Some((Seq::empty(), i + 1))
    } else if s[i] == '\\' {
        if i + 1 < s.len() && is_escapable(s[i + 1]) {
            match spec_read_quoted(s, i + 2) {
                Some((rest, k)) => Some((seq![s[i + 1]] + rest, k)),
                None => None,
            }
        } else if i + 2 < s.len() && is_hex(s[i + 1]) && is_hex(s[i + 2]) && hex_val(s[i + 1]) * 16
            + hex_val(s[i + 2]) < 32 {
            match spec_read_quoted(s, i + 3) {
                Some((rest, k)) => Some(
                    (seq![(((hex_val(s[i + 1]) * 16 + hex_val(s[i + 2])) as u8) as char)] + rest, k),
                ),
                None => None,
            }
        } else {
            None
        }
    } else {
        match spec_read_quoted(s, i + 1) {
            Some((rest, k)) => Some((seq![s[i]] + rest, k)),
            None => None,
        }
    }
}

/// Read the hex pairs of a `#` value: stops before the first character that
/// is no hex digit; a lone trailing hex digit fails.
pub open spec fn spec_read_hex(s: Seq<char>, i: int) -> Option<(Seq<u8>, int)>
    decreases s.len() - i,
{
    if i < 0 {
        None
    } else if i < s.len() && is_hex(s[i]) {
        if i + 1 < s.len() && is_hex(s[i + 1]) {
            match spec_read_hex(s, i + 2) {
                Some((rest, k)) => Some(
                    (seq![((hex_val(s[i]) * 16 + hex_val(s[i + 1])) as u8)] + rest, k),
                ),
                None => None,
            }
        } else {
            None
        }
    } else {
        Some((Seq::empty(), i))
    }
}

/// Drop unescaped spaces from the front of a token list.
pub open spec fn trim_front(t: Seq<Tok>) -> Seq<Tok>
    decreases t.len(),
{
    if t.len() > 0 && t[0].0 == ' ' && !t[0].1 {
        trim_front(t.drop_first())
    } else {
        t
    }
}

/// Drop unescaped spaces from the back of a token list.
pub open spec fn trim_back(t: Seq<Tok>) -> Seq<Tok>
    decreases t.len(),
{
    if t.len() > 0 && t.last().0 == ' ' && !t.last().1 {
        trim_back(t.drop_last())
    } else {
        t
    }
}

/// The value a token list denotes: trimmed at both ends, escapes resolved.
pub open spec fn toks_value(t: Seq<Tok>) -> Seq<char> {
    trim_back(trim_front(t)).map_values(|p: Tok| p.0)
}

/// Parse an attribute value: a hex string after `#`, a quoted string after
/// `"`, otherwise a simple value.
pub open spec fn spec_parse_value(s: Seq<char>, i: int) -> Option<(Seq<char>, int)> {
    if 0 <= i < s.len() && s[i] == '#' {
        match spec_read_hex(s, i + 1) {
            Some((bytes, j)) => if vstd::utf8::valid_utf8(bytes) {
                Some((vstd::utf8::decode_utf8(bytes), j))
            } else {
                None
            },
            None => None,
        }
    } else if 0 <= i < s.len() && s[i] == '"' {
        spec_read_quoted(s, i + 1)
    } else {
        match spec_read_simple(s, i) {
            Some((toks, j)) => Some((toks_value(toks), j)),
            None => None,
        }
    }
}

/// Parse one `name=value` attribute, whitespace allowed around both parts.
pub open spec fn spec_parse_attr(s: Seq<char>, i: int) -> Option<(AttrView, int)> {
    let i1 = skip_ws(s, i);
    match spec_parse_name(s, i1) {
        Some((name, j)) => {
            let j1 = skip_ws(s, j);
            if j1 < s.len() && s[j1] == '=' {
                match spec_parse_value(s, skip_ws(s, j1 + 1)) {
                    Some((value, m)) => Some((AttrView { name, value }, skip_ws(s, m))),
                    None => None,
                }
            } else {
                None
            }
        },
        None => None,
    }
}

/// Parse one component: attributes joined by `+`.
pub open spec fn spec_parse_rdn(s: Seq<char>, i: int) -> Option<(Seq<AttrView>, int)>
    decreases s.len() - i,
{
    match spec_parse_attr(s, i) {
        Some((a, j)) => if j < s.len() && s[j] == '+' {
            if j >= i {
                match spec_parse_rdn(s, j + 1) {
                    Some((rest, k)) => Some((seq![a] + rest, k)),
                    None => None,
                }
            } else {
                None
            }
        } else {
            Some((seq![a], j))
        },
        None => None,
    }
}

/// Parse a list of components joined by `,` or `;`.
pub open spec fn spec_parse_dn_list(s: Seq<char>, i: int) -> Option<(Seq<Seq<AttrView>>, int)>
    decreases s.len() - i,
{
    match spec_parse_rdn(s, i) {
        Some((r, j)) => if j < s.len() && (s[j] == ',' || s[j] == ';') {
            if j >= i {
                match spec_parse_dn_list(s, j + 1) {
                    Some((rest, k)) => Some((seq![r] + rest, k)),
                    None => None,
                }
            } else {
                None
            }
        } else {
            Some((seq![r], j))
        },
        None => None,
    }
}

/// Parse a whole string as a name: the grammar must consume every character.
pub open spec fn spec_parse_dn(s: Seq<char>) -> Option<Seq<Seq<AttrView>>> {
    match spec_parse_dn_list(s, 0) {
        Some((d, j)) => if j == s.len() {
            Some(d)
        } else {
            None
        },
        None => None,
    }
}

/// Parse a whole string as one component.
pub open spec fn spec_parse_rdn_full(s: Seq<char>) -> Option<Seq<AttrView>> {
    match spec_parse_rdn(s, 0) {
        Some((r, j)) => if j == s.len() {
            Some(r)
        } else {
            None
        },
        None => None,
    }
}

/// Parse a whole string as one attribute.
pub open spec fn spec_parse_attr_full(s: Seq<char>) -> Option<AttrView> {
    match spec_parse_attr(s, 0) {
        Some((a, j)) => if j == s.len() {
            Some(a)
        } else {
            None
        },
        None => None,
    }
}

/// Parse a whole string as an attribute name.
pub open spec fn spec_parse_name_full(s: Seq<char>) -> Option<NameView> {
    match spec_parse_name(s, 0) {
        Some((n, j)) => if j == s.len() {
            Some(n)
        } else {
            None
        },
        None => None,
    }
}

/// Parse a whole string as an attribute value.
pub open spec fn spec_parse_value_full(s: Seq<char>) -> Option<Seq<char>> {
    match spec_parse_value(s, 0) {
        Some((v, j)) => if j == s.len() {
            Some(v)
        } else {
            None
        },
        None => None,
    }
}

// ---------------------------------------------------------------------------
// Errors
// ---------------------------------------------------------------------------

/// Why a parse failed.
#[derive(Debug, Clone, Copy, PartialEq, Eq, Structural)]
pub enum ParseErrorKind {
    /// No attribute name starts at this position.
    ExpectedName,
    /// The `=` between name and value is missing.
    ExpectedEquals,
    /// A backslash is not followed by an escapable character or a two-digit
    /// hex escape below 0x20.
    InvalidEscape,
    /// A quoted value misses its closing quote.
    UnterminatedQuote,
    /// A hex string holds a lone hex digit.
    InvalidHexString,
    /// A hex string does not decode as UTF-8.
    InvalidUtf8,
    /// An OID part is too large.
    OidOverflow,
    /// The grammar ended before the input did.
    TrailingCharacters,
}

/// A parse failure: the position it was noticed at, and its kind.
#[derive(Debug, Clone, Copy, PartialEq, Eq, Structural)]
pub struct ParseError {
    pub position: usize,
    pub kind: ParseErrorKind,
}

// ---------------------------------------------------------------------------
// The executable parser
// ---------------------------------------------------------------------------

/// Relies on `String::from_utf8`: succeeds exactly on valid UTF-8 and
/// returns the characters that the bytes encode.
#[verifier::external_body]
fn bytes_to_string(v: Vec<u8>) -> (r: Option<String>)
    ensures
        r is Some <==> vstd::utf8::valid_utf8(v@),
        r matches Some(s) ==> s@ == vstd::utf8::decode_utf8(v@),
{
    match String::from_utf8(v) {
        Ok(s) => Some(s),
        Err(_) => None,
    }
}

fn space_at(s: &Vec<char>, j: usize) -> (r: bool)
    requires
        j < s@.len(),
    ensures
        r == is_space(s@[j as int]),
{
    let c = s[j];
    c == ' ' || c == '\t' || c == '\n' || c == '\r'
}

fn alpha_at(s: &Vec<char>, j: usize) -> (r: bool)
    requires
        j < s@.len(),
    ensures
        r == is_alpha(s@[j as int]),
{
    let c = s[j];
    ('a' <= c && c <= 'z') || ('A' <= c && c <= 'Z')
}

fn digit_at(s: &Vec<char>, j: usize) -> (r: bool)
    requires
        j < s@.len(),
    ensures
        r == is_ascii_digit(s@[j as int]),
{
    let c = s[j];
    '0' <= c && c <= '9'
}

fn name_char_at(s: &Vec<char>, j: usize) -> (r: bool)
    requires
        j < s@.len(),
    ensures
        r == is_name_char(s@[j as int]),
{
    let c = s[j];
    ('a' <= c && c <= 'z') || ('A' <= c && c <= 'Z') || ('0' <= c && c <= '9') || c == '-'
}

fn reserved_at(s: &Vec<char>, j: usize) -> (r: bool)
    requires
        j < s@.len(),
    ensures
        r == is_reserved(s@[j as int]),
{
    let c = s[j];
    c == ',' || c == '=' || c == '+' || c == '<' || c == '>' || c == '#' || c == ';' || c == '"'
        || c == '\\'
}

fn escapable_at(s: &Vec<char>, j: usize) -> (r: bool)
    requires
        j < s@.len(),
    ensures
        r == is_escapable(s@[j as int]),
{
    reserved_at(s, j) || s[j] == ' '
}

fn hex_at(s: &Vec<char>, j: usize) -> (r: bool)
    requires
        j < s@.len(),
    ensures
        r == is_hex(s@[j as int]),
{
    let c = s[j];
    ('0' <= c && c <= '9') || ('a' <= c && c <= 'f') || ('A' <= c && c <= 'F')
}

fn hex_digit_val(c: char) -> (r: u32)
    requires
        is_hex(c),
    ensures
        r as int == hex_val(c),
        r < 16,
{
    if '0' <= c && c <= '9' {
        (c as u32) - 48
    } else if 'a' <= c && c <= 'f' {
        (c as u32) - 87
    } else {
        (c as u32) - 55
    }
}

/// Advance past whitespace.
fn ws_to(s: &Vec<char>, i: usize) -> (r: usize)
    requires
        i <= s@.len(),
    ensures
        r as int == skip_ws(s@, i as int),
        i <= r <= s@.len(),
{
    let mut j = i;
    while j < s.len() && space_at(s, j)
        invariant
            i <= j <= s@.len(),
            skip_ws(s@, i as int) == skip_ws(s@, j as int),
        decreases s@.len() - j,
    {
        j += 1;
    }
    j
}

/// Parse an OID, mirroring `spec_parse_oid`.
fn p_oid(s: &Vec<char>, i: usize) -> (r: Result<(Vec<u16>, usize), ParseError>)
    requires
        i <= s@.len(),
    ensures
        r matches Ok(p) ==> spec_parse_oid(s@, i as int) == Some((p.0@, p.1 as int)) && i <= p.1
            <= s@.len(),
        r is Err ==> spec_parse_oid(s@, i as int) is None,
    decreases s@.len() - i,
{
    if i >= s.len() || !digit_at(s, i) {
        return Err(ParseError { position: i, kind: ParseErrorKind::ExpectedName });
    }
    let mut j = i;
    while j < s.len() && digit_at(s, j)
        invariant
            i <= j <= s@.len(),
            digit_end(s@, i as int) == digit_end(s@, j as int),
        decreases s@.len() - j,
    {
        j += 1;
    }
    proof {
        assert(digit_end(s@, j as int) == j as int);
        lemma_digit_end(s@, i as int);
    }
    let ghost run = s@.subrange(i as int, j as int);
    let mut acc: u32 = 0;
    let mut k = i;
    while k < j
        invariant
            i <= k <= j <= s@.len(),
            i < s@.len(),
            is_ascii_digit(s@[i as int]),
            j as int == digit_end(s@, i as int),
            run == s@.subrange(i as int, j as int),
            forall|t: int| i <= t < j ==> is_ascii_digit(s@[t]),
            acc as int == digits_val(s@.subrange(i as int, k as int)),
            acc <= 65535,
        decreases j - k,
    {
        let d = (s[k] as u32) - 48;
        proof {
            assert(s@.subrange(i as int, k + 1).drop_last() =~= s@.subrange(i as int, k as int));
        }
        let acc2 = acc * 10 + d;
        if acc2 > 65535 {
            proof {
                assert(forall|t: int| 0 <= t < run.len() ==> is_ascii_digit(run[t]));
                lemma_digits_val_prefix(run, k + 1 - i);
                assert(run.take(k + 1 - i) =~= s@.subrange(i as int, k + 1));
                assert(s@.subrange(i as int, k + 1).last() == s@[k as int]);
                assert(acc2 as int == digits_val(s@.subrange(i as int, k + 1)));
                assert(digits_val(run) > 65535);
                assert(spec_parse_oid(s@, i as int) is None);
            }
            return Err(ParseError { position: k, kind: ParseErrorKind::OidOverflow });
        }
        acc = acc2;
        k += 1;
    }
    let v = acc as u16;
    if s.len() - j > 1 && s[j] == '.' && digit_at(s, j + 1) {
        match p_oid(s, j + 1) {
            Ok((parts, k2)) => {
                let ghost pre = parts@;
                let mut parts = parts;
                parts.insert(0, v);
                proof {
                    assert(parts@ =~= seq![v] + pre);
                }
                Ok((parts, k2))
            },
            Err(e) => Err(e),
        }
    } else {
        let mut parts: Vec<u16> = Vec::new();
        parts.push(v);
        proof {
            assert(parts@ =~= seq![v]);
        }
        Ok((parts, j))
    }
}

/// Parse an attribute name, mirroring `spec_parse_name`.
fn p_name(s: &Vec<char>, i: usize) -> (r: Result<(AttributeName, usize), ParseError>)
    requires
        i <= s@.len(),
    ensures
        r matches Ok(p) ==> spec_parse_name(s@, i as int) == Some((p.0@, p.1 as int)) && i <= p.1
            <= s@.len(),
        r is Err ==> spec_parse_name(s@, i as int) is None,
{
    if i < s.len() && alpha_at(s, i) {
        let mut j = i;
        while j < s.len() && name_char_at(s, j)
            invariant
                i <= j <= s@.len(),
                name_end(s@, i as int) == name_end(s@, j as int),
            decreases s@.len() - j,
        {
            j += 1;
        }
        let mut out: Vec<char> = Vec::new();
        let mut k = i;
        while k < j
            invariant
                i <= k <= j <= s@.len(),
                out@.len() == k - i,
                forall|t: int| 0 <= t < k - i ==> out@[t] == crate::dn::spec_lower(s@[i + t]),
            decreases j - k,
        {
            out.push(crate::dn::char_fold(s[k]));
            k += 1;
        }
        proof {
            let run = s@.subrange(i as int, j as int);
            let m = fold_name(run);
            assert forall|t: int| 0 <= t < m.len() implies m[t] == out@[t] by {
                assert(m[t] == crate::dn::spec_lower(run[t]));
            }
            assert(out@ =~= fold_name(run));
        }
        let text = crate::dn_text::chars_to_string(&out);
        Ok((AttributeName::Text(text), j))
    } else {
        match p_oid(s, i) {
            Ok((parts, j)) => Ok((AttributeName::Oid(parts), j)),
            Err(e) => Err(e),
        }
    }
}

/// Read a simple value's tokens, mirroring `spec_read_simple`.
fn p_simple(s: &Vec<char>, i: usize) -> (r: Result<(Vec<Tok>, usize), ParseError>)
    requires
        i <= s@.len(),
    ensures
        r matches Ok(p) ==> spec_read_simple(s@, i as int) == Some((p.0@, p.1 as int)) && i <= p.1
            <= s@.len(),
        r is Err ==> spec_read_simple(s@, i as int) is None,
{
    let mut toks: Vec<Tok> = Vec::new();
    let mut cur = i;
    while cur < s.len()
        invariant
            i <= cur <= s@.len(),
            match spec_read_simple(s@, cur as int) {
                Some((rest, k)) => spec_read_simple(s@, i as int) == Some((toks@ + rest, k)),
                None => spec_read_simple(s@, i as int) is None,
            },
        decreases s@.len() - cur,
    {
        let ghost pre = toks@;
        let c = s[cur];
        if c == '\\' {
            if s.len() - cur > 1 && escapable_at(s, cur + 1) {
                toks.push((s[cur + 1], true));
                proof {
                    let (rest, k) = spec_read_simple(s@, cur + 2)->Some_0;
                    if spec_read_simple(s@, cur + 2) is Some {
                        assert(pre + (seq![(s@[cur + 1], true)] + rest) =~= toks@ + rest);
                    }
                }
                cur += 2;
            } else if s.len() - cur > 2 && hex_at(s, cur + 1) && hex_at(s, cur + 2) && hex_digit_val(
                s[cur + 1],
            ) * 16 + hex_digit_val(s[cur + 2]) < 32 {
                let hv = hex_digit_val(s[cur + 1]) * 16 + hex_digit_val(s[cur + 2]);
                toks.push(((hv as u8) as char, true));
                proof {
                    let (rest, k) = spec_read_simple(s@, cur + 3)->Some_0;
                    if spec_read_simple(s@, cur + 3) is Some {
                        assert(pre + (seq![(((hv as u8) as char), true)] + rest) =~= toks@ + rest);
                    }
                }
                cur += 3;
            } else {
                return Err(ParseError { position: cur, kind: ParseErrorKind::InvalidEscape });
            }
        } else if reserved_at(s, cur) {
            proof {
                assert(toks@ + Seq::<Tok>::empty() =~= toks@);
            }
            return Ok((toks, cur));
        } else {
            toks.push((c, false));
            proof {
                let (rest, k) = spec_read_simple(s@, cur + 1)->Some_0;
                if spec_read_simple(s@, cur + 1) is Some {
                    assert(pre + (seq![(s@[cur as int], false)] + rest) =~= toks@ + rest);
                }
            }
            cur += 1;
        }
    }
    proof {
        assert(toks@ + Seq::<Tok>::empty() =~= toks@);
    }
    Ok((toks, cur))
}

/// Read a quoted value's characters, mirroring `spec_read_quoted`.
fn p_quoted(s: &Vec<char>, i: usize) -> (r: Result<(Vec<char>, usize), ParseError>)
    requires
        i <= s@.len(),
    ensures
        r matches Ok(p) ==> spec_read_quoted(s@, i as int) == Some((p.0@, p.1 as int)) && i <= p.1
            <= s@.len(),
        r is Err ==> spec_read_quoted(s@, i as int) is None,
{
    let mut out: Vec<char> = Vec::new();
    let mut cur = i;
    while cur < s.len()
        invariant
            i <= cur <= s@.len(),
            match spec_read_quoted(s@, cur as int) {
                Some((rest, k)) => spec_read_quoted(s@, i as int) == Some((out@ + rest, k)),
                None => spec_read_quoted(s@, i as int) is None,
            },
        decreases s@.len() - cur,
    {
        let ghost pre = out@;
        let c = s[cur];
        if c == '"' {
            proof {
                assert(out@ + Seq::<char>::empty() =~= out@);
            }
            return Ok((out, cur + 1));
        } else if c == '\\' {
            if s.len() - cur > 1 && escapable_at(s, cur + 1) {
                out.push(s[cur + 1]);
                proof {
                    let (rest, k) = spec_read_quoted(s@, cur + 2)->Some_0;
                    if spec_read_quoted(s@, cur + 2) is Some {
                        assert(pre + (seq![s@[cur + 1]] + rest) =~= out@ + rest);
                    }
                }
                cur += 2;
            } else if s.len() - cur > 2 && hex_at(s, cur + 1) && hex_at(s, cur + 2) && hex_digit_val(
                s[cur + 1],
            ) * 16 + hex_digit_val(s[cur + 2]) < 32 {
                let hv = hex_digit_val(s[cur + 1]) * 16 + hex_digit_val(s[cur + 2]);
                out.push((hv as u8) as char);
                proof {
                    let (rest, k) = spec_read_quoted(s@, cur + 3)->Some_0;
                    if spec_read_quoted(s@, cur + 3) is Some {
                        assert(pre + (seq![((hv as u8) as char)] + rest) =~= out@ + rest);
                    }
                }
                cur += 3;
            } else {
                return Err(ParseError { position: cur, kind: ParseErrorKind::InvalidEscape });
            }
        } else {
            out.push(c);
            proof {
                let (rest, k) = spec_read_quoted(s@, cur + 1)->Some_0;
                if spec_read_quoted(s@, cur + 1) is Some {
                    assert(pre + (seq![s@[cur as int]] + rest) =~= out@ + rest);
                }
            }
            cur += 1;
        }
    }
    Err(ParseError { position: cur, kind: ParseErrorKind::UnterminatedQuote })
}

/// Read a hex string's bytes, mirroring `spec_read_hex`.
fn p_hex(s: &Vec<char>, i: usize) -> (r: Result<(Vec<u8>, usize), ParseError>)
    requires
        i <= s@.len(),
    ensures
        r matches Ok(p) ==> spec_read_hex(s@, i as int) == Some((p.0@, p.1 as int)) && i <= p.1
            <= s@.len(),
        r is Err ==> spec_read_hex(s@, i as int) is None,
{
    let mut bytes: Vec<u8> = Vec::new();
    let mut cur = i;
    while cur < s.len() && hex_at(s, cur)
        invariant
            i <= cur <= s@.len(),
            match spec_read_hex(s@, cur as int) {
                Some((rest, k)) => spec_read_hex(s@, i as int) == Some((bytes@ + rest, k)),
                None => spec_read_hex(s@, i as int) is None,
            },
        decreases s@.len() - cur,
    {
        let ghost pre = bytes@;
        if s.len() - cur > 1 && hex_at(s, cur + 1) {
            let b = hex_digit_val(s[cur]) * 16 + hex_digit_val(s[cur + 1]);
            bytes.push(b as u8);
            proof {
                let (rest, k) = spec_read_hex(s@, cur + 2)->Some_0;
                if spec_read_hex(s@, cur + 2) is Some {
                    assert(pre + (seq![(b as u8)] + rest) =~= bytes@ + rest);
                }
            }
            cur += 2;
        } else {
            return Err(ParseError { position: cur, kind: ParseErrorKind::InvalidHexString });
        }
    }
    proof {
        assert(bytes@ + Seq::<u8>::empty() =~= bytes@);
    }
    Ok((bytes, cur))
}

/// Trim unescaped spaces from both ends of a token list.
fn trim_toks(t: &Vec<Tok>) -> (r: Vec<Tok>)
    ensures
        r@ == trim_back(trim_front(t@)),
{
    let len = t.len();
    proof {
        assert(t@.subrange(0, len as int) =~= t@);
    }
    let mut start: usize = 0;
    while start < len && t[start].0 == ' ' && !t[start].1
        invariant
            0 <= start <= len,
            len == t@.len(),
            trim_front(t@) == trim_front(t@.subrange(start as int, len as int)),
        decreases len - start,
    {
        proof {
            assert(t@.subrange(start as int, len as int).drop_first() =~= t@.subrange(
                start + 1,
                len as int,
            ));
        }
        start += 1;
    }
    proof {
        assert(trim_front(t@) == t@.subrange(start as int, len as int));
    }
    let mut end: usize = len;
    while end > start && t[end - 1].0 == ' ' && !t[end - 1].1
        invariant
            start <= end <= len,
            len == t@.len(),
            trim_back(t@.subrange(start as int, len as int)) == trim_back(
                t@.subrange(start as int, end as int),
            ),
        decreases end,
    {
        proof {
            assert(t@.subrange(start as int, end as int).drop_last() =~= t@.subrange(
                start as int,
                end - 1,
            ));
        }
        end -= 1;
    }
    proof {
        assert(trim_back(t@.subrange(start as int, end as int)) == t@.subrange(
            start as int,
            end as int,
        ));
    }
    let mut r: Vec<Tok> = Vec::new();
    let mut k = start;
    while k < end
        invariant
            start <= k <= end <= len,
            len == t@.len(),
            r@ == t@.subrange(start as int, k as int),
        decreases end - k,
    {
        r.push(t[k]);
        proof {
            assert(t@.subrange(start as int, k + 1) =~= t@.subrange(start as int, k as int).push(
                t@[k as int],
            ));
        }
        k += 1;
    }
    r
}

/// Parse an attribute value, mirroring `spec_parse_value`.
fn p_value(s: &Vec<char>, i: usize) -> (r: Result<(String, usize), ParseError>)
    requires
        i <= s@.len(),
    ensures
        r matches Ok(p) ==> spec_parse_value(s@, i as int) == Some((p.0@, p.1 as int)) && i <= p.1
            <= s@.len(),
        r is Err ==> spec_parse_value(s@, i as int) is None,
{
    if i < s.len() && s[i] == '#' {
        match p_hex(s, i + 1) {
            Ok((bytes, j)) => {
                let ghost bs = bytes@;
                match bytes_to_string(bytes) {
                    Some(st) => Ok((st, j)),
                    None => Err(ParseError { position: i, kind: ParseErrorKind::InvalidUtf8 }),
                }
            },
            Err(e) => Err(e),
        }
    } else if i < s.len() && s[i] == '"' {
        match p_quoted(s, i + 1) {
            Ok((cs, j)) => Ok((crate::dn_text::chars_to_string(&cs), j)),
            Err(e) => Err(e),
        }
    } else {
        match p_simple(s, i) {
            Ok((toks, j)) => {
                let trimmed = trim_toks(&toks);
                let mut cs: Vec<char> = Vec::new();
                let mut k: usize = 0;
                while k < trimmed.len()
                    invariant
                        0 <= k <= trimmed@.len(),
                        cs@.len() == k,
                        forall|t: int| 0 <= t < k ==> cs@[t] == trimmed@[t].0,
                    decreases trimmed@.len() - k,
                {
                    cs.push(trimmed[k].0);
                    k += 1;
                }
                proof {
                    let m = trimmed@.map_values(|p: Tok| p.0);
                    assert forall|t: int| 0 <= t < m.len() implies m[t] == cs@[t] by {
                        assert(m[t] == trimmed@[t].0);
                    }
                    assert(cs@ =~= toks_value(toks@));
                }
                Ok((crate::dn_text::chars_to_string(&cs), j))
            },
            Err(e) => Err(e),
        }
    }
}

/// Parse one attribute, mirroring `spec_parse_attr`.
fn p_attr(s: &Vec<char>, i: usize) -> (r: Result<(Attribute, usize), ParseError>)
    requires
        i <= s@.len(),
    ensures
        r matches Ok(p) ==> spec_parse_attr(s@, i as int) == Some((p.0@, p.1 as int)) && i <= p.1
            <= s@.len(),
        r is Err ==> spec_parse_attr(s@, i as int) is None,
{
    let i1 = ws_to(s, i);
    match p_name(s, i1) {
        Ok((name, j)) => {
            let j1 = ws_to(s, j);
            if j1 < s.len() && s[j1] == '=' {
                let k = ws_to(s, j1 + 1);
                match p_value(s, k) {
                    Ok((value, m)) => {
                        let j2 = ws_to(s, m);
                        Ok((Attribute { name, value }, j2))
                    },
                    Err(e) => Err(e),
                }
            } else {
                Err(ParseError { position: j1, kind: ParseErrorKind::ExpectedEquals })
            }
        },
        Err(e) => Err(e),
    }
}

/// Parse one component, mirroring `spec_parse_rdn`.
fn p_rdn(s: &Vec<char>, i: usize) -> (r: Result<(RDN, usize), ParseError>)
    requires
        i <= s@.len(),
    ensures
        r matches Ok(p) ==> spec_parse_rdn(s@, i as int) == Some((p.0@, p.1 as int)) && i <= p.1
            <= s@.len(),
        r is Err ==> spec_parse_rdn(s@, i as int) is None,
    decreases s@.len() - i,
{
    match p_attr(s, i) {
        Ok((a, j)) => {
            if j < s.len() && s[j] == '+' {
                match p_rdn(s, j + 1) {
                    Ok((rest, k)) => {
                        let ghost av = a@;
                        let ghost pre = rest@;
                        let mut rest = rest;
                        rest.attributes.insert(0, a);
                        proof {
                            let m = rest.attributes@.map_values(|x: Attribute| x@);
                            assert forall|t: int| 0 <= t < m.len() implies m[t] == (seq![av]
                                + pre)[t] by {
                                assert(m[t] == rest.attributes@[t]@);
                                if t > 0 {
                                    assert(pre[t - 1] == rest.attributes@[t]@);
                                }
                            }
                            assert(rest@ =~= seq![av] + pre);
                        }
                        Ok((rest, k))
                    },
                    Err(e) => Err(e),
                }
            } else {
                let ghost av = a@;
                let mut attrs: Vec<Attribute> = Vec::new();
                attrs.push(a);
                let out = RDN { attributes: attrs };
                proof {
                    assert(out@[0] == av);
                    assert(out@ =~= seq![av]);
                }
                Ok((out, j))
            }
        },
        Err(e) => Err(e),
    }
}

/// Parse a list of components, mirroring `spec_parse_dn_list`.
fn p_dn_list(s: &Vec<char>, i: usize) -> (r: Result<(DN, usize), ParseError>)
    requires
        i <= s@.len(),
    ensures
        r matches Ok(p) ==> spec_parse_dn_list(s@, i as int) == Some((p.0@, p.1 as int)) && i
            <= p.1 <= s@.len(),
        r is Err ==> spec_parse_dn_list(s@, i as int) is None,
    decreases s@.len() - i,
{
    match p_rdn(s, i) {
        Ok((first, j)) => {
            if j < s.len() && (s[j] == ',' || s[j] == ';') {
                match p_dn_list(s, j + 1) {
                    Ok((rest, k)) => {
                        let ghost rv = first@;
                        let ghost pre = rest@;
                        let mut rest = rest;
                        rest.components.insert(0, first);
                        proof {
                            let m = rest.components@.map_values(|x: RDN| x@);
                            assert forall|t: int| 0 <= t < m.len() implies m[t] == (seq![rv]
                                + pre)[t] by {
                                assert(m[t] == rest.components@[t]@);
                                if t > 0 {
                                    assert(pre[t - 1] == rest.components@[t]@);
                                }
                            }
                            assert(rest@ =~= seq![rv] + pre);
                        }
                        Ok((rest, k))
                    },
                    Err(e) => Err(e),
                }
            } else {
                let ghost rv = first@;
                let mut components: Vec<RDN> = Vec::new();
                components.push(first);
                let out = DN { components };
                proof {
                    assert(out@[0] == rv);
                    assert(out@ =~= seq![rv]);
                }
                Ok((out, j))
            }
        },
        Err(e) => Err(e),
    }
}

// ---------------------------------------------------------------------------
// Entry points
// ---------------------------------------------------------------------------

/// Parse a whole string as a distinguished name.
pub fn dn(s: &str) -> (r: Result<DN, ParseError>)
    ensures
        r is Ok <==> spec_parse_dn(s@) is Some,
        r matches Ok(d) ==> spec_parse_dn(s@) == Some(d@),
{
    let cs = crate::dn_text::str_chars(s);
    match p_dn_list(&cs, 0) {
        Ok((d, j)) => if j == cs.len() {
            Ok(d)
        } else {
            Err(ParseError { position: j, kind: ParseErrorKind::TrailingCharacters })
        },
        Err(e) => Err(e),
    }
}

/// Parse a whole string as one component.
pub fn rdn(s: &str) -> (r: Result<RDN, ParseError>)
    ensures
        r is Ok <==> spec_parse_rdn_full(s@) is Some,
        r matches Ok(d) ==> spec_parse_rdn_full(s@) == Some(d@),
{
    let cs = crate::dn_text::str_chars(s);
    match p_rdn(&cs, 0) {
        Ok((d, j)) => if j == cs.len() {
            Ok(d)
        } else {
            Err(ParseError { position: j, kind: ParseErrorKind::TrailingCharacters })
        },
        Err(e) => Err(e),
    }
}

/// Parse a whole string as one attribute.
pub fn attribute(s: &str) -> (r: Result<Attribute, ParseError>)
    ensures
        r is Ok <==> spec_parse_attr_full(s@) is Some,
        r matches Ok(a) ==> spec_parse_attr_full(s@) == Some(a@),
{
    let cs = crate::dn_text::str_chars(s);
    match p_attr(&cs, 0) {
        Ok((a, j)) => if j == cs.len() {
            Ok(a)
        } else {
            Err(ParseError { position: j, kind: ParseErrorKind::TrailingCharacters })
        },
        Err(e) => Err(e),
    }
}

/// Parse a whole string as an attribute name.
pub fn attribute_name(s: &str) -> (r: Result<AttributeName, ParseError>)
    ensures
        r is Ok <==> spec_parse_name_full(s@) is Some,
        r matches Ok(n) ==> spec_parse_name_full(s@) == Some(n@),
{
    let cs = crate::dn_text::str_chars(s);
    match p_name(&cs, 0) {
        Ok((n, j)) => if j == cs.len() {
            Ok(n)
        } else {
            Err(ParseError { position: j, kind: ParseErrorKind::TrailingCharacters })
        },
        Err(e) => Err(e),
    }
}

/// Parse a whole string as an attribute value.
pub fn attribute_value(s: &str) -> (r: Result<String, ParseError>)
    ensures
        r is Ok <==> spec_parse_value_full(s@) is Some,
        r matches Ok(v) ==> spec_parse_value_full(s@) == Some(v@),
{
    let cs = crate::dn_text::str_chars(s);
    match p_value(&cs, 0) {
        Ok((v, j)) => if j == cs.len() {
            Ok(v)
        } else {
            Err(ParseError { position: j, kind: ParseErrorKind::TrailingCharacters })
        },
        Err(e) => Err(e),
    }
}

} // verus!
