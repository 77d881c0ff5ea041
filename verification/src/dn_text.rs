//! Serialization of distinguished names to their escaped string form: the
//! nine reserved characters and control characters are backslash-escaped, and
//! a leading or trailing space is written `\ `.

use vstd::prelude::*;

use crate::dn::{AttrView, Attribute, AttributeName, NameView, DN, RDN};

verus! {

// ---------------------------------------------------------------------------
// The escaped form, as a specification
// ---------------------------------------------------------------------------

/// The nine characters that must be escaped in an attribute value.
pub open spec fn is_reserved(c: char) -> bool {
    c == ',' || c == '=' || c == '+' || c == '<' || c == '>' || c == '#' || c == ';' || c == '"'
        || c == '\\'
}

/// Hexadecimal digit for `n` in `0..16`, lower case.
pub open spec fn hex_digit_char(n: int) -> char {
    if n < 10 {
        ((('0' as u8) + n) as char)
    } else {
        ((('a' as u8) + (n - 10)) as char)
    }
}

/// The escaped spelling of one character, ignoring its position: a control
/// character becomes a two-digit hex escape, a reserved character is
/// backslash-escaped, anything else stands as itself.
pub open spec fn esc_char_seq(c: char) -> Seq<char> {
    if (c as u32) < 32 {
        seq!['\\', hex_digit_char((c as u32) as int / 16), hex_digit_char((c as u32) as int % 16)]
    } else if is_reserved(c) {
        seq!['\\', c]
    } else {
        seq![c]
    }
}

/// The escaped spelling of the character at position `i` of `v`: a space at
/// either end is written `\ `, everything else as `esc_char_seq` says.
pub open spec fn escape_at(v: Seq<char>, i: int) -> Seq<char> {
    if v[i] == ' ' && (i == 0 || i == v.len() - 1) {
        seq!['\\', ' ']
    } else {
        esc_char_seq(v[i])
    }
}

/// The escaped text of the characters of `v` from position `i` on.
pub open spec fn spec_escape_from(v: Seq<char>, i: int) -> Seq<char>
    decreases v.len() - i,
{
    if i < 0 || i >= v.len() {
        Seq::empty()
    } else {
        escape_at(v, i) + spec_escape_from(v, i + 1)
    }
}

/// The escaped text of a whole attribute value.
pub open spec fn spec_escape_value(v: Seq<char>) -> Seq<char> {
    spec_escape_from(v, 0)
}

/// The decimal digit character for `d` in `0..10`.
pub open spec fn digit_char(d: int) -> char {
    ((('0' as u8) + d) as char)
}

/// The decimal digits of a non-negative number, most significant first.
pub open spec fn spec_digits(n: int) -> Seq<char>
    decreases n,
{
    if n < 0 {
        Seq::empty()
    } else if n < 10 {
        seq![digit_char(n)]
    } else {
        spec_digits(n / 10).push(digit_char(n % 10))
    }
}

/// The text of an OID from its `i`-th part on: decimal parts joined by dots.
pub open spec fn spec_oid_text_from(parts: Seq<u16>, i: int) -> Seq<char>
    decreases parts.len() - i,
{
    if i < 0 || i >= parts.len() {
        Seq::empty()
    } else if i == parts.len() - 1 {
        spec_digits(parts[i] as int)
    } else {
        spec_digits(parts[i] as int) + seq!['.'] + spec_oid_text_from(parts, i + 1)
    }
}

/// The text of an attribute name: a textual name as stored, an OID as
/// dot-joined decimal parts.
pub open spec fn spec_serialize_name(n: NameView) -> Seq<char> {
    match n {
        NameView::Text(s) => s,
        NameView::Oid(p) => spec_oid_text_from(p, 0),
    }
}

/// The text of one attribute: `name=value` with the value escaped.
pub open spec fn spec_serialize_attr(a: AttrView) -> Seq<char> {
    spec_serialize_name(a.name) + seq!['='] + spec_escape_value(a.value)
}

/// The text of a component from its `i`-th attribute on, joined by `+`.
pub open spec fn spec_serialize_rdn_from(r: Seq<AttrView>, i: int) -> Seq<char>
    decreases r.len() - i,
{
    if i < 0 || i >= r.len() {
        Seq::empty()
    } else if i == r.len() - 1 {
        spec_serialize_attr(r[i])
    } else {
        spec_serialize_attr(r[i]) + seq!['+'] + spec_serialize_rdn_from(r, i + 1)
    }
}

/// The text of a whole component.
pub open spec fn spec_serialize_rdn(r: Seq<AttrView>) -> Seq<char> {
    spec_serialize_rdn_from(r, 0)
}

/// The text of a name from its `i`-th component on, joined by `,`.
pub open spec fn spec_serialize_dn_from(d: Seq<Seq<AttrView>>, i: int) -> Seq<char>
    decreases d.len() - i,
{
    if i < 0 || i >= d.len() {
        Seq::empty()
    } else if i == d.len() - 1 {
        spec_serialize_rdn(d[i])
    } else {
        spec_serialize_rdn(d[i]) + seq![','] + spec_serialize_dn_from(d, i + 1)
    }
}

/// The text of a whole name.
pub open spec fn spec_serialize_dn(d: Seq<Seq<AttrView>>) -> Seq<char> {
    spec_serialize_dn_from(d, 0)
}

// ---------------------------------------------------------------------------
// Building strings
// ---------------------------------------------------------------------------

/// Relies on `String::from_iter` over characters: the resulting string holds
/// exactly the characters handed to it, in order.
#[verifier::external_body]
pub(crate) fn chars_to_string(v: &Vec<char>) -> (r: String)
    ensures
        r@ == v@,
{
    v.iter().collect()
}

/// Collect the characters of a string slice into a vector.
pub(crate) fn str_chars(s: &str) -> (r: Vec<char>)
    ensures
        r@ == s@,
{
    let n = s.unicode_len();
    let mut r: Vec<char> = Vec::new();
    let mut i: usize = 0;
    while i < n
        invariant
            i <= n,
            n == s@.len(),
            r@ == s@.take(i as int),
        decreases n - i,
    {
        let c = s.get_char(i);
        r.push(c);
        proof {
            assert(s@.take(i + 1 as int) =~= s@.take(i as int).push(s@[i as int]));
        }
        i += 1;
    }
    proof {
        assert(s@.take(s@.len() as int) =~= s@);
    }
    r
}

/// Executable hexadecimal digit, lower case.
fn hex_digit(n: u32) -> (r: char)
    requires
        n < 16,
    ensures
        r == hex_digit_char(n as int),
{
    if n < 10 {
        (('0' as u8) + (n as u8)) as char
    } else {
        (('a' as u8) + ((n - 10) as u8)) as char
    }
}

/// Append the decimal digits of `n` to `out`.
fn push_digits(out: &mut Vec<char>, n: u16)
    ensures
        final(out)@ == old(out)@ + spec_digits(n as int),
    decreases n,
{
    if n < 10 {
        out.push((('0' as u8) + (n as u8)) as char);
        proof {
            assert(out@ =~= old(out)@ + spec_digits(n as int));
        }
    } else {
        push_digits(out, n / 10);
        out.push((('0' as u8) + ((n % 10) as u8)) as char);
        proof {
            assert(out@ =~= old(out)@ + spec_digits(n as int));
        }
    }
}

/// Append the escaped form of value `v` to `out`.
fn push_escaped(out: &mut Vec<char>, v: &Vec<char>)
    ensures
        final(out)@ == old(out)@ + spec_escape_value(v@),
{
    let n = v.len();
    let mut i: usize = 0;
    while i < n
        invariant
            i <= n,
            n == v@.len(),
            out@ + spec_escape_from(v@, i as int) == old(out)@ + spec_escape_value(v@),
        decreases n - i,
    {
        let ghost pre = out@;
        let c = v[i];
        if c == ' ' && (i == 0 || i == n - 1) {
            out.push('\\');
            out.push(' ');
        } else if (c as u32) < 32 {
            let u = c as u32;
            out.push('\\');
            out.push(hex_digit(u / 16));
            out.push(hex_digit(u % 16));
        } else if c == ',' || c == '=' || c == '+' || c == '<' || c == '>' || c == '#' || c == ';'
            || c == '"' || c == '\\' {
            out.push('\\');
            out.push(c);
        } else {
            out.push(c);
        }
        proof {
            assert(out@ =~= pre + escape_at(v@, i as int));
            assert(out@ + spec_escape_from(v@, i + 1) =~= pre + spec_escape_from(v@, i as int));
        }
        i += 1;
    }
}

/// Append the text of an attribute name to `out`.
fn push_name(out: &mut Vec<char>, name: &AttributeName)
    ensures
        final(out)@ == old(out)@ + spec_serialize_name(name@),
{
    match name {
        AttributeName::Text(s) => {
            let cs = str_chars(s.as_str());
            let mut i: usize = 0;
            while i < cs.len()
                invariant
                    i <= cs@.len(),
                    cs@ == s@,
                    out@ == old(out)@ + s@.take(i as int),
                decreases cs@.len() - i,
            {
                out.push(cs[i]);
                proof {
                    assert(out@ =~= old(out)@ + s@.take(i + 1 as int));
                }
                i += 1;
            }
            proof {
                assert(s@.take(s@.len() as int) =~= s@);
            }
        },
        AttributeName::Oid(parts) => {
            let n = parts.len();
            let mut i: usize = 0;
            while i < n
                invariant
                    i <= n,
                    n == parts@.len(),
                    out@ + spec_oid_text_from(parts@, i as int) == old(out)@ + spec_oid_text_from(
                        parts@,
                        0,
                    ),
                decreases n - i,
            {
                let ghost pre = out@;
                push_digits(out, parts[i]);
                if i < n - 1 {
                    out.push('.');
                    proof {
                        assert(out@ =~= pre + spec_digits(parts@[i as int] as int) + seq!['.']);
                        assert(out@ + spec_oid_text_from(parts@, i + 1) =~= pre
                            + spec_oid_text_from(parts@, i as int));
                    }
                } else {
                    proof {
                        assert(out@ + spec_oid_text_from(parts@, i + 1) =~= pre
                            + spec_oid_text_from(parts@, i as int));
                    }
                }
                i += 1;
            }
            proof {
                if n == 0 {
                    assert(out@ =~= old(out)@ + spec_oid_text_from(parts@, 0));
                }
            }
        },
    }
}

/// Append the text of one attribute to `out`.
fn push_attr(out: &mut Vec<char>, attr: &Attribute)
    ensures
        final(out)@ == old(out)@ + spec_serialize_attr(attr@),
{
    push_name(out, &attr.name);
    out.push('=');
    let vc = str_chars(attr.value.as_str());
    push_escaped(out, &vc);
    proof {
        assert(out@ =~= old(out)@ + spec_serialize_attr(attr@));
    }
}

/// Append the text of one component to `out`.
fn push_rdn(out: &mut Vec<char>, rdn: &RDN)
    ensures
        final(out)@ == old(out)@ + spec_serialize_rdn(rdn@),
{
    let n = rdn.attributes.len();
    let mut i: usize = 0;
    while i < n
        invariant
            i <= n,
            n == rdn@.len(),
            rdn@.len() == rdn.attributes@.len(),
            out@ + spec_serialize_rdn_from(rdn@, i as int) == old(out)@ + spec_serialize_rdn(rdn@),
        decreases n - i,
    {
        let ghost pre = out@;
        push_attr(out, &rdn.attributes[i]);
        proof {
            assert(rdn@[i as int] == rdn.attributes@[i as int]@);
        }
        if i < n - 1 {
            out.push('+');
            proof {
                assert(out@ =~= pre + spec_serialize_attr(rdn@[i as int]) + seq!['+']);
                assert(out@ + spec_serialize_rdn_from(rdn@, i + 1) =~= pre
                    + spec_serialize_rdn_from(rdn@, i as int));
            }
        } else {
            proof {
                assert(out@ + spec_serialize_rdn_from(rdn@, i + 1) =~= pre
                    + spec_serialize_rdn_from(rdn@, i as int));
            }
        }
        i += 1;
    }
    proof {
        if n == 0 {
            assert(out@ =~= old(out)@ + spec_serialize_rdn(rdn@));
        }
    }
}

impl AttributeName {
    /// The text of this name.
    pub fn to_text(&self) -> (r: String)
        ensures
            r@ == spec_serialize_name(self@),
    {
        let mut out: Vec<char> = Vec::new();
        push_name(&mut out, self);
        chars_to_string(&out)
    }
}

impl Attribute {
    /// The text of this attribute, `name=value` with the value escaped.
    pub fn to_text(&self) -> (r: String)
        ensures
            r@ == spec_serialize_attr(self@),
    {
        let mut out: Vec<char> = Vec::new();
        push_attr(&mut out, self);
        chars_to_string(&out)
    }
}

impl RDN {
    /// The text of this component, attributes joined by `+`.
    pub fn to_text(&self) -> (r: String)
        ensures
            r@ == spec_serialize_rdn(self@),
    {
        let mut out: Vec<char> = Vec::new();
        push_rdn(&mut out, self);
        chars_to_string(&out)
    }
}

impl DN {
    /// The text of this name, components joined by `,`.
    pub fn to_text(&self) -> (r: String)
        ensures
            r@ == spec_serialize_dn(self@),
    {
        let mut out: Vec<char> = Vec::new();
        let n = self.components.len();
        let mut i: usize = 0;
        while i < n
            invariant
                i <= n,
                n == self@.len(),
                self@.len() == self.components@.len(),
                out@ + spec_serialize_dn_from(self@, i as int) == spec_serialize_dn(self@),
            decreases n - i,
        {
            let ghost pre = out@;
            push_rdn(&mut out, &self.components[i]);
            proof {
                assert(self@[i as int] == self.components@[i as int]@);
            }
            if i < n - 1 {
                out.push(',');
                proof {
                    assert(out@ =~= pre + spec_serialize_rdn(self@[i as int]) + seq![',']);
                    assert(out@ + spec_serialize_dn_from(self@, i + 1) =~= pre
                        + spec_serialize_dn_from(self@, i as int));
                }
            } else {
                proof {
                    assert(out@ + spec_serialize_dn_from(self@, i + 1) =~= pre
                        + spec_serialize_dn_from(self@, i as int));
                }
            }
            i += 1;
        }
        proof {
            if n == 0 {
                assert(out@ =~= spec_serialize_dn(self@));
            }
        }
        chars_to_string(&out)
    }
}

} // verus!
