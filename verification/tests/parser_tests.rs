use concess::dn::{Attribute, AttributeName, DN, RDN};
use concess::dn_parser::{attribute, attribute_name, attribute_value, dn, rdn, ParseErrorKind};

fn an(s: &str) -> AttributeName {
    AttributeName::text(s.to_string())
}

fn attr_of(n: &str, v: &str) -> Attribute {
    Attribute::new(an(n), v.to_string())
}

fn rdn_of(pairs: &[(&str, &str)]) -> RDN {
    RDN::new(pairs.iter().map(|(n, v)| attr_of(n, v)).collect())
}

fn dn_of(rdns: &[&[(&str, &str)]]) -> DN {
    DN::new(rdns.iter().map(|pairs| rdn_of(pairs)).collect())
}

#[test]
fn test_parse_attribute_name() {
    assert_eq!(attribute_name("cn").unwrap(), an("cn"));
    assert_eq!(attribute_name("foo1-22x").unwrap(), an("foo1-22x"));
    assert_eq!(attribute_name("1").unwrap(), AttributeName::oid(vec![1]));
    assert_eq!(attribute_name("1.2.3.4").unwrap(), AttributeName::oid(vec![1, 2, 3, 4]));
}

#[test]
fn test_parse_attribute_value() {
    assert_eq!(attribute_value("foo").unwrap(), String::from("foo"));
    assert_eq!(attribute_value("42").unwrap(), String::from("42"));
    assert_eq!(
        attribute_value("some spaces  in  between").unwrap(),
        String::from("some spaces  in  between")
    );
    assert_eq!(
        attribute_value("test\\+name@example.com").unwrap(),
        String::from("test+name@example.com")
    );
    assert_eq!(attribute_value("").unwrap(), String::from(""));

    assert_eq!(attribute_value("\"bar\"").unwrap(), String::from("bar"));
    assert_eq!(attribute_value("\"  spaced out   \"").unwrap(), String::from("  spaced out   "));
    assert_eq!(
        attribute_value("\"i'm so+very=special,too\"").unwrap(),
        String::from("i'm so+very=special,too")
    );
    assert_eq!(attribute_value("\"\"").unwrap(), String::from(""));

    assert_eq!(attribute_value("#68656c6c6f").unwrap(), String::from("hello"));
    assert_eq!(attribute_value("#68656c6c6f20f09f8c8e").unwrap(), String::from("hello 🌎"));
    assert_eq!(attribute_value("#").unwrap(), String::from(""));
}

#[test]
fn test_parse_attribute() {
    assert_eq!(attribute("foo=bar").unwrap(), attr_of("foo", "bar"));
    assert_eq!(attribute("foo=").unwrap(), attr_of("foo", ""));
    assert_eq!(attribute("foo=so much bar").unwrap(), attr_of("foo", "so much bar"));
}

#[test]
fn test_parse_rdn() {
    assert_eq!(rdn("foo=bar").unwrap(), rdn_of(&[("foo", "bar")]));

    assert_eq!(
        rdn("foo=bar+bar=baz+baz=foo").unwrap(),
        rdn_of(&[("foo", "bar"), ("bar", "baz"), ("baz", "foo")])
    );
}

#[test]
fn test_parse_dn() {
    assert_eq!(
        dn("cn=foo,cn=bar,ou=foobar+x=baz").unwrap(),
        dn_of(&[&[("cn", "foo")], &[("cn", "bar")], &[("ou", "foobar"), ("x", "baz")]])
    );

    assert_eq!(
        dn("cn=foo,cn=bar;ou=foobar").unwrap(),
        dn_of(&[&[("cn", "foo")], &[("cn", "bar")], &[("ou", "foobar")]])
    );
}

#[test]
fn test_parsing() {
    assert_eq!(
        dn("cn=foo\\,bar,OU=FOO\\,bar , OU=foo\\;bar;OU=foo\\;bar ; ou=foo\\,,ou=foo\\,;ou=foo\\;;ou=foo\\,;ou=bar\\,")
            .unwrap(),
        dn_of(&[
            &[("cn", "foo,bar")],
            &[("ou", "FOO,bar")],
            &[("ou", "foo;bar")],
            &[("ou", "foo;bar")],
            &[("ou", "foo,")],
            &[("ou", "foo,")],
            &[("ou", "foo;")],
            &[("ou", "foo,")],
            &[("ou", "bar,")],
        ])
    );
}

#[test]
fn parse_failures_report_kind() {
    assert_eq!(dn("").unwrap_err().kind, ParseErrorKind::ExpectedName);
    assert_eq!(dn("cn").unwrap_err().kind, ParseErrorKind::ExpectedEquals);
    assert_eq!(dn("=x").unwrap_err().kind, ParseErrorKind::ExpectedName);
    assert_eq!(dn("cn=a\\x").unwrap_err().kind, ParseErrorKind::InvalidEscape);
    assert_eq!(dn("cn=\"open").unwrap_err().kind, ParseErrorKind::UnterminatedQuote);
    assert_eq!(attribute_value("#6").unwrap_err().kind, ParseErrorKind::InvalidHexString);
    assert_eq!(attribute_value("#ff").unwrap_err().kind, ParseErrorKind::InvalidUtf8);
    assert_eq!(attribute_name("99999").unwrap_err().kind, ParseErrorKind::OidOverflow);
    let e = dn("cn=foo bar=baz").unwrap_err();
    assert_eq!(e.kind, ParseErrorKind::TrailingCharacters);
}

#[test]
fn escaped_comma_value_round_trips() {
    let parsed = dn("cn=Acme\\, Inc.").unwrap();
    let attrs = parsed.iter()[0].iter();
    assert_eq!(attrs[0].value(), "Acme, Inc.");
    assert_eq!(parsed.to_text(), "cn=Acme\\, Inc.");
}

#[test]
fn serialize_then_parse_is_identity() {
    // Reserved characters, interior and edge spaces, a control byte, and
    // non-ASCII text; textual and OID names.
    let d = DN::new(vec![
        RDN::new(vec![
            Attribute::new(an("cn"), " a,b=c+d<e>f#g;h\"i\\j ".to_string()),
            Attribute::new(AttributeName::oid(vec![2, 5, 4, 3]), "x\u{1}y".to_string()),
        ]),
        RDN::new(vec![Attribute::new(an("ou"), "grüße 🌎".to_string())]),
        RDN::new(vec![Attribute::new(an("dc"), "  double  spaced  ".to_string())]),
    ]);
    let text = d.to_text();
    let parsed = dn(&text).unwrap();
    assert_eq!(parsed, d);
}

#[test]
fn serializer_escapes_exactly() {
    let a = Attribute::new(an("cn"), " x\u{1},z ".to_string());
    assert_eq!(a.to_text(), "cn=\\ x\\01\\,z\\ ");
    let o = AttributeName::oid(vec![1, 22, 333]);
    assert_eq!(o.to_text(), "1.22.333");
}
