use concess::dn::{Attribute, AttributeName, DN, RDN};

fn an(s: &str) -> AttributeName {
    AttributeName::text(s.to_string())
}

fn attr(n: &str, v: &str) -> Attribute {
    Attribute::new(an(n), v.to_string())
}

fn rdn1(n: &str, v: &str) -> RDN {
    RDN::new(vec![attr(n, v)])
}

fn dn_of(pairs: &[(&str, &str)]) -> DN {
    DN::new(pairs.iter().map(|(n, v)| rdn1(n, v)).collect())
}

#[test]
fn test_join() {
    assert_eq!(
        dn_of(&[("dc", "example"), ("dc", "com")]).join(&dn_of(&[("ou", "test")])),
        dn_of(&[("ou", "test"), ("dc", "example"), ("dc", "com")])
    );
}

#[test]
fn test_descendant() {
    assert!(dn_of(&[("ou", "test"), ("dc", "example"), ("dc", "com")])
        .is_descendant_of(&dn_of(&[("ou", "test"), ("dc", "example"), ("dc", "com")])));
    assert!(dn_of(&[("ou", "test"), ("dc", "example"), ("dc", "com")])
        .is_descendant_of(&dn_of(&[("dc", "example"), ("dc", "com")])));
    assert!(dn_of(&[("ou", "test"), ("dc", "example"), ("dc", "com")])
        .is_descendant_of(&dn_of(&[("dc", "com")])));
    assert!(dn_of(&[("ou", "test"), ("dc", "example"), ("dc", "com")])
        .is_descendant_of(&DN::root()));

    assert!(!dn_of(&[("ou", "test"), ("dc", "example"), ("dc", "com")])
        .is_descendant_of(&dn_of(&[("dc", "broken"), ("dc", "com")])));
    assert!(!dn_of(&[("ou", "test"), ("dc", "example"), ("dc", "com")])
        .is_descendant_of(&dn_of(&[("dc", "com"), ("ex", "suffix")])));
}

#[test]
fn test_ancestor() {
    assert!(dn_of(&[("ou", "test"), ("dc", "example"), ("dc", "com")])
        .is_ancestor_of(&dn_of(&[("ou", "test"), ("dc", "example"), ("dc", "com")])));
    assert!(dn_of(&[("dc", "example"), ("dc", "com")])
        .is_ancestor_of(&dn_of(&[("ou", "test"), ("dc", "example"), ("dc", "com")])));
    assert!(dn_of(&[("dc", "com")])
        .is_ancestor_of(&dn_of(&[("ou", "test"), ("dc", "example"), ("dc", "com")])));
    assert!(DN::root().is_ancestor_of(&dn_of(&[("ou", "test"), ("dc", "example"), ("dc", "com")])));

    assert!(!dn_of(&[("dc", "broken"), ("dc", "com")])
        .is_ancestor_of(&dn_of(&[("ou", "test"), ("dc", "example"), ("dc", "com")])));
    assert!(!dn_of(&[("dc", "com"), ("ex", "suffix")])
        .is_ancestor_of(&dn_of(&[("ou", "test"), ("dc", "example"), ("dc", "com")])));
}

#[test]
fn test_relative_to() {
    assert_eq!(
        dn_of(&[("cn", "myself"), ("ou", "test"), ("dc", "example"), ("dc", "com")])
            .relative_to(&dn_of(&[("dc", "example"), ("dc", "com")])),
        Some(dn_of(&[("cn", "myself"), ("ou", "test")]))
    );

    assert_eq!(
        dn_of(&[("cn", "myself"), ("ou", "test"), ("dc", "example"), ("dc", "com")])
            .relative_to(&dn_of(&[("ou", "broken"), ("dc", "example"), ("dc", "com")])),
        None
    );
}

#[test]
fn test_parent() {
    assert_eq!(
        dn_of(&[("cn", "myself"), ("ou", "test"), ("dc", "example"), ("dc", "com")]).parent(),
        dn_of(&[("ou", "test"), ("dc", "example"), ("dc", "com")])
    );

    assert_eq!(dn_of(&[("dc", "com")]).parent(), DN::root());

    assert_eq!(DN::root().parent(), DN::root());
}

#[test]
fn name_equality_folds_case() {
    assert_eq!(an("ObjectClass"), an("objectclass"));
    assert_ne!(an("cn"), an("sn"));
    assert_ne!(an("1"), AttributeName::oid(vec![1]));
    assert_eq!(AttributeName::oid(vec![1, 2]), AttributeName::oid(vec![1, 2]));
}

#[test]
fn value_equality_is_exact() {
    assert_ne!(attr("cn", "Foo"), attr("cn", "foo"));
    assert_eq!(attr("CN", "Foo"), attr("cn", "Foo"));
}
