use argon2::{Argon2, PasswordHasher};
use concess::database::{Database, User};
use concess::dn_parser::dn;
use concess::filter::{Filter, FilterError, Scope, ScopeKind, WireFilter};
use concess::session::{BindOutcome, Binding, SearchOutcome, Session};

fn hash_of(password: &[u8]) -> String {
    Argon2::default()
        .hash_password_with_salt(password, b"testsalt")
        .unwrap()
        .to_string()
}

fn alice_db() -> Database {
    Database::new(vec![User {
        name: "alice".to_string(),
        password: hash_of(b"wonderland"),
        first_name: "Alice".to_string(),
        last_name: "Liddell".to_string(),
        mail: "alice@example.com".to_string(),
        groups: vec!["admins".to_string()],
    }])
}

fn base_dn() -> concess::dn::DN {
    dn("dc=example,dc=com").unwrap()
}

fn get_values(
    entity: &concess::entities::WithBaseDN,
    name: &str,
    db: &Database,
) -> Option<Vec<String>> {
    entity.get(&concess::dn_parser::attribute_name(name).unwrap(), db)
}

#[test]
fn user_dn_and_member_of() {
    let db = alice_db();
    let base = base_dn();
    let alice = &db.users()[0];
    let entity = alice.with_base_dn(&base);
    assert_eq!(entity.dn().to_text(), "cn=alice,ou=users,dc=example,dc=com");
    assert_eq!(
        get_values(&entity, "memberOf", &db),
        Some(vec!["cn=admins,ou=groups,dc=example,dc=com".to_string()])
    );
    assert_eq!(get_values(&entity, "cn", &db), Some(vec!["alice".to_string()]));
    assert_eq!(get_values(&entity, "givenName", &db), Some(vec!["Alice".to_string()]));
    assert_eq!(get_values(&entity, "uniqueMembers", &db), None);
}

#[test]
fn group_unique_members_derived_from_users() {
    let db = alice_db();
    let base = base_dn();
    let groups = db.groups();
    assert_eq!(groups.len(), 1);
    assert_eq!(groups[0].name, "admins");
    let entity = groups[0].with_base_dn(&base);
    assert_eq!(entity.dn().to_text(), "cn=admins,ou=groups,dc=example,dc=com");
    assert_eq!(
        get_values(&entity, "uniqueMembers", &db),
        Some(vec!["cn=alice,ou=users,dc=example,dc=com".to_string()])
    );
    assert_eq!(
        get_values(&entity, "objectClass", &db),
        Some(vec!["groupOfUniqueNames".to_string(), "top".to_string()])
    );
    assert_eq!(get_values(&entity, "memberOf", &db), None);
}

#[test]
fn groups_deduplicate_preserving_order() {
    let db = Database::new(vec![
        User {
            name: "a".to_string(),
            password: hash_of(b"x"),
            first_name: "".to_string(),
            last_name: "".to_string(),
            mail: "".to_string(),
            groups: vec!["staff".to_string(), "admins".to_string()],
        },
        User {
            name: "b".to_string(),
            password: hash_of(b"y"),
            first_name: "".to_string(),
            last_name: "".to_string(),
            mail: "".to_string(),
            groups: vec!["admins".to_string(), "dev".to_string()],
        },
    ]);
    let names: Vec<String> = db.groups().into_iter().map(|g| g.name).collect();
    assert_eq!(names, vec!["staff".to_string(), "admins".to_string(), "dev".to_string()]);
}

#[test]
fn bind_success_and_failure() {
    let db = alice_db();
    let mut session = Session::new(base_dn());
    assert!(matches!(session.binding(), Binding::Unbound));

    let wrong = session.do_bind("cn=alice,ou=users,dc=example,dc=com", b"queen", &db);
    assert_eq!(wrong, BindOutcome::InvalidCredentials);
    assert!(matches!(session.binding(), Binding::Unbound));

    let right = session.do_bind("cn=alice,ou=users,dc=example,dc=com", b"wonderland", &db);
    assert_eq!(right, BindOutcome::Success);
    assert!(matches!(session.binding(), Binding::Bound(_)));

    assert_eq!(
        session.do_whoami(),
        Some("dn: cn=alice,ou=users,dc=example,dc=com".to_string())
    );

    session.do_unbind();
    assert!(matches!(session.binding(), Binding::Unbound));
    assert_eq!(session.do_whoami(), None);
}

#[test]
fn bind_outcomes_for_bad_input() {
    let db = alice_db();
    let mut session = Session::new(base_dn());

    assert_eq!(session.do_bind("", b"", &db), BindOutcome::Success);
    assert!(matches!(session.binding(), Binding::Anonymous));
    assert_eq!(session.do_whoami(), None);

    assert!(matches!(session.do_bind("!!not a dn", b"pw", &db), BindOutcome::InvalidDn(_)));
    assert!(matches!(session.binding(), Binding::Anonymous));

    assert_eq!(
        session.do_bind("cn=nobody,ou=users,dc=example,dc=com", b"pw", &db),
        BindOutcome::InvalidCredentials
    );
}

#[test]
fn one_level_search_returns_direct_users_only() {
    let db = alice_db();
    let session = Session::new(base_dn());
    let all = WireFilter::Present("objectClass".to_string());

    let r = session.do_search("ou=users,dc=example,dc=com", ScopeKind::OneLevel, &all, &db);
    match r {
        SearchOutcome::Success(entries) => {
            assert_eq!(entries.len(), 1);
            assert_eq!(entries[0].dn, "cn=alice,ou=users,dc=example,dc=com");
            let names: Vec<&str> =
                entries[0].attributes.iter().map(|a| a.name.as_str()).collect();
            assert_eq!(
                names,
                vec![
                    "objectClass",
                    "entryDN",
                    "cn",
                    "displayName",
                    "givenName",
                    "sn",
                    "mail",
                    "memberOf"
                ]
            );
        },
        _ => panic!("expected entries"),
    }
}

#[test]
fn subtree_search_includes_users_and_groups() {
    let db = alice_db();
    let session = Session::new(base_dn());
    let all = WireFilter::Present("objectClass".to_string());

    let r = session.do_search("dc=example,dc=com", ScopeKind::Subtree, &all, &db);
    match r {
        SearchOutcome::Success(entries) => {
            let dns: Vec<&str> = entries.iter().map(|e| e.dn.as_str()).collect();
            assert_eq!(
                dns,
                vec![
                    "cn=alice,ou=users,dc=example,dc=com",
                    "cn=admins,ou=groups,dc=example,dc=com"
                ]
            );
        },
        _ => panic!("expected entries"),
    }
}

#[test]
fn search_request_errors() {
    let db = alice_db();
    let session = Session::new(base_dn());
    let all = WireFilter::Present("objectClass".to_string());

    assert!(matches!(
        session.do_search("!!bad", ScopeKind::Subtree, &all, &db),
        SearchOutcome::InvalidDn(_)
    ));

    let substring = WireFilter::Substring("cn".to_string());
    assert!(matches!(
        session.do_search("dc=example,dc=com", ScopeKind::Subtree, &substring, &db),
        SearchOutcome::InvalidFilter(FilterError::Unsupported)
    ));

    let bad_name = WireFilter::Present("!!".to_string());
    assert!(matches!(
        session.do_search("dc=example,dc=com", ScopeKind::Subtree, &bad_name, &db),
        SearchOutcome::InvalidFilter(FilterError::BadAttributeName(_))
    ));
}

#[test]
fn filter_laws_on_concrete_entity() {
    let db = alice_db();
    let base = base_dn();
    let alice = &db.users()[0];
    let entity = alice.with_base_dn(&base);

    let and_empty = Filter::try_from(&WireFilter::And(vec![])).unwrap();
    assert!(and_empty.evaluate(&entity, &db));

    let or_empty = Filter::try_from(&WireFilter::Or(vec![])).unwrap();
    assert!(!or_empty.evaluate(&entity, &db));

    let eq_cn = WireFilter::Equality("cn".to_string(), "alice".to_string());
    let f = Filter::try_from(&eq_cn).unwrap();
    assert!(f.evaluate(&entity, &db));

    let not_not = Filter::try_from(&WireFilter::Not(Box::new(WireFilter::Not(Box::new(
        eq_cn,
    )))))
    .unwrap();
    assert!(not_not.evaluate(&entity, &db));

    // Case-sensitive value comparison.
    let eq_cn_upper =
        Filter::try_from(&WireFilter::Equality("cn".to_string(), "Alice".to_string())).unwrap();
    assert!(!eq_cn_upper.evaluate(&entity, &db));

    // Equality on an attribute absent from the entity's table is false.
    let absent =
        Filter::try_from(&WireFilter::Equality("uid".to_string(), "alice".to_string())).unwrap();
    assert!(!absent.evaluate(&entity, &db));

    // Present is about the table, folding case.
    let present =
        Filter::try_from(&WireFilter::Present("OBJECTCLASS".to_string())).unwrap();
    assert!(present.evaluate(&entity, &db));
    let not_present = Filter::try_from(&WireFilter::Present("uid".to_string())).unwrap();
    assert!(!not_present.evaluate(&entity, &db));
}

#[test]
fn scope_matching_and_containment() {
    let db = alice_db();
    let base = base_dn();
    let alice = &db.users()[0];
    let entity = alice.with_base_dn(&base);

    let base_scope =
        Scope { base: dn("cn=alice,ou=users,dc=example,dc=com").unwrap(), scope: ScopeKind::Base };
    let one_scope =
        Scope { base: dn("ou=users,dc=example,dc=com").unwrap(), scope: ScopeKind::OneLevel };
    let sub_scope = Scope { base: dn("dc=example,dc=com").unwrap(), scope: ScopeKind::Subtree };
    assert!(base_scope.matches(&entity));
    assert!(one_scope.matches(&entity));
    assert!(sub_scope.matches(&entity));

    // Whatever matches Base or OneLevel matches Subtree over the same base.
    let sub_of_base =
        Scope { base: base_scope.base, scope: ScopeKind::Subtree };
    assert!(sub_of_base.matches(&entity));
    let sub_of_one = Scope { base: one_scope.base, scope: ScopeKind::Subtree };
    assert!(sub_of_one.matches(&entity));

    let root = Scope { base: concess::dn::DN::root(), scope: ScopeKind::Base };
    assert!(root.is_root_dse());
    assert!(!sub_scope.is_root_dse());
}

#[test]
fn check_credentials_shared_decision() {
    let db = alice_db();
    assert!(db.check_credentials("alice", b"wonderland"));
    assert!(!db.check_credentials("alice", b"queen"));
    assert!(!db.check_credentials("bob", b"wonderland"));
}

#[test]
fn entry_dn_matches_computed_dn() {
    let db = alice_db();
    let base = base_dn();
    let entity = db.users()[0].with_base_dn(&base);
    assert_eq!(
        get_values(&entity, "entryDN", &db),
        Some(vec![entity.dn().to_text()])
    );
    assert_eq!(entity.base_dn().to_text(), "dc=example,dc=com");
    assert!(entity.has(&concess::dn_parser::attribute_name("mail").unwrap()));
    assert!(!entity.has(&concess::dn_parser::attribute_name("uid").unwrap()));
}
