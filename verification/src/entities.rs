//! Projection of user and group records into virtual directory entries:
//! each entity, bound to the configured base name, computes its absolute
//! name under a fixed organizational template and answers for a fixed
//! attribute table.

use vstd::prelude::*;

use crate::database::{spec_members, Database, Group, User, UserView};
use crate::dn::{name_eq, AttrView, Attribute, AttributeName, NameView, DN, RDN};
use crate::dn_text::{spec_serialize_dn, spec_serialize_name};

verus! {

// ---------------------------------------------------------------------------
// Model
// ---------------------------------------------------------------------------

/// Model of the projected entity: the record behind it.
pub enum EntityView {
    User(UserView),
    Group(Seq<char>),
}

/// Model of an entity bound to a base name.
pub struct ProjView {
    pub base: Seq<Seq<AttrView>>,
    pub entity: EntityView,
}

/// A one-attribute component `name=value` with a textual name.
pub open spec fn spec_rdn1(name: Seq<char>, value: Seq<char>) -> Seq<AttrView> {
    seq![AttrView { name: NameView::Text(name), value }]
}

/// The absolute name of a user: `cn=<name>,ou=users,<base>`.
pub open spec fn spec_user_dn(base: Seq<Seq<AttrView>>, name: Seq<char>) -> Seq<Seq<AttrView>> {
    seq![spec_rdn1("cn"@, name), spec_rdn1("ou"@, "users"@)] + base
}

/// The absolute name of a group: `cn=<name>,ou=groups,<base>`.
pub open spec fn spec_group_dn(base: Seq<Seq<AttrView>>, name: Seq<char>) -> Seq<Seq<AttrView>> {
    seq![spec_rdn1("cn"@, name), spec_rdn1("ou"@, "groups"@)] + base
}

/// The absolute name of a projected entity.
pub open spec fn spec_entity_dn(e: ProjView) -> Seq<Seq<AttrView>> {
    match e.entity {
        EntityView::User(u) => spec_user_dn(e.base, u.name),
        EntityView::Group(g) => spec_group_dn(e.base, g),
    }
}

/// The object classes of a user entry.
pub open spec fn user_object_classes() -> Seq<Seq<char>> {
    seq!["inetOrgPerson"@, "organizationalPerson"@, "person"@, "top"@]
}

/// The object classes of a group entry.
pub open spec fn group_object_classes() -> Seq<Seq<char>> {
    seq!["groupOfUniqueNames"@, "top"@]
}

/// The fixed attribute table of a user entry.
pub open spec fn user_attr_names() -> Seq<NameView> {
    seq![
        NameView::Text("objectClass"@),
        NameView::Text("entryDN"@),
        NameView::Text("cn"@),
        NameView::Text("displayName"@),
        NameView::Text("givenName"@),
        NameView::Text("sn"@),
        NameView::Text("mail"@),
        NameView::Text("memberOf"@),
    ]
}

/// The fixed attribute table of a group entry.
pub open spec fn group_attr_names() -> Seq<NameView> {
    seq![
        NameView::Text("objectClass"@),
        NameView::Text("entryDN"@),
        NameView::Text("cn"@),
        NameView::Text("uniqueMembers"@),
    ]
}

/// The attribute table of a projected entity.
pub open spec fn spec_attr_names(e: ProjView) -> Seq<NameView> {
    match e.entity {
        EntityView::User(_) => user_attr_names(),
        EntityView::Group(_) => group_attr_names(),
    }
}

/// The `memberOf` values of a user: the absolute name of each of its groups.
pub open spec fn spec_member_of(base: Seq<Seq<AttrView>>, u: UserView) -> Seq<Seq<char>> {
    u.groups.map_values(|g: Seq<char>| spec_serialize_dn(spec_group_dn(base, g)))
}

/// The `uniqueMembers` values of a group: the absolute name of each user
/// whose group set contains the group's name, in store order.
pub open spec fn spec_unique_members(
    base: Seq<Seq<AttrView>>,
    g: Seq<char>,
    db: Seq<UserView>,
) -> Seq<Seq<char>> {
    spec_members(db, g).map_values(|u: UserView| spec_serialize_dn(spec_user_dn(base, u.name)))
}

/// The values a projected entity answers for an attribute name, or nothing
/// where the attribute is not defined for its variant at all.
pub open spec fn spec_get(e: ProjView, n: NameView, db: Seq<UserView>) -> Option<Seq<Seq<char>>> {
    match e.entity {
        EntityView::User(u) => if name_eq(n, NameView::Text("objectClass"@)) {
            Some(user_object_classes())
        } else if name_eq(n, NameView::Text("entryDN"@)) {
            Some(seq![spec_serialize_dn(spec_user_dn(e.base, u.name))])
        } else if name_eq(n, NameView::Text("cn"@)) {
            Some(seq![u.name])
        } else if name_eq(n, NameView::Text("displayName"@)) {
            Some(seq![u.name])
        } else if name_eq(n, NameView::Text("givenName"@)) {
            Some(seq![u.first_name])
        } else if name_eq(n, NameView::Text("sn"@)) {
            Some(seq![u.last_name])
        } else if name_eq(n, NameView::Text("mail"@)) {
            Some(seq![u.mail])
        } else if name_eq(n, NameView::Text("memberOf"@)) {
            Some(spec_member_of(e.base, u))
        } else {
            None
        },
        EntityView::Group(g) => if name_eq(n, NameView::Text("objectClass"@)) {
            Some(group_object_classes())
        } else if name_eq(n, NameView::Text("entryDN"@)) {
            Some(seq![spec_serialize_dn(spec_group_dn(e.base, g))])
        } else if name_eq(n, NameView::Text("cn"@)) {
            Some(seq![g])
        } else if name_eq(n, NameView::Text("uniqueMembers"@)) {
            Some(spec_unique_members(e.base, g, db))
        } else {
            None
        },
    }
}

/// Whether the entity defines an accessor for the attribute name: membership
/// in its fixed table, names compared with case folding.
pub open spec fn spec_has(e: ProjView, n: NameView) -> bool {
    match e.entity {
        EntityView::User(_) => name_eq(n, NameView::Text("objectClass"@)) || name_eq(
            n,
            NameView::Text("entryDN"@),
        ) || name_eq(n, NameView::Text("cn"@)) || name_eq(n, NameView::Text("displayName"@))
            || name_eq(n, NameView::Text("givenName"@)) || name_eq(n, NameView::Text("sn"@))
            || name_eq(n, NameView::Text("mail"@)) || name_eq(n, NameView::Text("memberOf"@)),
        EntityView::Group(_) => name_eq(n, NameView::Text("objectClass"@)) || name_eq(
            n,
            NameView::Text("entryDN"@),
        ) || name_eq(n, NameView::Text("cn"@)) || name_eq(n, NameView::Text("uniqueMembers"@)),
    }
}

/// The attribute is present exactly when `spec_get` answers, whatever the
/// store holds.
pub proof fn lemma_present_iff_get(e: ProjView, n: NameView, db: Seq<UserView>)
    ensures
        spec_has(e, n) <==> spec_get(e, n, db) is Some,
{
}

// ---------------------------------------------------------------------------
// The executable projection
// ---------------------------------------------------------------------------

/// A record to project: a user or a derived group.
pub enum Entity<'a> {
    User(&'a User),
    Group(&'a Group),
}

/// An entity bound to the configured base name.
pub struct WithBaseDN<'a> {
    pub base_dn: &'a DN,
    pub entity: Entity<'a>,
}

impl<'a> View for WithBaseDN<'a> {
    type V = ProjView;

    open spec fn view(&self) -> ProjView {
        ProjView {
            base: self.base_dn@,
            entity: match self.entity {
                Entity::User(u) => EntityView::User(u@),
                Entity::Group(g) => EntityView::Group(g@),
            },
        }
    }
}

impl User {
    /// Bind this user to a base name.
    pub fn with_base_dn<'a>(&'a self, base_dn: &'a DN) -> (r: WithBaseDN<'a>)
        ensures
            r@ == (ProjView { base: base_dn@, entity: EntityView::User(self@) }),
    {
        WithBaseDN { base_dn, entity: Entity::User(self) }
    }
}

impl Group {
    /// Bind this group to a base name.
    pub fn with_base_dn<'a>(&'a self, base_dn: &'a DN) -> (r: WithBaseDN<'a>)
        ensures
            r@ == (ProjView { base: base_dn@, entity: EntityView::Group(self@) }),
    {
        WithBaseDN { base_dn, entity: Entity::Group(self) }
    }
}

/// A one-component name `name=value`.
fn pair_dn(name: &str, value: String) -> (r: DN)
    ensures
        r@ == seq![spec_rdn1(name@, value@)],
{
    let ghost vv = value@;
    let attr = Attribute::new(AttributeName::text(name.to_owned()), value);
    let mut attrs: Vec<Attribute> = Vec::new();
    attrs.push(attr);
    let rdn = RDN::new(attrs);
    proof {
        assert(rdn@ =~= spec_rdn1(name@, vv));
    }
    let mut components: Vec<RDN> = Vec::new();
    components.push(rdn);
    let d = DN::new(components);
    proof {
        assert(d@ =~= seq![spec_rdn1(name@, vv)]);
    }
    d
}

/// The absolute name of a user under a base.
pub(crate) fn user_dn(base: &DN, name: &String) -> (r: DN)
    ensures
        r@ == spec_user_dn(base@, name@),
{
    let step = base.join(&pair_dn("ou", "users".to_owned()));
    let full = step.join(&pair_dn("cn", name.clone()));
    proof {
        assert(full@ =~= spec_user_dn(base@, name@));
    }
    full
}

/// The absolute name of a group under a base.
pub(crate) fn group_dn(base: &DN, name: &String) -> (r: DN)
    ensures
        r@ == spec_group_dn(base@, name@),
{
    let step = base.join(&pair_dn("ou", "groups".to_owned()));
    let full = step.join(&pair_dn("cn", name.clone()));
    proof {
        assert(full@ =~= spec_group_dn(base@, name@));
    }
    full
}

/// Does the attribute name equal this textual name, folding case?
fn name_is(attribute: &AttributeName, lit: &str) -> (r: bool)
    ensures
        r == name_eq(attribute@, NameView::Text(lit@)),
{
    match attribute {
        AttributeName::Text(s) => crate::dn::text_eq_fold(s.as_str(), lit),
        AttributeName::Oid(_) => false,
    }
}

fn single_value(s: String) -> (r: Vec<String>)
    ensures
        r@.map_values(|x: String| x@) == seq![s@],
{
    let ghost sv = s@;
    let mut r: Vec<String> = Vec::new();
    r.push(s);
    proof {
        let m = r@.map_values(|x: String| x@);
        assert(m[0] == r@[0]@);
        assert(m =~= seq![sv]);
    }
    r
}

impl<'a> WithBaseDN<'a> {
    /// The base name this entity is bound to.
    pub fn base_dn(&self) -> (r: &'a DN)
        ensures
            r@ == self@.base,
    {
        self.base_dn
    }

    /// The absolute name of this entity under the base.
    pub fn dn(&self) -> (r: DN)
        ensures
            r@ == spec_entity_dn(self@),
    {
        match &self.entity {
            Entity::User(u) => user_dn(self.base_dn, &u.name),
            Entity::Group(g) => group_dn(self.base_dn, &g.name),
        }
    }

    /// The fixed object class list of this entity's variant.
    pub fn object_classes(&self) -> (r: Vec<String>)
        ensures
            r@.map_values(|s: String| s@) == match self@.entity {
                EntityView::User(_) => user_object_classes(),
                EntityView::Group(_) => group_object_classes(),
            },
    {
        let mut r: Vec<String> = Vec::new();
        match &self.entity {
            Entity::User(_) => {
                r.push("inetOrgPerson".to_owned());
                r.push("organizationalPerson".to_owned());
                r.push("person".to_owned());
                r.push("top".to_owned());
                proof {
                    let m = r@.map_values(|s: String| s@);
                    assert(m[0] == r@[0]@);
                    assert(m[1] == r@[1]@);
                    assert(m[2] == r@[2]@);
                    assert(m[3] == r@[3]@);
                    assert(m =~= user_object_classes());
                }
            },
            Entity::Group(_) => {
                r.push("groupOfUniqueNames".to_owned());
                r.push("top".to_owned());
                proof {
                    let m = r@.map_values(|s: String| s@);
                    assert(m[0] == r@[0]@);
                    assert(m[1] == r@[1]@);
                    assert(m =~= group_object_classes());
                }
            },
        }
        r
    }

    /// The fixed attribute table of this entity's variant, in answer order.
    pub fn attribute_names(&self) -> (r: Vec<AttributeName>)
        ensures
            r@.map_values(|n: AttributeName| n@) == spec_attr_names(self@),
    {
        let mut r: Vec<AttributeName> = Vec::new();
        match &self.entity {
            Entity::User(_) => {
                r.push(AttributeName::text("objectClass".to_owned()));
                r.push(AttributeName::text("entryDN".to_owned()));
                r.push(AttributeName::text("cn".to_owned()));
                r.push(AttributeName::text("displayName".to_owned()));
                r.push(AttributeName::text("givenName".to_owned()));
                r.push(AttributeName::text("sn".to_owned()));
                r.push(AttributeName::text("mail".to_owned()));
                r.push(AttributeName::text("memberOf".to_owned()));
                proof {
                    let m = r@.map_values(|n: AttributeName| n@);
                    assert(m[0] == r@[0]@);
                    assert(m[1] == r@[1]@);
                    assert(m[2] == r@[2]@);
                    assert(m[3] == r@[3]@);
                    assert(m[4] == r@[4]@);
                    assert(m[5] == r@[5]@);
                    assert(m[6] == r@[6]@);
                    assert(m[7] == r@[7]@);
                    assert(m =~= user_attr_names());
                }
            },
            Entity::Group(_) => {
                r.push(AttributeName::text("objectClass".to_owned()));
                r.push(AttributeName::text("entryDN".to_owned()));
                r.push(AttributeName::text("cn".to_owned()));
                r.push(AttributeName::text("uniqueMembers".to_owned()));
                proof {
                    let m = r@.map_values(|n: AttributeName| n@);
                    assert(m[0] == r@[0]@);
                    assert(m[1] == r@[1]@);
                    assert(m[2] == r@[2]@);
                    assert(m[3] == r@[3]@);
                    assert(m =~= group_attr_names());
                }
            },
        }
        r
    }

    /// The values this entity answers for the attribute name: nothing where
    /// the variant does not define the attribute at all, the fixed or
    /// computed value list where it does.
    pub fn get(&self, attribute: &AttributeName, db: &Database) -> (r: Option<Vec<String>>)
        ensures
            match r {
                Some(v) => spec_get(self@, attribute@, db@) == Some(
                    v@.map_values(|s: String| s@),
                ),
                None => spec_get(self@, attribute@, db@) is None,
            },
    {
        match &self.entity {
            Entity::User(u) => {
                if name_is(attribute, "objectClass") {
                    Some(self.object_classes())
                } else if name_is(attribute, "entryDN") {
                    Some(single_value(self.dn().to_text()))
                } else if name_is(attribute, "cn") {
                    Some(single_value(u.name.clone()))
                } else if name_is(attribute, "displayName") {
                    Some(single_value(u.name.clone()))
                } else if name_is(attribute, "givenName") {
                    Some(single_value(u.first_name.clone()))
                } else if name_is(attribute, "sn") {
                    Some(single_value(u.last_name.clone()))
                } else if name_is(attribute, "mail") {
                    Some(single_value(u.mail.clone()))
                } else if name_is(attribute, "memberOf") {
                    let mut vals: Vec<String> = Vec::new();
                    let mut i: usize = 0;
                    while i < u.groups.len()
                        invariant
                            i <= u.groups@.len(),
                            vals@.len() == i,
                            forall|t: int|
                                0 <= t < i ==> #[trigger] vals@[t]@ == spec_serialize_dn(
                                    spec_group_dn(self@.base, u@.groups[t]),
                                ),
                        decreases u.groups@.len() - i,
                    {
                        let d = group_dn(self.base_dn, &u.groups[i]);
                        vals.push(d.to_text());
                        proof {
                            assert(u@.groups[i as int] == u.groups@[i as int]@);
                        }
                        i += 1;
                    }
                    proof {
                        let m = vals@.map_values(|s: String| s@);
                        assert forall|t: int| 0 <= t < m.len() implies #[trigger] m[t]
                            == spec_member_of(self@.base, u@)[t] by {
                            assert(m[t] == vals@[t]@);
                            assert(spec_member_of(self@.base, u@)[t] == spec_serialize_dn(
                                spec_group_dn(self@.base, u@.groups[t]),
                            ));
                        }
                        assert(m =~= spec_member_of(self@.base, u@));
                    }
                    Some(vals)
                } else {
                    None
                }
            },
            Entity::Group(g) => {
                if name_is(attribute, "objectClass") {
                    Some(self.object_classes())
                } else if name_is(attribute, "entryDN") {
                    Some(single_value(self.dn().to_text()))
                } else if name_is(attribute, "cn") {
                    Some(single_value(g.name.clone()))
                } else if name_is(attribute, "uniqueMembers") {
                    let members = g.members(db);
                    let mut vals: Vec<String> = Vec::new();
                    let mut i: usize = 0;
                    while i < members.len()
                        invariant
                            i <= members@.len(),
                            members@.map_values(|u: User| u@) == spec_members(db@, g@),
                            vals@.len() == i,
                            forall|t: int|
                                0 <= t < i ==> #[trigger] vals@[t]@ == spec_serialize_dn(
                                    spec_user_dn(self@.base, spec_members(db@, g@)[t].name),
                                ),
                        decreases members@.len() - i,
                    {
                        let d = user_dn(self.base_dn, &members[i].name);
                        vals.push(d.to_text());
                        proof {
                            assert(spec_members(db@, g@)[i as int] == members@.map_values(
                                |u: User| u@,
                            )[i as int]);
                            assert(members@.map_values(|u: User| u@)[i as int]
                                == members@[i as int]@);
                        }
                        i += 1;
                    }
                    proof {
                        let m = vals@.map_values(|s: String| s@);
                        assert(members@.map_values(|u: User| u@).len() == members@.len());
                        assert forall|t: int| 0 <= t < m.len() implies #[trigger] m[t]
                            == spec_unique_members(self@.base, g@, db@)[t] by {
                            assert(m[t] == vals@[t]@);
                            assert(spec_unique_members(self@.base, g@, db@)[t]
                                == spec_serialize_dn(
                                spec_user_dn(self@.base, spec_members(db@, g@)[t].name),
                            ));
                        }
                        assert(m =~= spec_unique_members(self@.base, g@, db@));
                    }
                    Some(vals)
                } else {
                    None
                }
            },
        }
    }

    /// Whether this entity defines the attribute, present even when the
    /// value list is empty.
    pub fn has(&self, attribute: &AttributeName) -> (r: bool)
        ensures
            r == spec_has(self@, attribute@),
    {
        match &self.entity {
            Entity::User(_) => name_is(attribute, "objectClass") || name_is(attribute, "entryDN")
                || name_is(attribute, "cn") || name_is(attribute, "displayName") || name_is(
                attribute,
                "givenName",
            ) || name_is(attribute, "sn") || name_is(attribute, "mail") || name_is(
                attribute,
                "memberOf",
            ),
            Entity::Group(_) => name_is(attribute, "objectClass") || name_is(attribute, "entryDN")
                || name_is(attribute, "cn") || name_is(attribute, "uniqueMembers"),
        }
    }
}

} // verus!
