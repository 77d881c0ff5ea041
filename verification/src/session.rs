//! The per-connection protocol state machine: bind, search, unbind and
//! whoami, over the shared read-only store.

use vstd::prelude::*;
use vstd::string::StringExecFns;

use crate::database::{
    burn_password_check, password_matches, spec_group_names, Database, UserView,
};
use crate::dn::{dn_eq, AttrView, NameView, DN};
use crate::dn_parser::{spec_parse_dn, ParseError};
use crate::dn_text::{spec_serialize_dn, spec_serialize_name};
use crate::entities::{
    spec_attr_names, spec_entity_dn, spec_get, spec_user_dn, EntityView, ProjView, WithBaseDN,
};
use crate::filter::{
    spec_scope_matches, spec_wire_eval, wire_ok, Filter, FilterError, Scope, ScopeKind, WireFilter,
};

verus! {

// ---------------------------------------------------------------------------
// Binding state
// ---------------------------------------------------------------------------

/// Model of the binding state.
pub enum BindingView {
    Unbound,
    Bound(Seq<Seq<AttrView>>),
    Anonymous,
}

/// The identity a connection has established.
pub enum Binding {
    /// No bind has happened, or the last one was undone.
    Unbound,
    /// A successful bind as the user with this name.
    Bound(DN),
    /// A bind with an empty identity.
    Anonymous,
}

impl View for Binding {
    type V = BindingView;

    open spec fn view(&self) -> BindingView {
        match self {
            Binding::Unbound => BindingView::Unbound,
            Binding::Bound(d) => BindingView::Bound(d@),
            Binding::Anonymous => BindingView::Anonymous,
        }
    }
}

/// How a bind request was answered.
#[derive(Debug, Clone, Copy, PartialEq, Eq, Structural)]
pub enum BindOutcome {
    /// The bind succeeded and the state changed.
    Success,
    /// No user carries this name, or the password does not match; the state
    /// is unchanged.
    InvalidCredentials,
    /// The identity does not parse as a name; the state is unchanged.
    InvalidDn(ParseError),
}

/// The first user whose computed name under `base` equals `target`.
pub open spec fn spec_find_bound(
    users: Seq<UserView>,
    base: Seq<Seq<AttrView>>,
    target: Seq<Seq<AttrView>>,
) -> Option<UserView>
    decreases users.len(),
{
    if users.len() == 0 {
        None
    } else if dn_eq(spec_user_dn(base, users[0].name), target) {
        Some(users[0])
    } else {
        spec_find_bound(users.drop_first(), base, target)
    }
}

// ---------------------------------------------------------------------------
// Search results
// ---------------------------------------------------------------------------

/// Model of one result entry.
pub struct EntryView {
    pub dn: Seq<char>,
    pub attrs: Seq<(Seq<char>, Seq<Seq<char>>)>,
}

/// One attribute of a result entry: its name text and its values. The name
/// is always present, even when the value list is empty.
pub struct SearchAttribute {
    pub name: String,
    pub values: Vec<String>,
}

impl View for SearchAttribute {
    type V = (Seq<char>, Seq<Seq<char>>);

    open spec fn view(&self) -> (Seq<char>, Seq<Seq<char>>) {
        (self.name@, self.values@.map_values(|s: String| s@))
    }
}

/// One result entry: the entry's name text and its full attribute table.
pub struct SearchEntry {
    pub dn: String,
    pub attributes: Vec<SearchAttribute>,
}

impl View for SearchEntry {
    type V = EntryView;

    open spec fn view(&self) -> EntryView {
        EntryView {
            dn: self.dn@,
            attrs: self.attributes@.map_values(|a: SearchAttribute| a@),
        }
    }
}

/// The result entry of a projected entity: its name, and every attribute of
/// its fixed table with the values its accessor yields.
pub open spec fn spec_entry(e: ProjView, db: Seq<UserView>) -> EntryView {
    EntryView {
        dn: spec_serialize_dn(spec_entity_dn(e)),
        attrs: spec_attr_names(e).map_values(
            |n: NameView|
                (
                    spec_serialize_name(n),
                    match spec_get(e, n, db) {
                        Some(v) => v,
                        None => Seq::empty(),
                    },
                ),
        ),
    }
}

/// The result entries of the user records in `users`, in store order,
/// keeping those inside the scope that satisfy the filter.
pub open spec fn spec_user_entries(
    users: Seq<UserView>,
    base: Seq<Seq<AttrView>>,
    kind: ScopeKind,
    sbase: Seq<Seq<AttrView>>,
    w: WireFilter,
    db: Seq<UserView>,
) -> Seq<EntryView>
    decreases users.len(),
{
    if users.len() == 0 {
        Seq::empty()
    } else {
        let rest = spec_user_entries(users.drop_last(), base, kind, sbase, w, db);
        let e = ProjView { base, entity: EntityView::User(users.last()) };
        if spec_scope_matches(kind, sbase, spec_entity_dn(e)) && spec_wire_eval(w, e, db) {
            rest.push(spec_entry(e, db))
        } else {
            rest
        }
    }
}

/// The result entries of the derived groups named in `gnames`, in first
/// occurrence order, keeping those inside the scope that satisfy the filter.
pub open spec fn spec_group_entries(
    gnames: Seq<Seq<char>>,
    base: Seq<Seq<AttrView>>,
    kind: ScopeKind,
    sbase: Seq<Seq<AttrView>>,
    w: WireFilter,
    db: Seq<UserView>,
) -> Seq<EntryView>
    decreases gnames.len(),
{
    if gnames.len() == 0 {
        Seq::empty()
    } else {
        let rest = spec_group_entries(gnames.drop_last(), base, kind, sbase, w, db);
        let e = ProjView { base, entity: EntityView::Group(gnames.last()) };
        if spec_scope_matches(kind, sbase, spec_entity_dn(e)) && spec_wire_eval(w, e, db) {
            rest.push(spec_entry(e, db))
        } else {
            rest
        }
    }
}

/// Every result entry of a search: the matching users, then the matching
/// groups, in store order.
pub open spec fn spec_search_results(
    db: Seq<UserView>,
    base: Seq<Seq<AttrView>>,
    kind: ScopeKind,
    sbase: Seq<Seq<AttrView>>,
    w: WireFilter,
) -> Seq<EntryView> {
    spec_user_entries(db, base, kind, sbase, w, db) + spec_group_entries(
        spec_group_names(db),
        base,
        kind,
        sbase,
        w,
        db,
    )
}

/// How a search request was answered.
pub enum SearchOutcome {
    /// The entries, followed on the wire by one terminal success marker.
    Success(Vec<SearchEntry>),
    /// The base does not parse as a name.
    InvalidDn(ParseError),
    /// The filter tree holds an unsupported node or a bad attribute name.
    InvalidFilter(FilterError),
}

/// Build the result entry of one projected entity.
fn result_entry(entity: &WithBaseDN, db: &Database) -> (r: SearchEntry)
    ensures
        r@ == spec_entry(entity@, db@),
{
    let dn_text = entity.dn().to_text();
    let names = entity.attribute_names();
    let ghost table = spec_attr_names(entity@);
    let mut attributes: Vec<SearchAttribute> = Vec::new();
    let mut i: usize = 0;
    while i < names.len()
        invariant
            i <= names@.len(),
            names@.map_values(|n: crate::dn::AttributeName| n@) == table,
            table == spec_attr_names(entity@),
            attributes@.len() == i,
            forall|t: int|
                0 <= t < i ==> #[trigger] attributes@[t]@ == (
                    spec_serialize_name(table[t]),
                    match spec_get(entity@, table[t], db@) {
                        Some(v) => v,
                        None => Seq::empty(),
                    },
                ),
        decreases names@.len() - i,
    {
        let name_text = names[i].to_text();
        let values = match entity.get(&names[i], db) {
            Some(v) => v,
            None => Vec::new(),
        };
        proof {
            assert(names@.map_values(|n: crate::dn::AttributeName| n@)[i as int] == names@[
                i as int
            ]@);
        }
        attributes.push(SearchAttribute { name: name_text, values });
        proof {
            if spec_get(entity@, table[i as int], db@) is None {
                assert(attributes@.last()@.1 =~= Seq::<Seq<char>>::empty());
            }
        }
        i += 1;
    }
    let r = SearchEntry { dn: dn_text, attributes };
    proof {
        let m = attributes@.map_values(|a: SearchAttribute| a@);
        let expect = spec_entry(entity@, db@).attrs;
        assert(expect.len() == table.len());
        assert forall|t: int| 0 <= t < m.len() implies #[trigger] m[t] == expect[t] by {
            assert(m[t] == attributes@[t]@);
            assert(expect[t] == (
                spec_serialize_name(table[t]),
                match spec_get(entity@, table[t], db@) {
                    Some(v) => v,
                    None => Seq::empty(),
                },
            ));
        }
        assert(m =~= expect);
        assert(r@.attrs == expect);
    }
    r
}

// ---------------------------------------------------------------------------
// The session
// ---------------------------------------------------------------------------

/// One connection's state: the configured base name and the binding.
pub struct Session {
    pub base_dn: DN,
    pub binding: Binding,
}

impl Session {
    /// A fresh session over the configured base name, not yet bound.
    pub fn new(base_dn: DN) -> (r: Session)
        ensures
            r.base_dn@ == base_dn@,
            r.binding@ is Unbound,
    {
        Session { base_dn, binding: Binding::Unbound }
    }

    /// The current binding state.
    pub fn binding(&self) -> (r: &Binding)
        ensures
            r@ == self.binding@,
    {
        &self.binding
    }

    /// Answer a bind request. An empty identity binds anonymously; an
    /// unparsable identity is a request-level error; otherwise the first
    /// user whose computed name equals the identity is checked against the
    /// password, and the Argon2 comparison runs even when no user matches.
    #[verifier::loop_isolation(false)]
    pub fn do_bind(&mut self, identity: &str, password: &[u8], db: &Database) -> (r: BindOutcome)
        ensures
            final(self).base_dn == old(self).base_dn,
            identity@.len() == 0 ==> r == BindOutcome::Success && final(self).binding@
                is Anonymous,
            identity@.len() > 0 && spec_parse_dn(identity@) is None ==> r is InvalidDn
                && final(self).binding == old(self).binding,
            identity@.len() > 0 ==> (spec_parse_dn(identity@) matches Some(d) ==> {
                match spec_find_bound(db@, old(self).base_dn@, d) {
                    Some(u) => {
                        &&& password_matches(u.password, password@) ==> r == BindOutcome::Success
                            && final(self).binding@ == BindingView::Bound(d)
                        &&& !password_matches(u.password, password@) ==> r
                            == BindOutcome::InvalidCredentials
                            && final(self).binding == old(self).binding
                    },
                    None => r == BindOutcome::InvalidCredentials
                        && final(self).binding == old(self).binding,
                }
            }),
    {
        if identity.unicode_len() == 0 {
            self.binding = Binding::Anonymous;
            return BindOutcome::Success;
        }
        let parsed = crate::dn_parser::dn(identity);
        match parsed {
            Err(e) => BindOutcome::InvalidDn(e),
            Ok(target) => {
                proof {
                    assert(db@.subrange(0, db@.len() as int) =~= db@);
                }
                let mut i: usize = 0;
                while i < db.users.len()
                    invariant
                        i <= db.users@.len(),
                        db@.len() == db.users@.len(),
                        *self == *old(self),
                        spec_find_bound(db@, self.base_dn@, target@) == spec_find_bound(
                            db@.subrange(i as int, db@.len() as int),
                            self.base_dn@,
                            target@,
                        ),
                    decreases db.users@.len() - i,
                {
                    proof {
                        assert(db@[i as int] == db.users@[i as int]@);
                        assert(db@.subrange(i as int, db@.len() as int)[0] == db@[i as int]);
                    }
                    let ud = crate::entities::user_dn(&self.base_dn, &db.users[i].name);
                    if ud == target {
                        if db.users[i].verify_password(password) {
                            self.binding = Binding::Bound(target);
                            return BindOutcome::Success;
                        } else {
                            return BindOutcome::InvalidCredentials;
                        }
                    }
                    proof {
                        assert(db@.subrange(i as int, db@.len() as int).drop_first()
                            =~= db@.subrange(i + 1, db@.len() as int));
                    }
                    i += 1;
                }
                proof {
                    assert(db@.subrange(db@.len() as int, db@.len() as int).len() == 0);
                }
                burn_password_check(password);
                BindOutcome::InvalidCredentials
            },
        }
    }

    /// Undo any binding; the protocol mandates no response message.
    pub fn do_unbind(&mut self)
        ensures
            final(self).base_dn == old(self).base_dn,
            final(self).binding@ is Unbound,
    {
        self.binding = Binding::Unbound;
    }

    /// The identity claim of the connection: the bound name's text, or
    /// nothing when unbound or anonymous.
    pub fn do_whoami(&self) -> (r: Option<String>)
        ensures
            match self.binding@ {
                BindingView::Bound(d) => r matches Some(s) && s@ == "dn: "@ + spec_serialize_dn(d),
                _ => r is None,
            },
    {
        match &self.binding {
            Binding::Bound(d) => {
                let t = d.to_text();
                Some(String::from_str("dn: ").concat(t.as_str()))
            },
            Binding::Unbound => None,
            Binding::Anonymous => None,
        }
    }

    /// Answer a search request: parse the base, compile the filter, then
    /// keep every projected user and group entity that the scope and the
    /// filter both accept, users first. A failure at either construction
    /// step answers only this request.
    #[verifier::loop_isolation(false)]
    pub fn do_search(
        &self,
        base: &str,
        scope_kind: ScopeKind,
        filter: &WireFilter,
        db: &Database,
    ) -> (r: SearchOutcome)
        ensures
            r is InvalidDn <==> spec_parse_dn(base@) is None,
            spec_parse_dn(base@) is Some ==> (r is InvalidFilter <==> !wire_ok(*filter)),
            spec_parse_dn(base@) matches Some(sb) ==> wire_ok(*filter) ==> (r matches
                SearchOutcome::Success(entries) && entries@.map_values(|e: SearchEntry| e@)
                == spec_search_results(db@, self.base_dn@, scope_kind, sb, *filter)),
    {
        let parsed = crate::dn_parser::dn(base);
        let scope_base = match parsed {
            Err(e) => {
                return SearchOutcome::InvalidDn(e);
            },
            Ok(d) => d,
        };
        let ghost sb = scope_base@;
        let compiled = match Filter::try_from(filter) {
            Err(e) => {
                return SearchOutcome::InvalidFilter(e);
            },
            Ok(f) => f,
        };
        let scope = Scope { base: scope_base, scope: scope_kind };
        let mut entries: Vec<SearchEntry> = Vec::new();
        let ghost uentries = spec_user_entries(db@, self.base_dn@, scope_kind, sb, *filter, db@);
        let mut i: usize = 0;
        while i < db.users.len()
            invariant
                i <= db.users@.len(),
                entries@.len() == spec_user_entries(
                    db@.take(i as int),
                    self.base_dn@,
                    scope_kind,
                    sb,
                    *filter,
                    db@,
                ).len(),
                forall|t: int|
                    0 <= t < entries@.len() ==> #[trigger] entries@[t]@ == spec_user_entries(
                        db@.take(i as int),
                        self.base_dn@,
                        scope_kind,
                        sb,
                        *filter,
                        db@,
                    )[t],
            decreases db.users@.len() - i,
        {
            let entity = db.users[i].with_base_dn(&self.base_dn);
            proof {
                assert(db@[i as int] == db.users@[i as int]@);
                assert(db@.take(i + 1).drop_last() =~= db@.take(i as int));
                assert(db@.take(i + 1).last() == db@[i as int]);
                crate::filter::lemma_wire_to_eval(*filter, compiled, entity@, db@);
            }
            if scope.matches(&entity) && compiled.evaluate(&entity, db) {
                entries.push(result_entry(&entity, db));
            }
            i += 1;
        }
        proof {
            assert(db@.take(db@.len() as int) =~= db@);
        }
        let groups = db.groups();
        let ghost gnames = spec_group_names(db@);
        let mut j: usize = 0;
        while j < groups.len()
            invariant
                j <= groups@.len(),
                groups@.map_values(|g: crate::database::Group| g@) == gnames,
                gnames == spec_group_names(db@),
                entries@.len() == uentries.len() + spec_group_entries(
                    gnames.take(j as int),
                    self.base_dn@,
                    scope_kind,
                    sb,
                    *filter,
                    db@,
                ).len(),
                forall|t: int|
                    0 <= t < entries@.len() ==> #[trigger] entries@[t]@ == (uentries
                        + spec_group_entries(
                        gnames.take(j as int),
                        self.base_dn@,
                        scope_kind,
                        sb,
                        *filter,
                        db@,
                    ))[t],
            decreases groups@.len() - j,
        {
            let entity = groups[j].with_base_dn(&self.base_dn);
            proof {
                assert(groups@.map_values(|g: crate::database::Group| g@)[j as int] == groups@[
                    j as int
                ]@);
                assert(gnames.take(j + 1).drop_last() =~= gnames.take(j as int));
                assert(gnames.take(j + 1).last() == gnames[j as int]);
                crate::filter::lemma_wire_to_eval(*filter, compiled, entity@, db@);
            }
            if scope.matches(&entity) && compiled.evaluate(&entity, db) {
                entries.push(result_entry(&entity, db));
            }
            j += 1;
        }
        proof {
            assert(gnames.take(gnames.len() as int) =~= gnames);
            let m = entries@.map_values(|e: SearchEntry| e@);
            let expect = spec_search_results(db@, self.base_dn@, scope_kind, sb, *filter);
            assert forall|t: int| 0 <= t < m.len() implies #[trigger] m[t] == expect[t] by {
                assert(m[t] == entries@[t]@);
            }
            assert(m =~= expect);
        }
        SearchOutcome::Success(entries)
    }
}

} // verus!
