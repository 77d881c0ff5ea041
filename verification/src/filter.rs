//! The search predicate tree and its evaluator, the construction of a
//! predicate from the wire-level filter tree, and the scope matcher.

use vstd::prelude::*;

use crate::database::{Database, UserView};
use crate::dn::{dn_eq, spec_descendant, spec_parent, AttrView, AttributeName, DN};
use crate::dn_parser::{spec_parse_name_full, ParseError};
use crate::entities::{spec_entity_dn, spec_get, spec_has, ProjView, WithBaseDN};

verus! {

// ---------------------------------------------------------------------------
// Filters
// ---------------------------------------------------------------------------

/// A search predicate over a projected entity.
pub enum Filter {
    /// All children hold; vacuously true of no children.
    And(Vec<Filter>),
    /// At least one child holds; vacuously false of no children.
    Or(Vec<Filter>),
    /// The child does not hold.
    Not(Box<Filter>),
    /// The entity answers for the attribute with at least one value exactly
    /// equal to the expected one.
    Equality(AttributeName, String),
    /// The entity defines the attribute at all.
    Present(AttributeName),
}

/// What a predicate means of an entity, against a store.
pub open spec fn spec_eval(f: Filter, e: ProjView, db: Seq<UserView>) -> bool
    decreases f,
{
    match f {
        Filter::And(fs) => forall|i: int| 0 <= i < fs@.len() ==> spec_eval(#[trigger] fs@[i], e, db),
        Filter::Or(fs) => exists|i: int| 0 <= i < fs@.len() && spec_eval(#[trigger] fs@[i], e, db),
        Filter::Not(g) => !spec_eval(*g, e, db),
        Filter::Equality(name, expected) => match spec_get(e, name@, db) {
            Some(vals) => vals.contains(expected@),
            None => false,
        },
        Filter::Present(name) => spec_has(e, name@),
    }
}

impl Filter {
    /// Evaluate this predicate against a projected entity.
    #[verifier::loop_isolation(false)]
    pub fn evaluate(&self, entity: &WithBaseDN, db: &Database) -> (r: bool)
        ensures
            r == spec_eval(*self, entity@, db@),
        decreases *self,
    {
        match self {
            Filter::And(fs) => {
                let mut i: usize = 0;
                while i < fs.len()
                    invariant
                        i <= fs@.len(),
                        forall|j: int| 0 <= j < i ==> spec_eval(#[trigger] fs@[j], entity@, db@),
                    decreases fs@.len() - i,
                {
                    proof {
                        assert(decreases_to!(*self => self->And_0));
                        assert(self->And_0 == *fs);
                        assert(decreases_to!(*fs => fs@));
                        assert(decreases_to!(fs@ => fs@[i as int]));
                    }
                    if !fs[i].evaluate(entity, db) {
                        proof {
                            assert(!spec_eval(fs@[i as int], entity@, db@));
                            assert(!(forall|j: int|
                                0 <= j < fs@.len() ==> spec_eval(#[trigger] fs@[j], entity@, db@)));
                        }
                        return false;
                    }
                    i += 1;
                }
                true
            },
            Filter::Or(fs) => {
                let mut i: usize = 0;
                while i < fs.len()
                    invariant
                        i <= fs@.len(),
                        forall|j: int| 0 <= j < i ==> !spec_eval(#[trigger] fs@[j], entity@, db@),
                    decreases fs@.len() - i,
                {
                    proof {
                        assert(decreases_to!(*self => self->Or_0));
                        assert(self->Or_0 == *fs);
                        assert(decreases_to!(*fs => fs@));
                        assert(decreases_to!(fs@ => fs@[i as int]));
                    }
                    if fs[i].evaluate(entity, db) {
                        proof {
                            assert(spec_eval(fs@[i as int], entity@, db@));
                        }
                        return true;
                    }
                    i += 1;
                }
                false
            },
            Filter::Not(g) => !g.evaluate(entity, db),
            Filter::Equality(name, expected) => {
                match entity.get(name, db) {
                    Some(vals) => {
                        let mut i: usize = 0;
                        let ghost vv = vals@.map_values(|s: String| s@);
                        while i < vals.len()
                            invariant
                                i <= vals@.len(),
                                vv == vals@.map_values(|s: String| s@),
                                forall|j: int| 0 <= j < i ==> #[trigger] vals@[j]@ != expected@,
                            decreases vals@.len() - i,
                        {
                            if crate::database::str_eq(vals[i].as_str(), expected.as_str()) {
                                proof {
                                    assert(vv[i as int] == vals@[i as int]@);
                                    assert(vv.contains(expected@));
                                }
                                return true;
                            }
                            i += 1;
                        }
                        proof {
                            assert forall|j: int| 0 <= j < vv.len() implies vv[j] != expected@ by {
                                assert(vv[j] == vals@[j]@);
                            }
                            assert(!vv.contains(expected@));
                        }
                        false
                    },
                    None => false,
                }
            },
            Filter::Present(name) => entity.has(name),
        }
    }
}

// ---------------------------------------------------------------------------
// Construction from the wire filter
// ---------------------------------------------------------------------------

/// The filter tree as it arrives on the wire, attribute names still text.
pub enum WireFilter {
    And(Vec<WireFilter>),
    Or(Vec<WireFilter>),
    Not(Box<WireFilter>),
    /// Attribute name and the expected value.
    Equality(String, String),
    /// A substring match, unsupported here; only the attribute name is kept.
    Substring(String),
    Present(String),
}

/// Why a wire filter was rejected.
#[derive(Debug, Clone, Copy, PartialEq, Eq, Structural)]
pub enum FilterError {
    /// The node kind is not supported.
    Unsupported,
    /// An attribute name does not parse.
    BadAttributeName(ParseError),
}

/// Whether a wire filter can be compiled: no unsupported node anywhere, and
/// every attribute name parses.
pub open spec fn wire_ok(w: WireFilter) -> bool
    decreases w,
{
    match w {
        WireFilter::And(ws) => forall|i: int| 0 <= i < ws@.len() ==> wire_ok(#[trigger] ws@[i]),
        WireFilter::Or(ws) => forall|i: int| 0 <= i < ws@.len() ==> wire_ok(#[trigger] ws@[i]),
        WireFilter::Not(x) => wire_ok(*x),
        WireFilter::Equality(a, _) => spec_parse_name_full(a@) is Some,
        WireFilter::Substring(_) => false,
        WireFilter::Present(a) => spec_parse_name_full(a@) is Some,
    }
}

/// The structural relation between a wire filter and its compiled form.
pub open spec fn wire_to(w: WireFilter, f: Filter) -> bool
    decreases w,
{
    match (w, f) {
        (WireFilter::And(ws), Filter::And(fs)) => ws@.len() == fs@.len() && forall|i: int|
            0 <= i < ws@.len() ==> wire_to(#[trigger] ws@[i], fs@[i]),
        (WireFilter::Or(ws), Filter::Or(fs)) => ws@.len() == fs@.len() && forall|i: int|
            0 <= i < ws@.len() ==> wire_to(#[trigger] ws@[i], fs@[i]),
        (WireFilter::Not(a), Filter::Not(b)) => wire_to(*a, *b),
        (WireFilter::Equality(a, v), Filter::Equality(n, ev)) => spec_parse_name_full(a@) == Some(
            n@,
        ) && ev@ == v@,
        (WireFilter::Present(a), Filter::Present(n)) => spec_parse_name_full(a@) == Some(n@),
        _ => false,
    }
}

impl Filter {
    /// Compile a wire filter: fails on an unsupported node kind or an
    /// attribute name that does not parse, rather than defaulting.
    #[verifier::loop_isolation(false)]
    pub fn try_from(w: &WireFilter) -> (r: Result<Filter, FilterError>)
        ensures
            r is Ok <==> wire_ok(*w),
            r matches Ok(f) ==> wire_to(*w, f),
        decreases *w,
    {
        match w {
            WireFilter::And(ws) => {
                let mut out: Vec<Filter> = Vec::new();
                let mut i: usize = 0;
                while i < ws.len()
                    invariant
                        i <= ws@.len(),
                        out@.len() == i,
                        forall|j: int| 0 <= j < i ==> wire_ok(#[trigger] ws@[j]),
                        forall|j: int| 0 <= j < i ==> wire_to(#[trigger] ws@[j], out@[j]),
                    decreases ws@.len() - i,
                {
                    proof {
                        assert(decreases_to!(*w => w->And_0));
                        assert(w->And_0 == *ws);
                        assert(decreases_to!(*ws => ws@));
                        assert(decreases_to!(ws@ => ws@[i as int]));
                    }
                    match Filter::try_from(&ws[i]) {
                        Ok(f) => {
                            out.push(f);
                        },
                        Err(e) => {
                            proof {
                                assert(!wire_ok(ws@[i as int]));
                                assert(!(forall|j: int|
                                    0 <= j < ws@.len() ==> wire_ok(#[trigger] ws@[j])));
                            }
                            return Err(e);
                        },
                    }
                    i += 1;
                }
                Ok(Filter::And(out))
            },
            WireFilter::Or(ws) => {
                let mut out: Vec<Filter> = Vec::new();
                let mut i: usize = 0;
                while i < ws.len()
                    invariant
                        i <= ws@.len(),
                        out@.len() == i,
                        forall|j: int| 0 <= j < i ==> wire_ok(#[trigger] ws@[j]),
                        forall|j: int| 0 <= j < i ==> wire_to(#[trigger] ws@[j], out@[j]),
                    decreases ws@.len() - i,
                {
                    proof {
                        assert(decreases_to!(*w => w->Or_0));
                        assert(w->Or_0 == *ws);
                        assert(decreases_to!(*ws => ws@));
                        assert(decreases_to!(ws@ => ws@[i as int]));
                    }
                    match Filter::try_from(&ws[i]) {
                        Ok(f) => {
                            out.push(f);
                        },
                        Err(e) => {
                            proof {
                                assert(!wire_ok(ws@[i as int]));
                                assert(!(forall|j: int|
                                    0 <= j < ws@.len() ==> wire_ok(#[trigger] ws@[j])));
                            }
                            return Err(e);
                        },
                    }
                    i += 1;
                }
                Ok(Filter::Or(out))
            },
            WireFilter::Not(x) => match Filter::try_from(x) {
                Ok(f) => Ok(Filter::Not(Box::new(f))),
                Err(e) => Err(e),
            },
            WireFilter::Equality(a, v) => match crate::dn_parser::attribute_name(a.as_str()) {
                Ok(n) => Ok(Filter::Equality(n, v.clone())),
                Err(e) => Err(FilterError::BadAttributeName(e)),
            },
            WireFilter::Substring(_) => Err(FilterError::Unsupported),
            WireFilter::Present(a) => match crate::dn_parser::attribute_name(a.as_str()) {
                Ok(n) => Ok(Filter::Present(n)),
                Err(e) => Err(FilterError::BadAttributeName(e)),
            },
        }
    }
}

/// What a wire filter would mean of an entity, were it compiled: the
/// meaning `try_from` preserves. An unsupported node or a bad name counts
/// as false here; `wire_ok` rules both out.
pub open spec fn spec_wire_eval(w: WireFilter, e: ProjView, db: Seq<UserView>) -> bool
    decreases w,
{
    match w {
        WireFilter::And(ws) => forall|i: int|
            0 <= i < ws@.len() ==> spec_wire_eval(#[trigger] ws@[i], e, db),
        WireFilter::Or(ws) => exists|i: int|
            0 <= i < ws@.len() && spec_wire_eval(#[trigger] ws@[i], e, db),
        WireFilter::Not(x) => !spec_wire_eval(*x, e, db),
        WireFilter::Equality(a, v) => match spec_parse_name_full(a@) {
            Some(n) => match spec_get(e, n, db) {
                Some(vals) => vals.contains(v@),
                None => false,
            },
            None => false,
        },
        WireFilter::Substring(_) => false,
        WireFilter::Present(a) => match spec_parse_name_full(a@) {
            Some(n) => spec_has(e, n),
            None => false,
        },
    }
}

/// A compiled filter evaluates exactly as the wire filter it was compiled
/// from.
pub proof fn lemma_wire_to_eval(w: WireFilter, f: Filter, e: ProjView, db: Seq<UserView>)
    requires
        wire_to(w, f),
    ensures
        spec_eval(f, e, db) == spec_wire_eval(w, e, db),
    decreases w,
{
    match w {
        WireFilter::And(ws) => {
            let fs = f->And_0;
            assert forall|i: int| 0 <= i < ws@.len() implies spec_eval(
                #[trigger] fs@[i],
                e,
                db,
            ) == spec_wire_eval(ws@[i], e, db) by {
                assert(decreases_to!(w => w->And_0));
                assert(w->And_0 == ws);
                assert(decreases_to!(ws => ws@));
                assert(decreases_to!(ws@ => ws@[i]));
                assert(wire_to(ws@[i], fs@[i]));
                lemma_wire_to_eval(ws@[i], fs@[i], e, db);
            }
            assert forall|i: int| 0 <= i < ws@.len() implies (spec_eval(
                #[trigger] fs@[i],
                e,
                db,
            ) <==> spec_wire_eval(#[trigger] ws@[i], e, db)) by {}
        },
        WireFilter::Or(ws) => {
            let fs = f->Or_0;
            assert forall|i: int| 0 <= i < ws@.len() implies spec_eval(
                #[trigger] fs@[i],
                e,
                db,
            ) == spec_wire_eval(ws@[i], e, db) by {
                assert(decreases_to!(w => w->Or_0));
                assert(w->Or_0 == ws);
                assert(decreases_to!(ws => ws@));
                assert(decreases_to!(ws@ => ws@[i]));
                assert(wire_to(ws@[i], fs@[i]));
                lemma_wire_to_eval(ws@[i], fs@[i], e, db);
            }
            if spec_eval(f, e, db) {
                let i = choose|i: int| 0 <= i < fs@.len() && spec_eval(#[trigger] fs@[i], e, db);
                assert(spec_wire_eval(ws@[i], e, db));
            }
            if spec_wire_eval(w, e, db) {
                let i = choose|i: int|
                    0 <= i < ws@.len() && spec_wire_eval(#[trigger] ws@[i], e, db);
                assert(spec_eval(fs@[i], e, db));
            }
        },
        WireFilter::Not(x) => {
            lemma_wire_to_eval(*x, *f->Not_0, e, db);
        },
        WireFilter::Equality(_, _) => {},
        WireFilter::Substring(_) => {},
        WireFilter::Present(_) => {},
    }
}

// ---------------------------------------------------------------------------
// Scope
// ---------------------------------------------------------------------------

/// How far below the base a search reaches.
#[derive(Debug, Clone, Copy, PartialEq, Eq, Structural)]
pub enum ScopeKind {
    /// Exactly the base entry.
    Base,
    /// Direct children of the base only.
    OneLevel,
    /// The base entry and every descendant.
    Subtree,
}

/// The reach of a search: its base name and kind.
pub struct Scope {
    pub base: DN,
    pub scope: ScopeKind,
}

/// Whether an entry with name `d` falls inside the scope.
pub open spec fn spec_scope_matches(
    kind: ScopeKind,
    base: Seq<Seq<AttrView>>,
    d: Seq<Seq<AttrView>>,
) -> bool {
    match kind {
        ScopeKind::Base => dn_eq(d, base),
        ScopeKind::OneLevel => dn_eq(spec_parent(d), base),
        ScopeKind::Subtree => spec_descendant(d, base),
    }
}

impl Scope {
    /// Whether the projected entity's name falls inside this scope.
    pub fn matches(&self, entity: &WithBaseDN) -> (r: bool)
        ensures
            r == spec_scope_matches(self.scope, self.base@, spec_entity_dn(entity@)),
    {
        let d = entity.dn();
        match self.scope {
            ScopeKind::Base => d == self.base,
            ScopeKind::OneLevel => d.parent() == self.base,
            ScopeKind::Subtree => d.is_descendant_of(&self.base),
        }
    }

    /// The special zero-component informational query: an empty base
    /// searched with kind `Base`.
    pub fn is_root_dse(&self) -> (r: bool)
        ensures
            r == (self.base@.len() == 0 && self.scope == ScopeKind::Base),
    {
        let empty = self.base.components.len() == 0;
        proof {
            assert(self.base@.len() == self.base.components@.len());
        }
        let is_base = match self.scope {
            ScopeKind::Base => true,
            ScopeKind::OneLevel => false,
            ScopeKind::Subtree => false,
        };
        empty && is_base
    }
}

// ---------------------------------------------------------------------------
// Laws
// ---------------------------------------------------------------------------

/// A double negation evaluates exactly as the inner predicate does: where
/// `f` is `Not(Not(g))`, evaluating `f` is evaluating `g`.
pub proof fn lemma_not_not(f: Filter, e: ProjView, db: Seq<UserView>)
    requires
        f is Not,
        (*f->Not_0) is Not,
    ensures
        spec_eval(f, e, db) == spec_eval(*((*f->Not_0)->Not_0), e, db),
{
    let inner = *f->Not_0;
    let g = *inner->Not_0;
    assert(spec_eval(f, e, db) == !spec_eval(inner, e, db));
    assert(spec_eval(inner, e, db) == !spec_eval(g, e, db));
}

/// An equality match on an attribute the entity does not define is false.
pub proof fn lemma_equality_absent(
    name: AttributeName,
    value: String,
    e: ProjView,
    db: Seq<UserView>,
)
    requires
        !spec_has(e, name@),
    ensures
        !spec_eval(Filter::Equality(name, value), e, db),
{
    crate::entities::lemma_present_iff_get(e, name@, db);
}

/// A presence filter holds exactly where the accessor exists.
pub proof fn lemma_present_iff_accessor(name: AttributeName, e: ProjView, db: Seq<UserView>)
    ensures
        spec_eval(Filter::Present(name), e, db) == (spec_get(e, name@, db) is Some),
{
    crate::entities::lemma_present_iff_get(e, name@, db);
}

/// An entry matching under `Base` also matches under `Subtree`, and one
/// matching under `OneLevel` also matches under `Subtree`: for one base, the
/// subtree set contains both the base entry and the one-level set.
pub proof fn lemma_scope_containment(base: Seq<Seq<AttrView>>, d: Seq<Seq<AttrView>>)
    ensures
        spec_scope_matches(ScopeKind::Base, base, d) ==> spec_scope_matches(
            ScopeKind::Subtree,
            base,
            d,
        ),
        spec_scope_matches(ScopeKind::OneLevel, base, d) ==> spec_scope_matches(
            ScopeKind::Subtree,
            base,
            d,
        ),
{
    if dn_eq(d, base) {
        crate::dn::lemma_descendant_of_equal(d, base);
    }
    if dn_eq(spec_parent(d), base) {
        crate::dn::lemma_parent_implies_descendant(d, base);
    }
}

} // verus!
