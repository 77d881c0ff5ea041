//! Distinguished names: the structured name type of the directory, with the
//! algebra over ancestor/descendant relations and case-folding equality.

use vstd::prelude::*;

verus! {

broadcast use vstd::seq_lib::group_seq_properties;

// ---------------------------------------------------------------------------
// Mathematical model
// ---------------------------------------------------------------------------

/// Model of an attribute name: a case-insensitive textual name or a numeric OID.
pub enum NameView {
    Text(Seq<char>),
    Oid(Seq<u16>),
}

/// Model of one `name=value` attribute.
pub struct AttrView {
    pub name: NameView,
    pub value: Seq<char>,
}

/// Is `c` an ASCII upper-case letter?
pub open spec fn is_upper(c: char) -> bool {
    'A' <= c && c <= 'Z'
}

/// ASCII case folding of one character.
pub open spec fn spec_lower(c: char) -> char {
    if is_upper(c) {
        (((c as u8) + 32) as char)
    } else {
        c
    }
}

/// ASCII case folding of a whole name.
pub open spec fn fold_name(s: Seq<char>) -> Seq<char> {
    s.map_values(|c: char| spec_lower(c))
}

/// Name equality: textual names compare case-insensitively, OIDs exactly,
/// and the two kinds are never equal to each other.
pub open spec fn name_eq(a: NameView, b: NameView) -> bool {
    match (a, b) {
        (NameView::Text(x), NameView::Text(y)) => fold_name(x) == fold_name(y),
        (NameView::Oid(x), NameView::Oid(y)) => x == y,
        _ => false,
    }
}

/// Attribute equality: names fold case, values compare exactly.
pub open spec fn attr_eq(a: AttrView, b: AttrView) -> bool {
    name_eq(a.name, b.name) && a.value == b.value
}

/// Pointwise equality of two attribute lists.
pub open spec fn rdn_eq(a: Seq<AttrView>, b: Seq<AttrView>) -> bool {
    a.len() == b.len() && forall|i: int| 0 <= i < a.len() ==> attr_eq(a[i], b[i])
}

/// Pointwise equality of two component lists.
pub open spec fn dn_eq(a: Seq<Seq<AttrView>>, b: Seq<Seq<AttrView>>) -> bool {
    a.len() == b.len() && forall|i: int| 0 <= i < a.len() ==> rdn_eq(a[i], b[i])
}

/// `a` is a descendant of `b`: read root-first (reversed), `b`'s components
/// are a prefix of `a`'s; leaf-first this makes `b` a suffix of `a`.
pub open spec fn spec_descendant(a: Seq<Seq<AttrView>>, b: Seq<Seq<AttrView>>) -> bool {
    b.len() <= a.len() && forall|i: int|
        0 <= i < b.len() ==> rdn_eq(a[a.len() - b.len() + i], b[i])
}

/// The component list of `parent()`: the leaf (first) component dropped,
/// except that the root is its own parent.
pub open spec fn spec_parent(d: Seq<Seq<AttrView>>) -> Seq<Seq<AttrView>> {
    if d.len() == 0 {
        d
    } else {
        d.subrange(1, d.len() as int)
    }
}

// ---------------------------------------------------------------------------
// The executable types
// ---------------------------------------------------------------------------

/// An attribute name: a case-insensitive textual name or a numeric OID.
#[derive(Debug)]
pub enum AttributeName {
    Text(String),
    Oid(Vec<u16>),
}

/// One `name=value` pair inside a relative distinguished name.
#[derive(Debug)]
pub struct Attribute {
    pub name: AttributeName,
    pub value: String,
}

/// A relative distinguished name: a non-empty ordered list of attributes.
#[derive(Debug)]
pub struct RDN {
    pub attributes: Vec<Attribute>,
}

/// A distinguished name: an ordered list of components, most specific first.
#[derive(Debug)]
pub struct DN {
    pub components: Vec<RDN>,
}

impl View for AttributeName {
    type V = NameView;

    open spec fn view(&self) -> NameView {
        match self {
            AttributeName::Text(s) => NameView::Text(s@),
            AttributeName::Oid(v) => NameView::Oid(v@),
        }
    }
}

impl View for Attribute {
    type V = AttrView;

    open spec fn view(&self) -> AttrView {
        AttrView { name: self.name@, value: self.value@ }
    }
}

impl View for RDN {
    type V = Seq<AttrView>;

    open spec fn view(&self) -> Seq<AttrView> {
        self.attributes@.map_values(|a: Attribute| a@)
    }
}

impl View for DN {
    type V = Seq<Seq<AttrView>>;

    open spec fn view(&self) -> Seq<Seq<AttrView>> {
        self.components@.map_values(|r: RDN| r@)
    }
}

// ---------------------------------------------------------------------------
// Constructors
// ---------------------------------------------------------------------------

impl AttributeName {
    /// A textual name, kept as written; comparisons fold ASCII case.
    pub fn text(s: String) -> (r: AttributeName)
        ensures
            r@ == NameView::Text(s@),
    {
        AttributeName::Text(s)
    }

    /// A numeric OID name.
    pub fn oid(parts: Vec<u16>) -> (r: AttributeName)
        ensures
            r@ == NameView::Oid(parts@),
    {
        AttributeName::Oid(parts)
    }
}

impl Attribute {
    pub fn new(name: AttributeName, value: String) -> (r: Attribute)
        ensures
            r@ == (AttrView { name: name@, value: value@ }),
    {
        Attribute { name, value }
    }

    pub fn name(&self) -> (r: &AttributeName)
        ensures
            r@ == self@.name,
    {
        &self.name
    }

    pub fn value(&self) -> (r: &str)
        ensures
            r@ == self@.value,
    {
        self.value.as_str()
    }
}

impl RDN {
    pub fn new(attributes: Vec<Attribute>) -> (r: RDN)
        ensures
            r@ == attributes@.map_values(|a: Attribute| a@),
    {
        RDN { attributes }
    }

    /// The attributes of this component, in display order.
    pub fn iter(&self) -> (r: &Vec<Attribute>)
        ensures
            r@.map_values(|a: Attribute| a@) == self@,
    {
        &self.attributes
    }
}

impl DN {
    pub fn new(components: Vec<RDN>) -> (r: DN)
        ensures
            r@ == components@.map_values(|c: RDN| c@),
    {
        DN { components }
    }

    /// The empty name: the root of the directory tree.
    pub fn root() -> (r: DN)
        ensures
            r@ == Seq::<Seq<AttrView>>::empty(),
    {
        let components: Vec<RDN> = Vec::new();
        proof {
            assert(components@.map_values(|c: RDN| c@) =~= Seq::<Seq<AttrView>>::empty());
        }
        DN { components }
    }

    /// The components of this name, most specific first.
    pub fn iter(&self) -> (r: &Vec<RDN>)
        ensures
            r@.map_values(|c: RDN| c@) == self@,
    {
        &self.components
    }
}

// ---------------------------------------------------------------------------
// Equality
// ---------------------------------------------------------------------------

/// ASCII case folding of one character, executable form.
pub fn char_fold(c: char) -> (r: char)
    ensures
        r == spec_lower(c),
{
    if 'A' <= c && c <= 'Z' {
        ((c as u8) + 32) as char
    } else {
        c
    }
}

/// Case-insensitive comparison of two textual names.
pub(crate) fn text_eq_fold(a: &str, b: &str) -> (r: bool)
    ensures
        r == (fold_name(a@) == fold_name(b@)),
{
    let n = a.unicode_len();
    let m = b.unicode_len();
    if n != m {
        proof {
            assert(fold_name(a@).len() == a@.len());
            assert(fold_name(b@).len() == b@.len());
        }
        return false;
    }
    let mut i: usize = 0;
    while i < n
        invariant
            i <= n,
            n == a@.len(),
            n == b@.len(),
            forall|j: int| 0 <= j < i ==> spec_lower(a@[j]) == spec_lower(b@[j]),
        decreases n - i,
    {
        if char_fold(a.get_char(i)) != char_fold(b.get_char(i)) {
            proof {
                assert(fold_name(a@)[i as int] != fold_name(b@)[i as int]);
            }
            return false;
        }
        i += 1;
    }
    proof {
        assert(fold_name(a@) =~= fold_name(b@));
    }
    true
}

fn oid_eq(a: &Vec<u16>, b: &Vec<u16>) -> (r: bool)
    ensures
        r == (a@ == b@),
{
    if a.len() != b.len() {
        return false;
    }
    let mut i: usize = 0;
    while i < a.len()
        invariant
            i <= a.len(),
            a.len() == b.len(),
            forall|j: int| 0 <= j < i ==> a@[j] == b@[j],
        decreases a.len() - i,
    {
        if a[i] != b[i] {
            return false;
        }
        i += 1;
    }
    proof {
        assert(a@ =~= b@);
    }
    true
}

impl PartialEq for AttributeName {
    fn eq(&self, other: &AttributeName) -> (r: bool) {
        match (self, other) {
            (AttributeName::Text(a), AttributeName::Text(b)) => text_eq_fold(
                a.as_str(),
                b.as_str(),
            ),
            (AttributeName::Oid(a), AttributeName::Oid(b)) => oid_eq(a, b),
            _ => false,
        }
    }
}

impl vstd::std_specs::cmp::PartialEqSpecImpl for AttributeName {
    open spec fn obeys_eq_spec() -> bool {
        true
    }

    open spec fn eq_spec(&self, other: &AttributeName) -> bool {
        name_eq(self@, other@)
    }
}

impl PartialEq for Attribute {
    fn eq(&self, other: &Attribute) -> (r: bool) {
        self.name == other.name && self.value == other.value
    }
}

impl vstd::std_specs::cmp::PartialEqSpecImpl for Attribute {
    open spec fn obeys_eq_spec() -> bool {
        true
    }

    open spec fn eq_spec(&self, other: &Attribute) -> bool {
        attr_eq(self@, other@)
    }
}

impl PartialEq for RDN {
    fn eq(&self, other: &RDN) -> (r: bool) {
        if self.attributes.len() != other.attributes.len() {
            return false;
        }
        let mut i: usize = 0;
        while i < self.attributes.len()
            invariant
                i <= self.attributes.len(),
                self.attributes.len() == other.attributes.len(),
                forall|j: int| 0 <= j < i ==> attr_eq(self@[j], other@[j]),
            decreases self.attributes.len() - i,
        {
            if !(self.attributes[i] == other.attributes[i]) {
                proof {
                    assert(self@ == self.attributes@.map_values(|a: Attribute| a@));
                    assert(self@[i as int] == self.attributes@[i as int]@);
                    assert(!attr_eq(self@[i as int], other@[i as int]));
                }
                return false;
            }
            i += 1;
        }
        true
    }
}

impl vstd::std_specs::cmp::PartialEqSpecImpl for RDN {
    open spec fn obeys_eq_spec() -> bool {
        true
    }

    open spec fn eq_spec(&self, other: &RDN) -> bool {
        rdn_eq(self@, other@)
    }
}

impl PartialEq for DN {
    fn eq(&self, other: &DN) -> (r: bool) {
        if self.components.len() != other.components.len() {
            return false;
        }
        let mut i: usize = 0;
        while i < self.components.len()
            invariant
                i <= self.components.len(),
                self.components.len() == other.components.len(),
                forall|j: int| 0 <= j < i ==> rdn_eq(self@[j], other@[j]),
            decreases self.components.len() - i,
        {
            if !(self.components[i] == other.components[i]) {
                proof {
                    assert(self@[i as int] == self.components@[i as int]@);
                    assert(other@[i as int] == other.components@[i as int]@);
                    assert(!rdn_eq(self@[i as int], other@[i as int]));
                }
                return false;
            }
            i += 1;
        }
        true
    }
}

impl vstd::std_specs::cmp::PartialEqSpecImpl for DN {
    open spec fn obeys_eq_spec() -> bool {
        true
    }

    open spec fn eq_spec(&self, other: &DN) -> bool {
        dn_eq(self@, other@)
    }
}

// ---------------------------------------------------------------------------
// Clone
// ---------------------------------------------------------------------------

fn clone_u16s(v: &Vec<u16>) -> (r: Vec<u16>)
    ensures
        r@ == v@,
{
    let mut r: Vec<u16> = Vec::new();
    let mut i: usize = 0;
    while i < v.len()
        invariant
            i <= v.len(),
            r@ == v@.take(i as int),
        decreases v.len() - i,
    {
        r.push(v[i]);
        proof {
            assert(v@.take(i + 1 as int) =~= v@.take(i as int).push(v@[i as int]));
        }
        i += 1;
    }
    proof {
        assert(v@.take(v@.len() as int) =~= v@);
    }
    r
}

impl Clone for AttributeName {
    fn clone(&self) -> (r: AttributeName)
        ensures
            r@ == self@,
    {
        match self {
            AttributeName::Text(s) => AttributeName::Text(s.clone()),
            AttributeName::Oid(v) => AttributeName::Oid(clone_u16s(v)),
        }
    }
}

impl Clone for Attribute {
    fn clone(&self) -> (r: Attribute)
        ensures
            r@ == self@,
    {
        Attribute { name: self.name.clone(), value: self.value.clone() }
    }
}

impl Clone for RDN {
    fn clone(&self) -> (r: RDN)
        ensures
            r@ == self@,
    {
        let mut attributes: Vec<Attribute> = Vec::new();
        let mut i: usize = 0;
        while i < self.attributes.len()
            invariant
                i <= self.attributes.len(),
                self@.len() == self.attributes.len(),
                attributes@.len() == i,
                forall|j: int| 0 <= j < i ==> #[trigger] attributes@[j]@ == self@[j],
            decreases self.attributes.len() - i,
        {
            attributes.push(self.attributes[i].clone());
            proof {
                assert(self@[i as int] == self.attributes@[i as int]@);
            }
            i += 1;
        }
        proof {
            let m = attributes@.map_values(|a: Attribute| a@);
            assert forall|j: int| 0 <= j < self@.len() implies #[trigger] m[j] == self@[j] by {
                assert(m[j] == attributes@[j]@);
            }
            assert(m =~= self@);
        }
        RDN { attributes }
    }
}

impl Clone for DN {
    fn clone(&self) -> (r: DN)
        ensures
            r@ == self@,
    {
        let mut components: Vec<RDN> = Vec::new();
        let mut i: usize = 0;
        while i < self.components.len()
            invariant
                i <= self.components.len(),
                self@.len() == self.components.len(),
                components@.len() == i,
                forall|j: int| 0 <= j < i ==> #[trigger] components@[j]@ == self@[j],
            decreases self.components.len() - i,
        {
            components.push(self.components[i].clone());
            proof {
                assert(self@[i as int] == self.components@[i as int]@);
            }
            i += 1;
        }
        proof {
            let m = components@.map_values(|c: RDN| c@);
            assert forall|j: int| 0 <= j < self@.len() implies #[trigger] m[j] == self@[j] by {
                assert(m[j] == components@[j]@);
            }
            assert(m =~= self@);
        }
        DN { components }
    }
}

// ---------------------------------------------------------------------------
// The name algebra
// ---------------------------------------------------------------------------

impl DN {
    /// Whether `parent`'s components, read root-first, are a prefix of ours.
    /// Reflexive; the root is an ancestor of every name.
    pub fn is_descendant_of(&self, parent: &DN) -> (r: bool)
        ensures
            r == spec_descendant(self@, parent@),
    {
        let n = self.components.len();
        let m = parent.components.len();
        if m > n {
            return false;
        }
        let off = n - m;
        let mut i: usize = 0;
        while i < m
            invariant
                i <= m,
                m <= n,
                off == n - m,
                n == self@.len(),
                m == parent@.len(),
                forall|j: int| 0 <= j < i ==> rdn_eq(self@[off + j], parent@[j]),
            decreases m - i,
        {
            proof {
                assert(self@[off + i] == self.components@[off + i]@);
                assert(parent@[i as int] == parent.components@[i as int]@);
            }
            if !(self.components[off + i] == parent.components[i]) {
                proof {
                    assert(self@[off + i] == self.components@[off + i]@);
                    assert(parent@[i as int] == parent.components@[i as int]@);
                    assert(!rdn_eq(self@[off + i], parent@[i as int]));
                }
                return false;
            }
            i += 1;
        }
        true
    }

    /// `self.is_ancestor_of(child)` is `child.is_descendant_of(self)`.
    pub fn is_ancestor_of(&self, child: &DN) -> (r: bool)
        ensures
            r == spec_descendant(child@, self@),
    {
        child.is_descendant_of(self)
    }

    /// If `parent` is an ancestor, the leaf-side components not shared with
    /// it, in leaf-first order; otherwise nothing.
    pub fn relative_to(&self, parent: &DN) -> (r: Option<DN>)
        ensures
            r is Some <==> spec_descendant(self@, parent@),
            r matches Some(d) ==> d@ == self@.take(self@.len() - parent@.len()),
    {
        if !self.is_descendant_of(parent) {
            return None;
        }
        let keep = self.components.len() - parent.components.len();
        let mut components: Vec<RDN> = Vec::new();
        let mut i: usize = 0;
        while i < keep
            invariant
                i <= keep,
                keep <= self@.len(),
                self@.len() == self.components.len(),
                components@.len() == i,
                forall|j: int| 0 <= j < i ==> #[trigger] components@[j]@ == self@[j],
            decreases keep - i,
        {
            components.push(self.components[i].clone());
            proof {
                assert(self@[i as int] == self.components@[i as int]@);
            }
            i += 1;
        }
        proof {
            let m = components@.map_values(|c: RDN| c@);
            assert forall|j: int| 0 <= j < keep implies #[trigger] m[j] == self@.take(
                self@.len() - parent@.len(),
            )[j] by {
                assert(m[j] == components@[j]@);
            }
            assert(m =~= self@.take(self@.len() - parent@.len()));
        }
        Some(DN { components })
    }

    /// A new name whose components are `dn`'s followed by ours: `dn` becomes
    /// the new most-specific part, placed under `self`.
    pub fn join(&self, dn: &DN) -> (r: DN)
        ensures
            r@ == dn@ + self@,
    {
        let mut components: Vec<RDN> = Vec::new();
        let mut i: usize = 0;
        while i < dn.components.len()
            invariant
                i <= dn.components.len(),
                dn@.len() == dn.components.len(),
                components@.len() == i,
                forall|j: int| 0 <= j < i ==> #[trigger] components@[j]@ == dn@[j],
            decreases dn.components.len() - i,
        {
            components.push(dn.components[i].clone());
            proof {
                assert(dn@[i as int] == dn.components@[i as int]@);
            }
            i += 1;
        }
        let n = dn.components.len();
        let mut i: usize = 0;
        while i < self.components.len()
            invariant
                i <= self.components.len(),
                self@.len() == self.components.len(),
                n == dn@.len(),
                components@.len() == n + i,
                forall|j: int| 0 <= j < n ==> #[trigger] components@[j]@ == dn@[j],
                forall|j: int| 0 <= j < i ==> #[trigger] components@[n + j]@ == self@[j],
            decreases self.components.len() - i,
        {
            components.push(self.components[i].clone());
            proof {
                assert(self@[i as int] == self.components@[i as int]@);
            }
            i += 1;
        }
        proof {
            let m = components@.map_values(|c: RDN| c@);
            assert forall|j: int| 0 <= j < n + self@.len() implies #[trigger] m[j] == (dn@
                + self@)[j] by {
                assert(m[j] == components@[j]@);
                if j >= n {
                    assert(components@[n + (j - n)]@ == self@[j - n]);
                }
            }
            assert(m =~= dn@ + self@);
        }
        DN { components }
    }

    /// The name without its leaf component; the root is its own parent.
    pub fn parent(&self) -> (r: DN)
        ensures
            r@ == spec_parent(self@),
    {
        if self.components.len() == 0 {
            let components: Vec<RDN> = Vec::new();
            proof {
                assert(components@.map_values(|c: RDN| c@) =~= spec_parent(self@));
            }
            return DN { components };
        }
        let mut components: Vec<RDN> = Vec::new();
        let mut i: usize = 1;
        while i < self.components.len()
            invariant
                1 <= i <= self.components.len(),
                self@.len() == self.components.len(),
                components@.len() == i - 1,
                forall|j: int| 0 <= j < i - 1 ==> #[trigger] components@[j]@ == self@[j + 1],
            decreases self.components.len() - i,
        {
            components.push(self.components[i].clone());
            proof {
                assert(self@[i as int] == self.components@[i as int]@);
            }
            i += 1;
        }
        proof {
            let m = components@.map_values(|c: RDN| c@);
            assert forall|j: int| 0 <= j < self@.len() - 1 implies #[trigger] m[j] == spec_parent(
                self@,
            )[j] by {
                assert(m[j] == components@[j]@);
            }
            assert(m =~= spec_parent(self@));
        }
        DN { components }
    }
}

// ---------------------------------------------------------------------------
// Laws of the algebra
// ---------------------------------------------------------------------------

/// Every name is a descendant of itself.
pub proof fn lemma_descendant_reflexive(d: Seq<Seq<AttrView>>)
    ensures
        spec_descendant(d, d),
{
}

/// The root is an ancestor of every name.
pub proof fn lemma_root_is_ancestor(d: Seq<Seq<AttrView>>)
    ensures
        spec_descendant(d, Seq::<Seq<AttrView>>::empty()),
{
}

/// Being a descendant is transported along pointwise name equality.
pub proof fn lemma_descendant_of_equal(a: Seq<Seq<AttrView>>, b: Seq<Seq<AttrView>>)
    requires
        dn_eq(a, b),
    ensures
        spec_descendant(a, b),
{
}

/// If a name's parent equals `b`, the name lies in `b`'s subtree: the
/// one-level matching set is contained in the subtree matching set.
pub proof fn lemma_parent_implies_descendant(d: Seq<Seq<AttrView>>, b: Seq<Seq<AttrView>>)
    requires
        dn_eq(spec_parent(d), b),
    ensures
        spec_descendant(d, b),
{
    if d.len() == 0 {
    } else {
        assert forall|i: int| 0 <= i < b.len() implies rdn_eq(d[d.len() - b.len() + i], b[i]) by {
            assert(rdn_eq(spec_parent(d)[i], b[i]));
            assert(spec_parent(d)[i] == d[i + 1]);
        }
    }
}

/// Splitting a descendant at its ancestor: the part `relative_to` keeps,
/// concatenated with the components shared with the ancestor, is the whole
/// name, and the shared part equals the ancestor pointwise.
pub proof fn lemma_relative_to_splits(c: Seq<Seq<AttrView>>, p: Seq<Seq<AttrView>>)
    requires
        spec_descendant(c, p),
    ensures
        c == c.take(c.len() - p.len()) + c.subrange(c.len() - p.len(), c.len() as int),
        dn_eq(c.subrange(c.len() - p.len(), c.len() as int), p),
{
    assert(c =~= c.take(c.len() - p.len()) + c.subrange(c.len() - p.len(), c.len() as int));
}

} // verus!
