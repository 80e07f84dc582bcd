//! The registry of declared types, and the walk that fills it.
//!
//! The walk visits a type description from the root down. A compound type
//! that is not marked inline is registered under its identity the first time
//! the walk meets that identity, before its children are visited; a type whose
//! identity is already registered is not entered again.

use vstd::prelude::*;
use crate::datatype::{DataType, EnumType, EnumVariant, ObjectField, ObjectType};
use crate::reach::{lemma_added, occurs};

verus! {

/// A compound type as the registry holds it.
pub enum Definition {
    Object(ObjectType),
    Enum(EnumType),
}

impl Definition {
    /// The identity under which the definition is registered.
    pub open spec fn id(self) -> u64 {
        match self {
            Definition::Object(o) => o.id,
            Definition::Enum(e) => e.id,
        }
    }

    /// Whether the type is marked inline.
    pub open spec fn inline(self) -> bool {
        match self {
            Definition::Object(o) => o.inline,
            Definition::Enum(e) => e.inline,
        }
    }
}

/// An entry of the registry: a compound type inside the descriptions that
/// were walked.
#[derive(Debug, Clone, Copy, PartialEq, Eq)]
pub enum TypeDef<'a> {
    Object(&'a ObjectType),
    Enum(&'a EnumType),
}

impl<'a> View for TypeDef<'a> {
    type V = Definition;

    open spec fn view(&self) -> Definition {
        match *self {
            TypeDef::Object(o) => Definition::Object(*o),
            TypeDef::Enum(e) => Definition::Enum(*e),
        }
    }
}

impl<'a> TypeDef<'a> {
    /// The identity under which the entry is registered.
    pub fn id(&self) -> (r: u64)
        ensures
            r == self@.id(),
    {
        match self {
            TypeDef::Object(o) => o.id,
            TypeDef::Enum(e) => e.id,
        }
    }
}

/// Whether some definition in `defs` has the identity `id`.
pub open spec fn has_id(defs: Seq<Definition>, id: u64) -> bool {
    exists|i: int| 0 <= i < defs.len() && (#[trigger] defs[i]).id() == id
}

/// No two definitions in `defs` share an identity.
pub open spec fn distinct_ids(defs: Seq<Definition>) -> bool {
    forall|i: int, j: int|
        0 <= i < j < defs.len() ==> (#[trigger] defs[i]).id() != (#[trigger] defs[j]).id()
}

/// No definition in `defs` is marked inline.
pub open spec fn none_inline(defs: Seq<Definition>) -> bool {
    forall|i: int| 0 <= i < defs.len() ==> !(#[trigger] defs[i]).inline()
}

/// What a registry always satisfies: its identities are unique and it holds
/// no inline type.
pub open spec fn well_formed(defs: Seq<Definition>) -> bool {
    distinct_ids(defs) && none_inline(defs)
}

/// The registry after the walk of `ty`, begun with `defs`.
pub open spec fn extract(ty: DataType, defs: Seq<Definition>) -> Seq<Definition>
    decreases ty, 0nat,
{
    match ty {
        DataType::Primitive(_) => defs,
        DataType::Object(o) => extract_object(o, defs),
        DataType::Enum(e) => extract_enum(e, defs),
        DataType::List(t) => extract(*t, defs),
        DataType::Nullable(t) => extract(*t, defs),
        DataType::Tuple(items) => extract_items(items, items.len() as nat, defs),
    }
}

/// The registry after the walk of the object type `o`.
pub open spec fn extract_object(o: ObjectType, defs: Seq<Definition>) -> Seq<Definition>
    decreases o, 0nat,
{
    if o.inline {
        extract_fields(o.fields, o.fields.len() as nat, defs)
    } else if has_id(defs, o.id) {
        defs
    } else {
        extract_fields(o.fields, o.fields.len() as nat, defs.push(Definition::Object(o)))
    }
}

/// The registry after the walk of the enum type `e`.
pub open spec fn extract_enum(e: EnumType, defs: Seq<Definition>) -> Seq<Definition>
    decreases e, 0nat,
{
    if e.inline {
        extract_variants(e.variants, e.variants.len() as nat, defs)
    } else if has_id(defs, e.id) {
        defs
    } else {
        extract_variants(e.variants, e.variants.len() as nat, defs.push(Definition::Enum(e)))
    }
}

/// The registry after the walk of the first `n` fields, in their order.
pub open spec fn extract_fields(fields: Vec<ObjectField>, n: nat, defs: Seq<Definition>) -> Seq<
    Definition,
>
    decreases fields, n,
{
    if n == 0 || n > fields.len() {
        defs
    } else {
        extract(fields[n - 1].ty, extract_fields(fields, (n - 1) as nat, defs))
    }
}

/// The registry after the walk of the first `n` items, in their order.
pub open spec fn extract_items(items: Vec<DataType>, n: nat, defs: Seq<Definition>) -> Seq<
    Definition,
>
    decreases items, n,
{
    if n == 0 || n > items.len() {
        defs
    } else {
        extract(items[n - 1], extract_items(items, (n - 1) as nat, defs))
    }
}

/// The registry after the walk of one variant: a unit variant adds nothing.
pub open spec fn extract_variant(v: EnumVariant, defs: Seq<Definition>) -> Seq<Definition>
    decreases v, 0nat,
{
    match v {
        EnumVariant::Unit(_) => defs,
        EnumVariant::Unnamed(items) => extract_items(items, items.len() as nat, defs),
        EnumVariant::Named(o) => extract_object(o, defs),
    }
}

/// The registry after the walk of the first `n` variants, in their order.
pub open spec fn extract_variants(
    variants: Vec<EnumVariant>,
    n: nat,
    defs: Seq<Definition>,
) -> Seq<Definition>
    decreases variants, n,
{
    if n == 0 || n > variants.len() {
        defs
    } else {
        extract_variant(variants[n - 1], extract_variants(variants, (n - 1) as nat, defs))
    }
}

/// `after` is a well-formed registry that begins with `before`.
pub open spec fn extends(before: Seq<Definition>, after: Seq<Definition>) -> bool {
    well_formed(after) && before.is_prefix_of(after)
}

/// The walk of a type keeps what was registered, in its place, and leaves the
/// registry well formed.
pub proof fn lemma_extract(ty: DataType, defs: Seq<Definition>)
    requires
        well_formed(defs),
    ensures
        extends(defs, extract(ty, defs)),
    decreases ty, 0nat,
{
    match ty {
        DataType::Primitive(_) => {},
        DataType::Object(o) => lemma_extract_object(o, defs),
        DataType::Enum(e) => lemma_extract_enum(e, defs),
        DataType::List(t) => lemma_extract(*t, defs),
        DataType::Nullable(t) => lemma_extract(*t, defs),
        DataType::Tuple(items) => lemma_extract_items(items, items.len() as nat, defs),
    }
}

/// The walk of an object type keeps what was registered and leaves the
/// registry well formed; if the type is not inline, its identity is
/// registered afterwards.
pub proof fn lemma_extract_object(o: ObjectType, defs: Seq<Definition>)
    requires
        well_formed(defs),
    ensures
        extends(defs, extract_object(o, defs)),
        !o.inline ==> has_id(extract_object(o, defs), o.id),
    decreases o, 0nat,
{
    if o.inline {
        lemma_extract_fields(o.fields, o.fields.len() as nat, defs);
    } else if has_id(defs, o.id) {
    } else {
        let first = defs.push(Definition::Object(o));
        assert(well_formed(first));
        lemma_extract_fields(o.fields, o.fields.len() as nat, first);
        let after = extract_object(o, defs);
        assert(after[defs.len() as int] == first[defs.len() as int]);
    }
}

/// The walk of an enum type keeps what was registered and leaves the registry
/// well formed; if the type is not inline, its identity is registered
/// afterwards.
pub proof fn lemma_extract_enum(e: EnumType, defs: Seq<Definition>)
    requires
        well_formed(defs),
    ensures
        extends(defs, extract_enum(e, defs)),
        !e.inline ==> has_id(extract_enum(e, defs), e.id),
    decreases e, 0nat,
{
    if e.inline {
        lemma_extract_variants(e.variants, e.variants.len() as nat, defs);
    } else if has_id(defs, e.id) {
    } else {
        let first = defs.push(Definition::Enum(e));
        assert(well_formed(first));
        lemma_extract_variants(e.variants, e.variants.len() as nat, first);
        let after = extract_enum(e, defs);
        assert(after[defs.len() as int] == first[defs.len() as int]);
    }
}

/// The walk of some fields keeps what was registered and leaves the registry
/// well formed.
pub proof fn lemma_extract_fields(fields: Vec<ObjectField>, n: nat, defs: Seq<Definition>)
    requires
        well_formed(defs),
    ensures
        extends(defs, extract_fields(fields, n, defs)),
    decreases fields, n,
{
    if n == 0 || n > fields.len() {
    } else {
        lemma_extract_fields(fields, (n - 1) as nat, defs);
        lemma_extract(fields[n - 1].ty, extract_fields(fields, (n - 1) as nat, defs));
    }
}

/// The walk of some items keeps what was registered and leaves the registry
/// well formed.
pub proof fn lemma_extract_items(items: Vec<DataType>, n: nat, defs: Seq<Definition>)
    requires
        well_formed(defs),
    ensures
        extends(defs, extract_items(items, n, defs)),
    decreases items, n,
{
    if n == 0 || n > items.len() {
    } else {
        lemma_extract_items(items, (n - 1) as nat, defs);
        lemma_extract(items[n - 1], extract_items(items, (n - 1) as nat, defs));
    }
}

/// The walk of a variant keeps what was registered and leaves the registry
/// well formed.
pub proof fn lemma_extract_variant(v: EnumVariant, defs: Seq<Definition>)
    requires
        well_formed(defs),
    ensures
        extends(defs, extract_variant(v, defs)),
    decreases v, 0nat,
{
    match v {
        EnumVariant::Unit(_) => {},
        EnumVariant::Unnamed(items) => lemma_extract_items(items, items.len() as nat, defs),
        EnumVariant::Named(o) => lemma_extract_object(o, defs),
    }
}

/// The walk of some variants keeps what was registered and leaves the
/// registry well formed.
pub proof fn lemma_extract_variants(variants: Vec<EnumVariant>, n: nat, defs: Seq<Definition>)
    requires
        well_formed(defs),
    ensures
        extends(defs, extract_variants(variants, n, defs)),
    decreases variants, n,
{
    if n == 0 || n > variants.len() {
    } else {
        lemma_extract_variants(variants, (n - 1) as nat, defs);
        lemma_extract_variant(variants[n - 1], extract_variants(variants, (n - 1) as nat, defs));
    }
}

/// The union of two registries: `a`, and after it each of the first `n`
/// entries of `b` whose identity is not there yet, in their order.
pub open spec fn merged(a: Seq<Definition>, b: Seq<Definition>, n: nat) -> Seq<Definition>
    decreases n,
{
    if n == 0 || n > b.len() {
        a
    } else {
        let before = merged(a, b, (n - 1) as nat);
        if has_id(before, b[n - 1].id()) {
            before
        } else {
            before.push(b[n - 1])
        }
    }
}

/// A registry with one more entry has the identities it had, and that of the
/// entry.
pub proof fn lemma_has_id_push(s: Seq<Definition>, x: Definition, id: u64)
    ensures
        has_id(s.push(x), id) <==> has_id(s, id) || x.id() == id,
{
    let t = s.push(x);
    if has_id(s, id) {
        let i = choose|i: int| 0 <= i < s.len() && (#[trigger] s[i]).id() == id;
        assert(t[i].id() == id);
    }
    if x.id() == id {
        assert(t[s.len() as int].id() == id);
    }
    if has_id(t, id) {
        let i = choose|i: int| 0 <= i < t.len() && (#[trigger] t[i]).id() == id;
        if i < s.len() {
            assert(s[i].id() == id);
        }
    }
}

/// The union of two well-formed registries is well formed, begins with the
/// first, and has exactly the identities of the two.
pub proof fn lemma_merged(a: Seq<Definition>, b: Seq<Definition>, n: nat)
    requires
        well_formed(a),
        none_inline(b),
        n <= b.len(),
    ensures
        extends(a, merged(a, b, n)),
        forall|id: u64|
            #[trigger] has_id(merged(a, b, n), id) <==> has_id(a, id) || has_id(
                b.take(n as int),
                id,
            ),
    decreases n,
{
    let after = merged(a, b, n);
    if n == 0 {
        assert forall|id: u64| #[trigger] has_id(after, id) <==> has_id(a, id) || has_id(
            b.take(n as int),
            id,
        ) by {
            assert(!has_id(b.take(0), id));
        }
    } else {
        let m = (n - 1) as nat;
        lemma_merged(a, b, m);
        let before = merged(a, b, m);
        let last = b[n - 1];
        assert(b.take(n as int) =~= b.take(m as int).push(last));
        if !has_id(before, last.id()) {
            assert(after[before.len() as int] == last);
        }
        assert forall|id: u64| #[trigger] has_id(after, id) <==> has_id(a, id) || has_id(
            b.take(n as int),
            id,
        ) by {
            lemma_has_id_push(b.take(m as int), last, id);
            lemma_has_id_push(before, last, id);
            assert(has_id(before, id) <==> has_id(a, id) || has_id(b.take(m as int), id));
        }
    }
}

/// The registry of declared types: one entry for each identity, in the order
/// in which the walk met them.
pub struct TypeDefs<'a> {
    defs: Vec<TypeDef<'a>>,
}

impl<'a> View for TypeDefs<'a> {
    type V = Seq<Definition>;

    closed spec fn view(&self) -> Seq<Definition> {
        self.defs@.map_values(|d: TypeDef<'a>| d@)
    }
}

impl<'a> TypeDefs<'a> {
    /// Unique identities, and no inline type.
    pub open spec fn wf(&self) -> bool {
        well_formed(self@)
    }

    /// The empty registry.
    pub fn new() -> (r: Self)
        ensures
            r@ == Seq::<Definition>::empty(),
            r.wf(),
    {
        let r = TypeDefs { defs: Vec::new() };
        assert(r@ =~= Seq::<Definition>::empty());
        r
    }

    /// The number of entries.
    pub fn len(&self) -> (r: usize)
        ensures
            r == self@.len(),
    {
        self.defs.len()
    }

    /// The entry at position `i`.
    pub fn get(&self, i: usize) -> (r: Option<TypeDef<'a>>)
        ensures
            i < self@.len() ==> r is Some && r->0@ == self@[i as int],
            i >= self@.len() ==> r is None,
    {
        if i < self.defs.len() {
            Some(self.defs[i])
        } else {
            None
        }
    }

    /// Whether an entry is registered under `id`.
    pub fn contains_key(&self, id: u64) -> (r: bool)
        ensures
            r == has_id(self@, id),
    {
        let mut i: usize = 0;
        while i < self.defs.len()
            invariant
                i <= self.defs.len(),
                forall|k: int| 0 <= k < i ==> (#[trigger] self@[k]).id() != id,
            decreases self.defs.len() - i,
        {
            if self.defs[i].id() == id {
                assert(self@[i as int].id() == id);
                return true;
            }
            i += 1;
        }
        false
    }

    /// Takes over from `other` each entry whose identity is not here yet.
    pub fn extend(&mut self, other: &TypeDefs<'a>)
        requires
            old(self).wf(),
            other.wf(),
        ensures
            final(self)@ == merged(old(self)@, other@, other@.len()),
            final(self).wf(),
            old(self)@.is_prefix_of(final(self)@),
            forall|id: u64|
                has_id(final(self)@, id) <==> has_id(old(self)@, id) || has_id(other@, id),
    {
        proof {
            lemma_merged(self@, other@, other@.len());
            assert(other@.take(other@.len() as int) =~= other@);
        }
        let mut i: usize = 0;
        while i < other.len()
            invariant
                i <= other@.len(),
                self@ == merged(old(self)@, other@, i as nat),
            decreases other@.len() - i,
        {
            match other.get(i) {
                Some(def) => {
                    if !self.contains_key(def.id()) {
                        self.push(def);
                    }
                },
                None => {},
            }
            i += 1;
        }
    }

    fn push(&mut self, def: TypeDef<'a>)
        ensures
            final(self)@ == old(self)@.push(def@),
    {
        self.defs.push(def);
        assert(self@ =~= old(self)@.push(def@));
    }
}

/// Walks `ty` and registers in `defs` what it meets.
pub fn extract_into<'a>(ty: &'a DataType, defs: &mut TypeDefs<'a>)
    requires
        old(defs).wf(),
    ensures
        final(defs)@ == extract(*ty, old(defs)@),
        final(defs).wf(),
        old(defs)@.is_prefix_of(final(defs)@),
{
    proof {
        lemma_extract(*ty, defs@);
    }
    walk(ty, defs);
}

fn walk<'a>(ty: &'a DataType, defs: &mut TypeDefs<'a>)
    ensures
        final(defs)@ == extract(*ty, old(defs)@),
    decreases ty, 0nat,
{
    match ty {
        DataType::Primitive(_) => {},
        DataType::Object(o) => walk_object(o, defs),
        DataType::Enum(e) => walk_enum(e, defs),
        DataType::List(t) => walk(t, defs),
        DataType::Nullable(t) => walk(t, defs),
        DataType::Tuple(items) => walk_items(items, defs),
    }
}

fn walk_object<'a>(o: &'a ObjectType, defs: &mut TypeDefs<'a>)
    ensures
        final(defs)@ == extract_object(*o, old(defs)@),
    decreases o, 0nat,
{
    if o.inline {
        walk_fields(&o.fields, defs);
    } else if !defs.contains_key(o.id) {
        defs.push(TypeDef::Object(o));
        walk_fields(&o.fields, defs);
    }
}

fn walk_enum<'a>(e: &'a EnumType, defs: &mut TypeDefs<'a>)
    ensures
        final(defs)@ == extract_enum(*e, old(defs)@),
    decreases e, 0nat,
{
    if e.inline {
        walk_variants(&e.variants, defs);
    } else if !defs.contains_key(e.id) {
        defs.push(TypeDef::Enum(e));
        walk_variants(&e.variants, defs);
    }
}

fn walk_fields<'a>(fields: &'a Vec<ObjectField>, defs: &mut TypeDefs<'a>)
    ensures
        final(defs)@ == extract_fields(*fields, fields.len() as nat, old(defs)@),
    decreases fields, 1nat,
{
    let mut i: usize = 0;
    while i < fields.len()
        invariant
            i <= fields.len(),
            defs@ == extract_fields(*fields, i as nat, old(defs)@),
        decreases fields.len() - i,
    {
        walk(&fields[i].ty, defs);
        i += 1;
    }
}

fn walk_items<'a>(items: &'a Vec<DataType>, defs: &mut TypeDefs<'a>)
    ensures
        final(defs)@ == extract_items(*items, items.len() as nat, old(defs)@),
    decreases items, 1nat,
{
    let mut i: usize = 0;
    while i < items.len()
        invariant
            i <= items.len(),
            defs@ == extract_items(*items, i as nat, old(defs)@),
        decreases items.len() - i,
    {
        walk(&items[i], defs);
        i += 1;
    }
}

fn walk_variant<'a>(v: &'a EnumVariant, defs: &mut TypeDefs<'a>)
    ensures
        final(defs)@ == extract_variant(*v, old(defs)@),
    decreases v, 0nat,
{
    match v {
        EnumVariant::Unit(_) => {},
        EnumVariant::Unnamed(items) => walk_items(items, defs),
        EnumVariant::Named(o) => walk_object(o, defs),
    }
}

fn walk_variants<'a>(variants: &'a Vec<EnumVariant>, defs: &mut TypeDefs<'a>)
    ensures
        final(defs)@ == extract_variants(*variants, variants.len() as nat, old(defs)@),
    decreases variants, 1nat,
{
    let mut i: usize = 0;
    while i < variants.len()
        invariant
            i <= variants.len(),
            defs@ == extract_variants(*variants, i as nat, old(defs)@),
        decreases variants.len() - i,
    {
        walk_variant(&variants[i], defs);
        i += 1;
    }
}

/// Walks `ty` alone and returns the registry of what it met: compound types
/// that stand in `ty`, none of them inline, no two with one identity.
pub fn extract_types<'a>(ty: &'a DataType) -> (r: TypeDefs<'a>)
    ensures
        r@ == extract(*ty, Seq::empty()),
        r.wf(),
        forall|i: int| 0 <= i < r@.len() ==> occurs(*ty, #[trigger] r@[i]),
{
    let mut defs = TypeDefs::new();
    proof {
        lemma_added(*ty, defs@);
    }
    extract_into(ty, &mut defs);
    defs
}

/// The registry after the walk of the first `n` roots, in their order.
pub open spec fn extract_roots(roots: Seq<DataType>, n: nat, defs: Seq<Definition>) -> Seq<
    Definition,
>
    decreases n,
{
    if n == 0 || n > roots.len() {
        defs
    } else {
        extract(roots[n - 1], extract_roots(roots, (n - 1) as nat, defs))
    }
}

/// The walk of some roots keeps what was registered, in its place, and leaves
/// the registry well formed.
pub proof fn lemma_extract_roots(roots: Seq<DataType>, n: nat, defs: Seq<Definition>)
    requires
        well_formed(defs),
    ensures
        extends(defs, extract_roots(roots, n, defs)),
    decreases n,
{
    if n == 0 || n > roots.len() {
    } else {
        lemma_extract_roots(roots, (n - 1) as nat, defs);
        lemma_extract(roots[n - 1], extract_roots(roots, (n - 1) as nat, defs));
    }
}

/// Walks every root in turn into one registry.
pub fn extract_all<'a>(roots: &'a Vec<DataType>) -> (r: TypeDefs<'a>)
    ensures
        r@ == extract_roots(roots@, roots.len() as nat, Seq::empty()),
        r.wf(),
{
    let mut defs = TypeDefs::new();
    let mut i: usize = 0;
    while i < roots.len()
        invariant
            i <= roots.len(),
            defs.wf(),
            defs@ == extract_roots(roots@, i as nat, Seq::empty()),
        decreases roots.len() - i,
    {
        extract_into(&roots[i], &mut defs);
        i += 1;
    }
    defs
}

/// Equal roots give equal registries: the registry is a function of the roots
/// and of nothing else.
pub proof fn law_same_roots_same_registry(a: Seq<DataType>, b: Seq<DataType>)
    requires
        a == b,
    ensures
        extract_roots(a, a.len(), Seq::empty()) == extract_roots(b, b.len(), Seq::empty()),
{
}

/// Whatever the roots, two entries of their registry that share an identity
/// are one and the same definition.
pub proof fn law_shared_identity_same_definition(roots: Seq<DataType>, i: int, j: int)
    requires
        0 <= i < extract_roots(roots, roots.len(), Seq::empty()).len(),
        0 <= j < extract_roots(roots, roots.len(), Seq::empty()).len(),
        extract_roots(roots, roots.len(), Seq::empty())[i].id() == extract_roots(
            roots,
            roots.len(),
            Seq::empty(),
        )[j].id(),
    ensures
        i == j,
        extract_roots(roots, roots.len(), Seq::empty())[i] == extract_roots(
            roots,
            roots.len(),
            Seq::empty(),
        )[j],
{
    lemma_extract_roots(roots, roots.len(), Seq::empty());
}

/// Whatever the roots, no entry of their registry is marked inline.
pub proof fn law_no_inline_entry(roots: Seq<DataType>, i: int)
    requires
        0 <= i < extract_roots(roots, roots.len(), Seq::empty()).len(),
    ensures
        !extract_roots(roots, roots.len(), Seq::empty())[i].inline(),
{
    lemma_extract_roots(roots, roots.len(), Seq::empty());
}

/// After the walk of an object type that is not inline, exactly one entry has
/// its identity, however often the identity occurs inside the type.
pub proof fn law_object_registered_once(o: ObjectType, defs: Seq<Definition>)
    requires
        well_formed(defs),
        !o.inline,
    ensures
        exists|i: int|
            {
                &&& 0 <= i < extract_object(o, defs).len()
                &&& (#[trigger] extract_object(o, defs)[i]).id() == o.id
                &&& forall|j: int|
                    0 <= j < extract_object(o, defs).len() && (#[trigger] extract_object(
                        o,
                        defs,
                    )[j]).id() == o.id ==> j == i
            },
{
    lemma_extract_object(o, defs);
    let after = extract_object(o, defs);
    let i = choose|i: int| 0 <= i < after.len() && (#[trigger] after[i]).id() == o.id;
    assert(forall|j: int| 0 <= j < after.len() && (#[trigger] after[j]).id() == o.id ==> j == i);
}

/// The walk of an object type that is not inline, begun with an empty
/// registry, puts the type itself first, also where a field of the type is
/// the type again.
pub proof fn law_root_object_comes_first(o: ObjectType)
    requires
        !o.inline,
    ensures
        extract_object(o, Seq::empty()).len() >= 1,
        extract_object(o, Seq::empty())[0] == Definition::Object(o),
{
    let first = Seq::<Definition>::empty().push(Definition::Object(o));
    assert(well_formed(first));
    lemma_extract_fields(o.fields, o.fields.len() as nat, first);
    assert(first[0] == Definition::Object(o));
}

} // verus!
