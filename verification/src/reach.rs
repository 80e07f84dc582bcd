//! Which compound types a description contains, and how the registry of a
//! walk relates to them.

use vstd::prelude::*;
use crate::datatype::{
    alike, alike_enum, alike_field, alike_items, alike_object, alike_variant, DataType, EnumType,
    EnumVariant, ObjectField, ObjectType,
};
use crate::typedefs::{
    extract, extract_enum, extract_fields, extract_items, extract_object, extract_roots,
    extract_variant, extract_variants, has_id, well_formed, Definition,
};

verus! {

/// Whether the compound type `d` stands somewhere in `ty`, `ty` included.
pub open spec fn occurs(ty: DataType, d: Definition) -> bool
    decreases ty, 0nat,
{
    match ty {
        DataType::Primitive(_) => false,
        DataType::Object(o) => occurs_object(o, d),
        DataType::Enum(e) => occurs_enum(e, d),
        DataType::List(t) => occurs(*t, d),
        DataType::Nullable(t) => occurs(*t, d),
        DataType::Tuple(items) => occurs_items(items, items.len() as nat, d),
    }
}

/// Whether `d` is the object type `o` or stands in one of its fields.
pub open spec fn occurs_object(o: ObjectType, d: Definition) -> bool
    decreases o, 0nat,
{
    d == Definition::Object(o) || occurs_fields(o.fields, o.fields.len() as nat, d)
}

/// Whether `d` is the enum type `e` or stands in one of its variants.
pub open spec fn occurs_enum(e: EnumType, d: Definition) -> bool
    decreases e, 0nat,
{
    d == Definition::Enum(e) || occurs_variants(e.variants, e.variants.len() as nat, d)
}

/// Whether `d` stands in one of the first `n` fields.
pub open spec fn occurs_fields(fields: Vec<ObjectField>, n: nat, d: Definition) -> bool
    decreases fields, n,
{
    if n == 0 || n > fields.len() {
        false
    } else {
        occurs_fields(fields, (n - 1) as nat, d) || occurs(fields[n - 1].ty, d)
    }
}

/// Whether `d` stands in one of the first `n` items.
pub open spec fn occurs_items(items: Vec<DataType>, n: nat, d: Definition) -> bool
    decreases items, n,
{
    if n == 0 || n > items.len() {
        false
    } else {
        occurs_items(items, (n - 1) as nat, d) || occurs(items[n - 1], d)
    }
}

/// Whether `d` stands in the variant `v`.
pub open spec fn occurs_variant(v: EnumVariant, d: Definition) -> bool
    decreases v, 0nat,
{
    match v {
        EnumVariant::Unit(_) => false,
        EnumVariant::Unnamed(items) => occurs_items(items, items.len() as nat, d),
        EnumVariant::Named(o) => occurs_object(o, d),
    }
}

/// Whether `d` stands in one of the first `n` variants.
pub open spec fn occurs_variants(variants: Vec<EnumVariant>, n: nat, d: Definition) -> bool
    decreases variants, n,
{
    if n == 0 || n > variants.len() {
        false
    } else {
        occurs_variants(variants, (n - 1) as nat, d) || occurs_variant(variants[n - 1], d)
    }
}

/// Whether `d` is the definition `e` or stands inside it.
pub open spec fn occurs_in(e: Definition, d: Definition) -> bool {
    match e {
        Definition::Object(o) => occurs_object(o, d),
        Definition::Enum(en) => occurs_enum(en, d),
    }
}

/// The type that `d` holds is a proper part of `x`.
pub open spec fn under<T>(x: T, d: Definition) -> bool {
    match d {
        Definition::Object(o) => decreases_to!(x => o),
        Definition::Enum(e) => decreases_to!(x => e),
    }
}

/// What stands in a type is a proper part of it.
pub proof fn lemma_under(ty: DataType, d: Definition)
    requires
        occurs(ty, d),
    ensures
        under(ty, d),
    decreases ty, 0nat,
{
    match ty {
        DataType::Primitive(_) => {},
        DataType::Object(o) => lemma_under_object(o, d),
        DataType::Enum(e) => lemma_under_enum(e, d),
        DataType::List(t) => lemma_under(*t, d),
        DataType::Nullable(t) => lemma_under(*t, d),
        DataType::Tuple(items) => lemma_under_items(items, items.len() as nat, d),
    }
}

/// What stands in an object type is the type or a proper part of it.
pub proof fn lemma_under_object(o: ObjectType, d: Definition)
    requires
        occurs_object(o, d),
    ensures
        d == Definition::Object(o) || under(o, d),
    decreases o, 0nat,
{
    if d != Definition::Object(o) {
        lemma_under_fields(o.fields, o.fields.len() as nat, d);
    }
}

/// What stands in an enum type is the type or a proper part of it.
pub proof fn lemma_under_enum(e: EnumType, d: Definition)
    requires
        occurs_enum(e, d),
    ensures
        d == Definition::Enum(e) || under(e, d),
    decreases e, 0nat,
{
    if d != Definition::Enum(e) {
        lemma_under_variants(e.variants, e.variants.len() as nat, d);
    }
}

/// What stands in some fields is a proper part of them.
pub proof fn lemma_under_fields(fields: Vec<ObjectField>, n: nat, d: Definition)
    requires
        occurs_fields(fields, n, d),
    ensures
        under(fields, d),
    decreases fields, n,
{
    if occurs_fields(fields, (n - 1) as nat, d) {
        lemma_under_fields(fields, (n - 1) as nat, d);
    } else {
        lemma_under(fields[n - 1].ty, d);
    }
}

/// What stands in some items is a proper part of them.
pub proof fn lemma_under_items(items: Vec<DataType>, n: nat, d: Definition)
    requires
        occurs_items(items, n, d),
    ensures
        under(items, d),
    decreases items, n,
{
    if occurs_items(items, (n - 1) as nat, d) {
        lemma_under_items(items, (n - 1) as nat, d);
    } else {
        lemma_under(items[n - 1], d);
    }
}

/// What stands in a variant is a proper part of it.
pub proof fn lemma_under_variant(v: EnumVariant, d: Definition)
    requires
        occurs_variant(v, d),
    ensures
        under(v, d),
    decreases v, 0nat,
{
    match v {
        EnumVariant::Unit(_) => {},
        EnumVariant::Unnamed(items) => lemma_under_items(items, items.len() as nat, d),
        EnumVariant::Named(o) => lemma_under_object(o, d),
    }
}

/// What stands in some variants is a proper part of them.
pub proof fn lemma_under_variants(variants: Vec<EnumVariant>, n: nat, d: Definition)
    requires
        occurs_variants(variants, n, d),
    ensures
        under(variants, d),
    decreases variants, n,
{
    if occurs_variants(variants, (n - 1) as nat, d) {
        lemma_under_variants(variants, (n - 1) as nat, d);
    } else {
        lemma_under_variant(variants[n - 1], d);
    }
}

/// `after` begins with `before`, and what it holds beyond is of `part`.
pub open spec fn added_from(
    part: spec_fn(Definition) -> bool,
    before: Seq<Definition>,
    after: Seq<Definition>,
) -> bool {
    &&& before.is_prefix_of(after)
    &&& forall|k: int| before.len() <= k < after.len() ==> part(#[trigger] after[k])
}

/// What the walk of a type registers stands in the type.
pub proof fn lemma_added(ty: DataType, defs: Seq<Definition>)
    ensures
        added_from(|d: Definition| occurs(ty, d), defs, extract(ty, defs)),
    decreases ty, 0nat,
{
    match ty {
        DataType::Primitive(_) => {},
        DataType::Object(o) => lemma_added_object(o, defs),
        DataType::Enum(e) => lemma_added_enum(e, defs),
        DataType::List(t) => lemma_added(*t, defs),
        DataType::Nullable(t) => lemma_added(*t, defs),
        DataType::Tuple(items) => lemma_added_items(items, items.len() as nat, defs),
    }
}

/// What the walk of an object type registers stands in the type.
pub proof fn lemma_added_object(o: ObjectType, defs: Seq<Definition>)
    ensures
        added_from(|d: Definition| occurs_object(o, d), defs, extract_object(o, defs)),
    decreases o, 0nat,
{
    let n = o.fields.len() as nat;
    if o.inline {
        lemma_added_fields(o.fields, n, defs);
    } else if has_id(defs, o.id) {
    } else {
        let first = defs.push(Definition::Object(o));
        lemma_added_fields(o.fields, n, first);
        let after = extract_object(o, defs);
        assert forall|k: int| defs.len() <= k < after.len() implies occurs_object(
            o,
            #[trigger] after[k],
        ) by {
            if k == defs.len() {
                assert(after[k] == first[k]);
            }
        }
    }
}

/// What the walk of an enum type registers stands in the type.
pub proof fn lemma_added_enum(e: EnumType, defs: Seq<Definition>)
    ensures
        added_from(|d: Definition| occurs_enum(e, d), defs, extract_enum(e, defs)),
    decreases e, 0nat,
{
    let n = e.variants.len() as nat;
    if e.inline {
        lemma_added_variants(e.variants, n, defs);
    } else if has_id(defs, e.id) {
    } else {
        let first = defs.push(Definition::Enum(e));
        lemma_added_variants(e.variants, n, first);
        let after = extract_enum(e, defs);
        assert forall|k: int| defs.len() <= k < after.len() implies occurs_enum(
            e,
            #[trigger] after[k],
        ) by {
            if k == defs.len() {
                assert(after[k] == first[k]);
            }
        }
    }
}

/// What the walk of some fields registers stands in them.
pub proof fn lemma_added_fields(fields: Vec<ObjectField>, n: nat, defs: Seq<Definition>)
    ensures
        added_from(|d: Definition| occurs_fields(fields, n, d), defs, extract_fields(fields, n, defs)),
    decreases fields, n,
{
    if n == 0 || n > fields.len() {
    } else {
        let m = (n - 1) as nat;
        lemma_added_fields(fields, m, defs);
        let mid = extract_fields(fields, m, defs);
        lemma_added(fields[n - 1].ty, mid);
        let after = extract_fields(fields, n, defs);
        assert forall|k: int| defs.len() <= k < after.len() implies occurs_fields(
            fields,
            n,
            #[trigger] after[k],
        ) by {
            if k < mid.len() {
                assert(after[k] == mid[k]);
            }
        }
    }
}

/// What the walk of some items registers stands in them.
pub proof fn lemma_added_items(items: Vec<DataType>, n: nat, defs: Seq<Definition>)
    ensures
        added_from(|d: Definition| occurs_items(items, n, d), defs, extract_items(items, n, defs)),
    decreases items, n,
{
    if n == 0 || n > items.len() {
    } else {
        let m = (n - 1) as nat;
        lemma_added_items(items, m, defs);
        let mid = extract_items(items, m, defs);
        lemma_added(items[n - 1], mid);
        let after = extract_items(items, n, defs);
        assert forall|k: int| defs.len() <= k < after.len() implies occurs_items(
            items,
            n,
            #[trigger] after[k],
        ) by {
            if k < mid.len() {
                assert(after[k] == mid[k]);
            }
        }
    }
}

/// What the walk of a variant registers stands in it.
pub proof fn lemma_added_variant(v: EnumVariant, defs: Seq<Definition>)
    ensures
        added_from(|d: Definition| occurs_variant(v, d), defs, extract_variant(v, defs)),
    decreases v, 0nat,
{
    match v {
        EnumVariant::Unit(_) => {},
        EnumVariant::Unnamed(items) => lemma_added_items(items, items.len() as nat, defs),
        EnumVariant::Named(o) => lemma_added_object(o, defs),
    }
}

/// What the walk of some variants registers stands in them.
pub proof fn lemma_added_variants(variants: Vec<EnumVariant>, n: nat, defs: Seq<Definition>)
    ensures
        added_from(
            |d: Definition| occurs_variants(variants, n, d),
            defs,
            extract_variants(variants, n, defs),
        ),
    decreases variants, n,
{
    if n == 0 || n > variants.len() {
    } else {
        let m = (n - 1) as nat;
        lemma_added_variants(variants, m, defs);
        let mid = extract_variants(variants, m, defs);
        lemma_added_variant(variants[n - 1], mid);
        let after = extract_variants(variants, n, defs);
        assert forall|k: int| defs.len() <= k < after.len() implies occurs_variants(
            variants,
            n,
            #[trigger] after[k],
        ) by {
            if k < mid.len() {
                assert(after[k] == mid[k]);
            }
        }
    }
}

/// Among the definitions of `univ` that are not inline, whatever has the
/// identity of another is that other.
pub open spec fn consistent(univ: Set<Definition>) -> bool {
    forall|a: Definition, b: Definition|
        univ.contains(a) && univ.contains(b) && !a.inline() && !b.inline() && a.id() == b.id()
            ==> a == b
}

/// Every type in `e` that is not inline has its identity in `defs`.
pub open spec fn closed(e: Definition, defs: Seq<Definition>) -> bool {
    forall|d: Definition| #[trigger] occurs_in(e, d) && !d.inline() ==> has_id(defs, d.id())
}

/// The state of a registry in the middle of a walk: it is well formed, its
/// entries are of `univ`, and each entry is closed unless the walk is still
/// inside it.
pub open spec fn settled(
    defs: Seq<Definition>,
    univ: Set<Definition>,
    pending: Set<Definition>,
) -> bool {
    &&& well_formed(defs)
    &&& forall|i: int|
        0 <= i < defs.len() ==> univ.contains(#[trigger] defs[i]) && (pending.contains(defs[i])
            || closed(defs[i], defs))
}

/// Every type among those that `part` holds is of `univ` and not pending.
pub open spec fn fresh(
    part: spec_fn(Definition) -> bool,
    univ: Set<Definition>,
    pending: Set<Definition>,
) -> bool {
    forall|d: Definition| #[trigger] part(d) ==> univ.contains(d) && !pending.contains(d)
}

/// What a walk leaves: the registry is settled again, begins with what it
/// was, and has the identity of every type of `part` that is not inline.
pub open spec fn walked(
    part: spec_fn(Definition) -> bool,
    before: Seq<Definition>,
    after: Seq<Definition>,
    univ: Set<Definition>,
    pending: Set<Definition>,
) -> bool {
    &&& settled(after, univ, pending)
    &&& before.is_prefix_of(after)
    &&& forall|d: Definition| #[trigger] part(d) && !d.inline() ==> has_id(after, d.id())
}

/// An identity that a registry has, a longer registry has too; and an entry
/// that is closed stays closed.
pub proof fn lemma_grow(a: Seq<Definition>, b: Seq<Definition>)
    requires
        a.is_prefix_of(b),
    ensures
        forall|id: u64| has_id(a, id) ==> has_id(b, id),
        forall|e: Definition| closed(e, a) ==> closed(e, b),
{
    assert forall|id: u64| has_id(a, id) implies has_id(b, id) by {
        let i = choose|i: int| 0 <= i < a.len() && (#[trigger] a[i]).id() == id;
        assert(b[i] == a[i]);
    }
}

/// The walk of a type, under consistent identities, registers every type in
/// it that is not inline.
pub proof fn lemma_walk(
    ty: DataType,
    defs: Seq<Definition>,
    univ: Set<Definition>,
    pending: Set<Definition>,
)
    requires
        consistent(univ),
        settled(defs, univ, pending),
        fresh(|d: Definition| occurs(ty, d), univ, pending),
    ensures
        walked(|d: Definition| occurs(ty, d), defs, extract(ty, defs), univ, pending),
    decreases ty, 0nat,
{
    match ty {
        DataType::Primitive(_) => {},
        DataType::Object(o) => {
            assert(fresh(|d: Definition| occurs_object(o, d), univ, pending)) by {
                assert forall|d: Definition| occurs_object(o, d) implies univ.contains(d)
                    && !pending.contains(d) by {
                    assert((|d: Definition| occurs(ty, d))(d));
                }
            }
            lemma_walk_object(o, defs, univ, pending);
            let after = extract(ty, defs);
            assert forall|d: Definition| occurs(ty, d) && !d.inline() implies has_id(
                after,
                d.id(),
            ) by {
                assert((|d: Definition| occurs_object(o, d))(d));
            }
        },
        DataType::Enum(e) => {
            assert(fresh(|d: Definition| occurs_enum(e, d), univ, pending)) by {
                assert forall|d: Definition| occurs_enum(e, d) implies univ.contains(d)
                    && !pending.contains(d) by {
                    assert((|d: Definition| occurs(ty, d))(d));
                }
            }
            lemma_walk_enum(e, defs, univ, pending);
            let after = extract(ty, defs);
            assert forall|d: Definition| occurs(ty, d) && !d.inline() implies has_id(
                after,
                d.id(),
            ) by {
                assert((|d: Definition| occurs_enum(e, d))(d));
            }
        },
        DataType::List(t) => {
            assert(fresh(|d: Definition| occurs(*t, d), univ, pending)) by {
                assert forall|d: Definition| occurs(*t, d) implies univ.contains(d)
                    && !pending.contains(d) by {
                    assert((|d: Definition| occurs(ty, d))(d));
                }
            }
            lemma_walk(*t, defs, univ, pending);
            let after = extract(ty, defs);
            assert forall|d: Definition| occurs(ty, d) && !d.inline() implies has_id(
                after,
                d.id(),
            ) by {
                assert((|d: Definition| occurs(*t, d))(d));
            }
        },
        DataType::Nullable(t) => {
            assert(fresh(|d: Definition| occurs(*t, d), univ, pending)) by {
                assert forall|d: Definition| occurs(*t, d) implies univ.contains(d)
                    && !pending.contains(d) by {
                    assert((|d: Definition| occurs(ty, d))(d));
                }
            }
            lemma_walk(*t, defs, univ, pending);
            let after = extract(ty, defs);
            assert forall|d: Definition| occurs(ty, d) && !d.inline() implies has_id(
                after,
                d.id(),
            ) by {
                assert((|d: Definition| occurs(*t, d))(d));
            }
        },
        DataType::Tuple(items) => {
            let n = items.len() as nat;
            assert(fresh(|d: Definition| occurs_items(items, n, d), univ, pending)) by {
                assert forall|d: Definition| occurs_items(items, n, d) implies univ.contains(d)
                    && !pending.contains(d) by {
                    assert((|d: Definition| occurs(ty, d))(d));
                }
            }
            lemma_walk_items(items, n, defs, univ, pending);
            let after = extract(ty, defs);
            assert forall|d: Definition| occurs(ty, d) && !d.inline() implies has_id(
                after,
                d.id(),
            ) by {
                assert((|d: Definition| occurs_items(items, n, d))(d));
            }
        },
    }
}

/// The walk of an object type, under consistent identities, registers every
/// type in it that is not inline.
pub proof fn lemma_walk_object(
    o: ObjectType,
    defs: Seq<Definition>,
    univ: Set<Definition>,
    pending: Set<Definition>,
)
    requires
        consistent(univ),
        settled(defs, univ, pending),
        fresh(|d: Definition| occurs_object(o, d), univ, pending),
    ensures
        walked(|d: Definition| occurs_object(o, d), defs, extract_object(o, defs), univ, pending),
    decreases o, 0nat,
{
    let me = Definition::Object(o);
    let n = o.fields.len() as nat;
    let after = extract_object(o, defs);
    assert((|d: Definition| occurs_object(o, d))(me));
    if o.inline {
        assert(fresh(|d: Definition| occurs_fields(o.fields, n, d), univ, pending)) by {
            assert forall|d: Definition| occurs_fields(o.fields, n, d) implies univ.contains(d)
                && !pending.contains(d) by {
                assert((|d: Definition| occurs_object(o, d))(d));
            }
        }
        lemma_walk_fields(o.fields, n, defs, univ, pending);
        assert forall|d: Definition| occurs_object(o, d) && !d.inline() implies has_id(
            after,
            d.id(),
        ) by {
            assert((|d: Definition| occurs_fields(o.fields, n, d))(d));
        }
    } else if has_id(defs, o.id) {
        let i = choose|i: int| 0 <= i < defs.len() && (#[trigger] defs[i]).id() == o.id;
        assert(univ.contains(me) && univ.contains(defs[i]) && me.id() == defs[i].id()
            && !me.inline() && !defs[i].inline());
        assert(defs[i] == me);
        assert(closed(me, defs));
        assert forall|d: Definition| occurs_object(o, d) && !d.inline() implies has_id(
            defs,
            d.id(),
        ) by {
            assert(occurs_in(me, d));
        }
    } else {
        let first = defs.push(me);
        let inside = pending.insert(me);
        lemma_grow(defs, first);
        assert(settled(first, univ, inside));
        assert(fresh(|d: Definition| occurs_fields(o.fields, n, d), univ, inside)) by {
            assert forall|d: Definition| occurs_fields(o.fields, n, d) implies univ.contains(d)
                && !inside.contains(d) by {
                assert((|d: Definition| occurs_object(o, d))(d));
                lemma_under_fields(o.fields, n, d);
            }
        }
        lemma_walk_fields(o.fields, n, first, univ, inside);
        assert(after[defs.len() as int] == first[defs.len() as int]);
        assert forall|d: Definition| occurs_object(o, d) && !d.inline() implies has_id(
            after,
            d.id(),
        ) by {
            if d != me {
                assert((|d: Definition| occurs_fields(o.fields, n, d))(d));
            }
        }
        assert(closed(me, after)) by {
            assert forall|d: Definition| occurs_in(me, d) && !d.inline() implies has_id(
                after,
                d.id(),
            ) by {
                assert(occurs_object(o, d));
            }
        }
    }
}

/// The walk of an enum type, under consistent identities, registers every
/// type in it that is not inline.
pub proof fn lemma_walk_enum(
    e: EnumType,
    defs: Seq<Definition>,
    univ: Set<Definition>,
    pending: Set<Definition>,
)
    requires
        consistent(univ),
        settled(defs, univ, pending),
        fresh(|d: Definition| occurs_enum(e, d), univ, pending),
    ensures
        walked(|d: Definition| occurs_enum(e, d), defs, extract_enum(e, defs), univ, pending),
    decreases e, 0nat,
{
    let me = Definition::Enum(e);
    let n = e.variants.len() as nat;
    let after = extract_enum(e, defs);
    assert((|d: Definition| occurs_enum(e, d))(me));
    if e.inline {
        assert(fresh(|d: Definition| occurs_variants(e.variants, n, d), univ, pending)) by {
            assert forall|d: Definition| occurs_variants(e.variants, n, d) implies univ.contains(
                d,
            ) && !pending.contains(d) by {
                assert((|d: Definition| occurs_enum(e, d))(d));
            }
        }
        lemma_walk_variants(e.variants, n, defs, univ, pending);
        assert forall|d: Definition| occurs_enum(e, d) && !d.inline() implies has_id(
            after,
            d.id(),
        ) by {
            assert((|d: Definition| occurs_variants(e.variants, n, d))(d));
        }
    } else if has_id(defs, e.id) {
        let i = choose|i: int| 0 <= i < defs.len() && (#[trigger] defs[i]).id() == e.id;
        assert(univ.contains(me) && univ.contains(defs[i]) && me.id() == defs[i].id()
            && !me.inline() && !defs[i].inline());
        assert(defs[i] == me);
        assert(closed(me, defs));
        assert forall|d: Definition| occurs_enum(e, d) && !d.inline() implies has_id(
            defs,
            d.id(),
        ) by {
            assert(occurs_in(me, d));
        }
    } else {
        let first = defs.push(me);
        let inside = pending.insert(me);
        lemma_grow(defs, first);
        assert(settled(first, univ, inside));
        assert(fresh(|d: Definition| occurs_variants(e.variants, n, d), univ, inside)) by {
            assert forall|d: Definition| occurs_variants(e.variants, n, d) implies univ.contains(
                d,
            ) && !inside.contains(d) by {
                assert((|d: Definition| occurs_enum(e, d))(d));
                lemma_under_variants(e.variants, n, d);
            }
        }
        lemma_walk_variants(e.variants, n, first, univ, inside);
        assert(after[defs.len() as int] == first[defs.len() as int]);
        assert forall|d: Definition| occurs_enum(e, d) && !d.inline() implies has_id(
            after,
            d.id(),
        ) by {
            if d != me {
                assert((|d: Definition| occurs_variants(e.variants, n, d))(d));
            }
        }
        assert(closed(me, after)) by {
            assert forall|d: Definition| occurs_in(me, d) && !d.inline() implies has_id(
                after,
                d.id(),
            ) by {
                assert(occurs_enum(e, d));
            }
        }
    }
}

/// The walk of some fields, under consistent identities, registers every
/// type in them that is not inline.
pub proof fn lemma_walk_fields(
    fields: Vec<ObjectField>,
    n: nat,
    defs: Seq<Definition>,
    univ: Set<Definition>,
    pending: Set<Definition>,
)
    requires
        consistent(univ),
        settled(defs, univ, pending),
        fresh(|d: Definition| occurs_fields(fields, n, d), univ, pending),
    ensures
        walked(
            |d: Definition| occurs_fields(fields, n, d),
            defs,
            extract_fields(fields, n, defs),
            univ,
            pending,
        ),
    decreases fields, n,
{
    if n == 0 || n > fields.len() {
    } else {
        let m = (n - 1) as nat;
        let last = fields[n - 1].ty;
        assert(fresh(|d: Definition| occurs_fields(fields, m, d), univ, pending)) by {
            assert forall|d: Definition| occurs_fields(fields, m, d) implies univ.contains(d)
                && !pending.contains(d) by {
                assert((|d: Definition| occurs_fields(fields, n, d))(d));
            }
        }
        lemma_walk_fields(fields, m, defs, univ, pending);
        let mid = extract_fields(fields, m, defs);
        assert(fresh(|d: Definition| occurs(last, d), univ, pending)) by {
            assert forall|d: Definition| occurs(last, d) implies univ.contains(d)
                && !pending.contains(d) by {
                assert((|d: Definition| occurs_fields(fields, n, d))(d));
            }
        }
        lemma_walk(last, mid, univ, pending);
        let after = extract_fields(fields, n, defs);
        lemma_grow(mid, after);
        assert forall|d: Definition| occurs_fields(fields, n, d) && !d.inline() implies has_id(
            after,
            d.id(),
        ) by {
            if occurs_fields(fields, m, d) {
                assert((|d: Definition| occurs_fields(fields, m, d))(d));
            } else {
                assert((|d: Definition| occurs(last, d))(d));
            }
        }
    }
}

/// The walk of some items, under consistent identities, registers every type
/// in them that is not inline.
pub proof fn lemma_walk_items(
    items: Vec<DataType>,
    n: nat,
    defs: Seq<Definition>,
    univ: Set<Definition>,
    pending: Set<Definition>,
)
    requires
        consistent(univ),
        settled(defs, univ, pending),
        fresh(|d: Definition| occurs_items(items, n, d), univ, pending),
    ensures
        walked(
            |d: Definition| occurs_items(items, n, d),
            defs,
            extract_items(items, n, defs),
            univ,
            pending,
        ),
    decreases items, n,
{
    if n == 0 || n > items.len() {
    } else {
        let m = (n - 1) as nat;
        let last = items[n - 1];
        assert(fresh(|d: Definition| occurs_items(items, m, d), univ, pending)) by {
            assert forall|d: Definition| occurs_items(items, m, d) implies univ.contains(d)
                && !pending.contains(d) by {
                assert((|d: Definition| occurs_items(items, n, d))(d));
            }
        }
        lemma_walk_items(items, m, defs, univ, pending);
        let mid = extract_items(items, m, defs);
        assert(fresh(|d: Definition| occurs(last, d), univ, pending)) by {
            assert forall|d: Definition| occurs(last, d) implies univ.contains(d)
                && !pending.contains(d) by {
                assert((|d: Definition| occurs_items(items, n, d))(d));
            }
        }
        lemma_walk(last, mid, univ, pending);
        let after = extract_items(items, n, defs);
        lemma_grow(mid, after);
        assert forall|d: Definition| occurs_items(items, n, d) && !d.inline() implies has_id(
            after,
            d.id(),
        ) by {
            if occurs_items(items, m, d) {
                assert((|d: Definition| occurs_items(items, m, d))(d));
            } else {
                assert((|d: Definition| occurs(last, d))(d));
            }
        }
    }
}

/// The walk of a variant, under consistent identities, registers every type
/// in it that is not inline.
pub proof fn lemma_walk_variant(
    v: EnumVariant,
    defs: Seq<Definition>,
    univ: Set<Definition>,
    pending: Set<Definition>,
)
    requires
        consistent(univ),
        settled(defs, univ, pending),
        fresh(|d: Definition| occurs_variant(v, d), univ, pending),
    ensures
        walked(|d: Definition| occurs_variant(v, d), defs, extract_variant(v, defs), univ, pending),
    decreases v, 0nat,
{
    match v {
        EnumVariant::Unit(_) => {},
        EnumVariant::Unnamed(items) => {
            let n = items.len() as nat;
            assert(fresh(|d: Definition| occurs_items(items, n, d), univ, pending)) by {
                assert forall|d: Definition| occurs_items(items, n, d) implies univ.contains(d)
                    && !pending.contains(d) by {
                    assert((|d: Definition| occurs_variant(v, d))(d));
                }
            }
            lemma_walk_items(items, n, defs, univ, pending);
            assert forall|d: Definition| occurs_variant(v, d) && !d.inline() implies has_id(
                extract_variant(v, defs),
                d.id(),
            ) by {
                assert((|d: Definition| occurs_items(items, n, d))(d));
            }
        },
        EnumVariant::Named(o) => {
            assert(fresh(|d: Definition| occurs_object(o, d), univ, pending)) by {
                assert forall|d: Definition| occurs_object(o, d) implies univ.contains(d)
                    && !pending.contains(d) by {
                    assert((|d: Definition| occurs_variant(v, d))(d));
                }
            }
            lemma_walk_object(o, defs, univ, pending);
            assert forall|d: Definition| occurs_variant(v, d) && !d.inline() implies has_id(
                extract_variant(v, defs),
                d.id(),
            ) by {
                assert((|d: Definition| occurs_object(o, d))(d));
            }
        },
    }
}

/// The walk of some variants, under consistent identities, registers every
/// type in them that is not inline.
pub proof fn lemma_walk_variants(
    variants: Vec<EnumVariant>,
    n: nat,
    defs: Seq<Definition>,
    univ: Set<Definition>,
    pending: Set<Definition>,
)
    requires
        consistent(univ),
        settled(defs, univ, pending),
        fresh(|d: Definition| occurs_variants(variants, n, d), univ, pending),
    ensures
        walked(
            |d: Definition| occurs_variants(variants, n, d),
            defs,
            extract_variants(variants, n, defs),
            univ,
            pending,
        ),
    decreases variants, n,
{
    if n == 0 || n > variants.len() {
    } else {
        let m = (n - 1) as nat;
        let last = variants[n - 1];
        assert(fresh(|d: Definition| occurs_variants(variants, m, d), univ, pending)) by {
            assert forall|d: Definition| occurs_variants(variants, m, d) implies univ.contains(d)
                && !pending.contains(d) by {
                assert((|d: Definition| occurs_variants(variants, n, d))(d));
            }
        }
        lemma_walk_variants(variants, m, defs, univ, pending);
        let mid = extract_variants(variants, m, defs);
        assert(fresh(|d: Definition| occurs_variant(last, d), univ, pending)) by {
            assert forall|d: Definition| occurs_variant(last, d) implies univ.contains(d)
                && !pending.contains(d) by {
                assert((|d: Definition| occurs_variants(variants, n, d))(d));
            }
        }
        lemma_walk_variant(last, mid, univ, pending);
        let after = extract_variants(variants, n, defs);
        lemma_grow(mid, after);
        assert forall|d: Definition| occurs_variants(variants, n, d) && !d.inline() implies has_id(
            after,
            d.id(),
        ) by {
            if occurs_variants(variants, m, d) {
                assert((|d: Definition| occurs_variants(variants, m, d))(d));
            } else {
                assert((|d: Definition| occurs_variant(last, d))(d));
            }
        }
    }
}

/// Whether `d` stands in one of the first `n` roots.
pub open spec fn occurs_roots(roots: Seq<DataType>, n: nat, d: Definition) -> bool {
    exists|i: int| 0 <= i < n && i < roots.len() && occurs(#[trigger] roots[i], d)
}

/// The compound types that stand in `roots`.
pub open spec fn reachable(roots: Seq<DataType>) -> Set<Definition> {
    Set::new(|d: Definition| occurs_roots(roots, roots.len(), d))
}

/// The walk of some roots, under consistent identities, registers every type
/// in them that is not inline, and only types of `univ`.
pub proof fn lemma_walk_roots(roots: Seq<DataType>, n: nat, univ: Set<Definition>)
    requires
        n <= roots.len(),
        consistent(univ),
        forall|d: Definition| occurs_roots(roots, n, d) ==> univ.contains(d),
    ensures
        settled(extract_roots(roots, n, Seq::empty()), univ, Set::empty()),
        forall|d: Definition|
            occurs_roots(roots, n, d) && !d.inline() ==> has_id(
                extract_roots(roots, n, Seq::empty()),
                d.id(),
            ),
    decreases n,
{
    let none = Set::<Definition>::empty();
    if n == 0 {
    } else {
        let m = (n - 1) as nat;
        let last = roots[n - 1];
        assert forall|d: Definition| occurs_roots(roots, m, d) implies univ.contains(d) by {
            assert(occurs_roots(roots, n, d));
        }
        lemma_walk_roots(roots, m, univ);
        let mid = extract_roots(roots, m, Seq::empty());
        assert(fresh(|d: Definition| occurs(last, d), univ, none)) by {
            assert forall|d: Definition| occurs(last, d) implies univ.contains(d) && !none.contains(
                d,
            ) by {
                assert(occurs_roots(roots, n, d));
            }
        }
        lemma_walk(last, mid, univ, none);
        let after = extract_roots(roots, n, Seq::empty());
        lemma_grow(mid, after);
        assert forall|d: Definition| occurs_roots(roots, n, d) && !d.inline() implies has_id(
            after,
            d.id(),
        ) by {
            let i = choose|i: int| 0 <= i < n && i < roots.len() && occurs(#[trigger] roots[i], d);
            if i < m {
                assert(occurs_roots(roots, m, d));
            } else {
                assert((|d: Definition| occurs(last, d))(d));
            }
        }
    }
}

/// Every compound type that stands in the roots and is not inline has its
/// identity in their registry, provided that the types in the roots that
/// share an identity are equal.
pub proof fn law_registry_holds_all_that_is_reachable(roots: Seq<DataType>, d: Definition)
    requires
        consistent(reachable(roots)),
        reachable(roots).contains(d),
        !d.inline(),
    ensures
        has_id(extract_roots(roots, roots.len(), Seq::empty()), d.id()),
{
    lemma_walk_roots(roots, roots.len(), reachable(roots));
}

/// The registries of two sets of roots agree: where an entry of the one and
/// an entry of the other share an identity, they are equal, provided that
/// the types in all these roots that share an identity are equal.
pub proof fn law_registries_agree(a: Seq<DataType>, b: Seq<DataType>, i: int, j: int)
    requires
        consistent(reachable(a).union(reachable(b))),
        0 <= i < extract_roots(a, a.len(), Seq::empty()).len(),
        0 <= j < extract_roots(b, b.len(), Seq::empty()).len(),
        extract_roots(a, a.len(), Seq::empty())[i].id() == extract_roots(
            b,
            b.len(),
            Seq::empty(),
        )[j].id(),
    ensures
        extract_roots(a, a.len(), Seq::empty())[i] == extract_roots(b, b.len(), Seq::empty())[j],
{
    let univ = reachable(a).union(reachable(b));
    lemma_walk_roots(a, a.len(), univ);
    lemma_walk_roots(b, b.len(), univ);
}

/// What the walk of the first `n` roots registers stands in them.
pub proof fn lemma_added_roots(roots: Seq<DataType>, n: nat)
    requires
        n <= roots.len(),
    ensures
        forall|k: int|
            0 <= k < extract_roots(roots, n, Seq::empty()).len() ==> occurs_roots(
                roots,
                n,
                #[trigger] extract_roots(roots, n, Seq::empty())[k],
            ),
    decreases n,
{
    if n > 0 {
        let m = (n - 1) as nat;
        lemma_added_roots(roots, m);
        let mid = extract_roots(roots, m, Seq::empty());
        lemma_added(roots[n - 1], mid);
        let after = extract_roots(roots, n, Seq::empty());
        assert forall|k: int| 0 <= k < after.len() implies occurs_roots(
            roots,
            n,
            #[trigger] after[k],
        ) by {
            if k < mid.len() {
                assert(after[k] == mid[k]);
                assert(occurs_roots(roots, m, mid[k]));
            } else {
                assert(occurs(roots[n - 1], after[k]));
            }
        }
    }
}

/// Whatever the roots, every entry of their registry is a compound type that
/// stands in them.
pub proof fn law_registry_holds_only_what_is_reachable(roots: Seq<DataType>, i: int)
    requires
        0 <= i < extract_roots(roots, roots.len(), Seq::empty()).len(),
    ensures
        reachable(roots).contains(extract_roots(roots, roots.len(), Seq::empty())[i]),
{
    lemma_added_roots(roots, roots.len());
}

/// Whether the walk of `ty` meets only identities that `defs` has: each
/// compound type that is not inline and is reached through nothing but
/// lists, nullables, tuples and inline types is registered.
pub open spec fn met(ty: DataType, defs: Seq<Definition>) -> bool
    decreases ty, 0nat,
{
    match ty {
        DataType::Primitive(_) => true,
        DataType::Object(o) => met_object(o, defs),
        DataType::Enum(e) => met_enum(e, defs),
        DataType::List(t) => met(*t, defs),
        DataType::Nullable(t) => met(*t, defs),
        DataType::Tuple(items) => met_items(items, items.len() as nat, defs),
    }
}

/// Whether the walk of the object type `o` meets only identities that `defs`
/// has.
pub open spec fn met_object(o: ObjectType, defs: Seq<Definition>) -> bool
    decreases o, 0nat,
{
    if o.inline {
        met_fields(o.fields, o.fields.len() as nat, defs)
    } else {
        has_id(defs, o.id)
    }
}

/// Whether the walk of the enum type `e` meets only identities that `defs`
/// has.
pub open spec fn met_enum(e: EnumType, defs: Seq<Definition>) -> bool
    decreases e, 0nat,
{
    if e.inline {
        met_variants(e.variants, e.variants.len() as nat, defs)
    } else {
        has_id(defs, e.id)
    }
}

/// Whether the walk of the first `n` fields meets only identities that
/// `defs` has.
pub open spec fn met_fields(fields: Vec<ObjectField>, n: nat, defs: Seq<Definition>) -> bool
    decreases fields, n,
{
    if n == 0 || n > fields.len() {
        true
    } else {
        met_fields(fields, (n - 1) as nat, defs) && met(fields[n - 1].ty, defs)
    }
}

/// Whether the walk of the first `n` items meets only identities that `defs`
/// has.
pub open spec fn met_items(items: Vec<DataType>, n: nat, defs: Seq<Definition>) -> bool
    decreases items, n,
{
    if n == 0 || n > items.len() {
        true
    } else {
        met_items(items, (n - 1) as nat, defs) && met(items[n - 1], defs)
    }
}

/// Whether the walk of the variant `v` meets only identities that `defs`
/// has.
pub open spec fn met_variant(v: EnumVariant, defs: Seq<Definition>) -> bool
    decreases v, 0nat,
{
    match v {
        EnumVariant::Unit(_) => true,
        EnumVariant::Unnamed(items) => met_items(items, items.len() as nat, defs),
        EnumVariant::Named(o) => met_object(o, defs),
    }
}

/// Whether the walk of the first `n` variants meets only identities that
/// `defs` has.
pub open spec fn met_variants(variants: Vec<EnumVariant>, n: nat, defs: Seq<Definition>) -> bool
    decreases variants, n,
{
    if n == 0 || n > variants.len() {
        true
    } else {
        met_variants(variants, (n - 1) as nat, defs) && met_variant(variants[n - 1], defs)
    }
}

/// A walk that meets only registered identities changes nothing.
pub proof fn lemma_met_still(ty: DataType, defs: Seq<Definition>)
    requires
        met(ty, defs),
    ensures
        extract(ty, defs) == defs,
    decreases ty, 0nat,
{
    match ty {
        DataType::Primitive(_) => {},
        DataType::Object(o) => lemma_met_still_object(o, defs),
        DataType::Enum(e) => lemma_met_still_enum(e, defs),
        DataType::List(t) => lemma_met_still(*t, defs),
        DataType::Nullable(t) => lemma_met_still(*t, defs),
        DataType::Tuple(items) => lemma_met_still_items(items, items.len() as nat, defs),
    }
}

/// A walk of an object type that meets only registered identities changes
/// nothing.
pub proof fn lemma_met_still_object(o: ObjectType, defs: Seq<Definition>)
    requires
        met_object(o, defs),
    ensures
        extract_object(o, defs) == defs,
    decreases o, 0nat,
{
    if o.inline {
        lemma_met_still_fields(o.fields, o.fields.len() as nat, defs);
    }
}

/// A walk of an enum type that meets only registered identities changes
/// nothing.
pub proof fn lemma_met_still_enum(e: EnumType, defs: Seq<Definition>)
    requires
        met_enum(e, defs),
    ensures
        extract_enum(e, defs) == defs,
    decreases e, 0nat,
{
    if e.inline {
        lemma_met_still_variants(e.variants, e.variants.len() as nat, defs);
    }
}

/// A walk of fields that meets only registered identities changes nothing.
pub proof fn lemma_met_still_fields(fields: Vec<ObjectField>, n: nat, defs: Seq<Definition>)
    requires
        met_fields(fields, n, defs),
    ensures
        extract_fields(fields, n, defs) == defs,
    decreases fields, n,
{
    if n == 0 || n > fields.len() {
    } else {
        lemma_met_still_fields(fields, (n - 1) as nat, defs);
        lemma_met_still(fields[n - 1].ty, defs);
    }
}

/// A walk of items that meets only registered identities changes nothing.
pub proof fn lemma_met_still_items(items: Vec<DataType>, n: nat, defs: Seq<Definition>)
    requires
        met_items(items, n, defs),
    ensures
        extract_items(items, n, defs) == defs,
    decreases items, n,
{
    if n == 0 || n > items.len() {
    } else {
        lemma_met_still_items(items, (n - 1) as nat, defs);
        lemma_met_still(items[n - 1], defs);
    }
}

/// A walk of a variant that meets only registered identities changes
/// nothing.
pub proof fn lemma_met_still_variant(v: EnumVariant, defs: Seq<Definition>)
    requires
        met_variant(v, defs),
    ensures
        extract_variant(v, defs) == defs,
    decreases v, 0nat,
{
    match v {
        EnumVariant::Unit(_) => {},
        EnumVariant::Unnamed(items) => lemma_met_still_items(items, items.len() as nat, defs),
        EnumVariant::Named(o) => lemma_met_still_object(o, defs),
    }
}

/// A walk of variants that meets only registered identities changes nothing.
pub proof fn lemma_met_still_variants(variants: Vec<EnumVariant>, n: nat, defs: Seq<Definition>)
    requires
        met_variants(variants, n, defs),
    ensures
        extract_variants(variants, n, defs) == defs,
    decreases variants, n,
{
    if n == 0 || n > variants.len() {
    } else {
        lemma_met_still_variants(variants, (n - 1) as nat, defs);
        lemma_met_still_variant(variants[n - 1], defs);
    }
}

/// What a walk meets registered in a registry, it meets registered in a
/// longer one.
pub proof fn lemma_met_grow(ty: DataType, a: Seq<Definition>, b: Seq<Definition>)
    requires
        met(ty, a),
        a.is_prefix_of(b),
    ensures
        met(ty, b),
    decreases ty, 0nat,
{
    match ty {
        DataType::Primitive(_) => {},
        DataType::Object(o) => lemma_met_grow_object(o, a, b),
        DataType::Enum(e) => lemma_met_grow_enum(e, a, b),
        DataType::List(t) => lemma_met_grow(*t, a, b),
        DataType::Nullable(t) => lemma_met_grow(*t, a, b),
        DataType::Tuple(items) => lemma_met_grow_items(items, items.len() as nat, a, b),
    }
}

/// The same for an object type.
pub proof fn lemma_met_grow_object(o: ObjectType, a: Seq<Definition>, b: Seq<Definition>)
    requires
        met_object(o, a),
        a.is_prefix_of(b),
    ensures
        met_object(o, b),
    decreases o, 0nat,
{
    if o.inline {
        lemma_met_grow_fields(o.fields, o.fields.len() as nat, a, b);
    } else {
        lemma_grow(a, b);
    }
}

/// The same for an enum type.
pub proof fn lemma_met_grow_enum(e: EnumType, a: Seq<Definition>, b: Seq<Definition>)
    requires
        met_enum(e, a),
        a.is_prefix_of(b),
    ensures
        met_enum(e, b),
    decreases e, 0nat,
{
    if e.inline {
        lemma_met_grow_variants(e.variants, e.variants.len() as nat, a, b);
    } else {
        lemma_grow(a, b);
    }
}

/// The same for fields.
pub proof fn lemma_met_grow_fields(
    fields: Vec<ObjectField>,
    n: nat,
    a: Seq<Definition>,
    b: Seq<Definition>,
)
    requires
        met_fields(fields, n, a),
        a.is_prefix_of(b),
    ensures
        met_fields(fields, n, b),
    decreases fields, n,
{
    if n == 0 || n > fields.len() {
    } else {
        lemma_met_grow_fields(fields, (n - 1) as nat, a, b);
        lemma_met_grow(fields[n - 1].ty, a, b);
    }
}

/// The same for items.
pub proof fn lemma_met_grow_items(
    items: Vec<DataType>,
    n: nat,
    a: Seq<Definition>,
    b: Seq<Definition>,
)
    requires
        met_items(items, n, a),
        a.is_prefix_of(b),
    ensures
        met_items(items, n, b),
    decreases items, n,
{
    if n == 0 || n > items.len() {
    } else {
        lemma_met_grow_items(items, (n - 1) as nat, a, b);
        lemma_met_grow(items[n - 1], a, b);
    }
}

/// The same for a variant.
pub proof fn lemma_met_grow_variant(v: EnumVariant, a: Seq<Definition>, b: Seq<Definition>)
    requires
        met_variant(v, a),
        a.is_prefix_of(b),
    ensures
        met_variant(v, b),
    decreases v, 0nat,
{
    match v {
        EnumVariant::Unit(_) => {},
        EnumVariant::Unnamed(items) => lemma_met_grow_items(items, items.len() as nat, a, b),
        EnumVariant::Named(o) => lemma_met_grow_object(o, a, b),
    }
}

/// The same for variants.
pub proof fn lemma_met_grow_variants(
    variants: Vec<EnumVariant>,
    n: nat,
    a: Seq<Definition>,
    b: Seq<Definition>,
)
    requires
        met_variants(variants, n, a),
        a.is_prefix_of(b),
    ensures
        met_variants(variants, n, b),
    decreases variants, n,
{
    if n == 0 || n > variants.len() {
    } else {
        lemma_met_grow_variants(variants, (n - 1) as nat, a, b);
        lemma_met_grow_variant(variants[n - 1], a, b);
    }
}

/// After its walk, a type meets only registered identities.
pub proof fn lemma_met_after(ty: DataType, defs: Seq<Definition>)
    ensures
        met(ty, extract(ty, defs)),
    decreases ty, 0nat,
{
    match ty {
        DataType::Primitive(_) => {},
        DataType::Object(o) => lemma_met_after_object(o, defs),
        DataType::Enum(e) => lemma_met_after_enum(e, defs),
        DataType::List(t) => lemma_met_after(*t, defs),
        DataType::Nullable(t) => lemma_met_after(*t, defs),
        DataType::Tuple(items) => lemma_met_after_items(items, items.len() as nat, defs),
    }
}

/// The same for an object type.
pub proof fn lemma_met_after_object(o: ObjectType, defs: Seq<Definition>)
    ensures
        met_object(o, extract_object(o, defs)),
    decreases o, 0nat,
{
    let n = o.fields.len() as nat;
    if o.inline {
        lemma_met_after_fields(o.fields, n, defs);
    } else if has_id(defs, o.id) {
    } else {
        let first = defs.push(Definition::Object(o));
        lemma_added_fields(o.fields, n, first);
        let after = extract_object(o, defs);
        assert(after[defs.len() as int] == first[defs.len() as int]);
    }
}

/// The same for an enum type.
pub proof fn lemma_met_after_enum(e: EnumType, defs: Seq<Definition>)
    ensures
        met_enum(e, extract_enum(e, defs)),
    decreases e, 0nat,
{
    let n = e.variants.len() as nat;
    if e.inline {
        lemma_met_after_variants(e.variants, n, defs);
    } else if has_id(defs, e.id) {
    } else {
        let first = defs.push(Definition::Enum(e));
        lemma_added_variants(e.variants, n, first);
        let after = extract_enum(e, defs);
        assert(after[defs.len() as int] == first[defs.len() as int]);
    }
}

/// The same for fields.
pub proof fn lemma_met_after_fields(fields: Vec<ObjectField>, n: nat, defs: Seq<Definition>)
    ensures
        met_fields(fields, n, extract_fields(fields, n, defs)),
    decreases fields, n,
{
    if n == 0 || n > fields.len() {
    } else {
        let m = (n - 1) as nat;
        let mid = extract_fields(fields, m, defs);
        lemma_met_after_fields(fields, m, defs);
        lemma_met_after(fields[n - 1].ty, mid);
        lemma_added(fields[n - 1].ty, mid);
        lemma_met_grow_fields(fields, m, mid, extract_fields(fields, n, defs));
    }
}

/// The same for items.
pub proof fn lemma_met_after_items(items: Vec<DataType>, n: nat, defs: Seq<Definition>)
    ensures
        met_items(items, n, extract_items(items, n, defs)),
    decreases items, n,
{
    if n == 0 || n > items.len() {
    } else {
        let m = (n - 1) as nat;
        let mid = extract_items(items, m, defs);
        lemma_met_after_items(items, m, defs);
        lemma_met_after(items[n - 1], mid);
        lemma_added(items[n - 1], mid);
        lemma_met_grow_items(items, m, mid, extract_items(items, n, defs));
    }
}

/// The same for a variant.
pub proof fn lemma_met_after_variant(v: EnumVariant, defs: Seq<Definition>)
    ensures
        met_variant(v, extract_variant(v, defs)),
    decreases v, 0nat,
{
    match v {
        EnumVariant::Unit(_) => {},
        EnumVariant::Unnamed(items) => lemma_met_after_items(items, items.len() as nat, defs),
        EnumVariant::Named(o) => lemma_met_after_object(o, defs),
    }
}

/// The same for variants.
pub proof fn lemma_met_after_variants(variants: Vec<EnumVariant>, n: nat, defs: Seq<Definition>)
    ensures
        met_variants(variants, n, extract_variants(variants, n, defs)),
    decreases variants, n,
{
    if n == 0 || n > variants.len() {
    } else {
        let m = (n - 1) as nat;
        let mid = extract_variants(variants, m, defs);
        lemma_met_after_variants(variants, m, defs);
        lemma_met_after_variant(variants[n - 1], mid);
        lemma_added_variant(variants[n - 1], mid);
        lemma_met_grow_variants(variants, m, mid, extract_variants(variants, n, defs));
    }
}

/// A second walk of a type changes nothing, whatever the type and whatever
/// the registry that the first walk began with; nor does a later walk of it,
/// after the registry has grown.
pub proof fn law_second_walk_changes_nothing(
    ty: DataType,
    defs: Seq<Definition>,
    later: Seq<Definition>,
)
    requires
        extract(ty, defs).is_prefix_of(later),
    ensures
        extract(ty, extract(ty, defs)) == extract(ty, defs),
        extract(ty, later) == later,
{
    let once = extract(ty, defs);
    lemma_met_after(ty, defs);
    lemma_met_still(ty, once);
    lemma_met_grow(ty, once, later);
    lemma_met_still(ty, later);
}

/// The identities of a registry are exactly those of the types that stand in
/// the roots and are not inline, provided that the types in the roots that
/// share an identity are equal.
pub proof fn law_registry_identities(roots: Seq<DataType>, id: u64)
    requires
        consistent(reachable(roots)),
    ensures
        has_id(extract_roots(roots, roots.len(), Seq::empty()), id) <==> exists|d: Definition|
            #[trigger] reachable(roots).contains(d) && !d.inline() && d.id() == id,
{
    let reg = extract_roots(roots, roots.len(), Seq::empty());
    lemma_walk_roots(roots, roots.len(), reachable(roots));
    if has_id(reg, id) {
        let i = choose|i: int| 0 <= i < reg.len() && (#[trigger] reg[i]).id() == id;
        assert(reachable(roots).contains(reg[i]) && !reg[i].inline());
    }
}

/// Roots that hold the same types give registries with the same identities,
/// in whatever order the roots stand, provided that the types in them that
/// share an identity are equal.
pub proof fn law_order_of_roots_is_no_matter(a: Seq<DataType>, b: Seq<DataType>, id: u64)
    requires
        reachable(a) == reachable(b),
        consistent(reachable(a)),
    ensures
        has_id(extract_roots(a, a.len(), Seq::empty()), id) <==> has_id(
            extract_roots(b, b.len(), Seq::empty()),
            id,
        ),
{
    law_registry_identities(a, id);
    law_registry_identities(b, id);
}

/// The registry of some roots has the identities of the registries of the
/// roots walked one by one, each alone, and no others, provided that the
/// types in the roots that share an identity are equal.
pub proof fn law_registry_is_union_of_walks(roots: Seq<DataType>, id: u64)
    requires
        consistent(reachable(roots)),
    ensures
        has_id(extract_roots(roots, roots.len(), Seq::empty()), id) <==> exists|i: int|
            0 <= i < roots.len() && has_id(extract(#[trigger] roots[i], Seq::empty()), id),
{
    let n = roots.len();
    let reg = extract_roots(roots, n, Seq::empty());
    let none = Set::<Definition>::empty();
    law_registry_identities(roots, id);
    if has_id(reg, id) {
        let d = choose|d: Definition|
            #[trigger] reachable(roots).contains(d) && !d.inline() && d.id() == id;
        let i = choose|i: int| 0 <= i < n && i < roots.len() && occurs(#[trigger] roots[i], d);
        let univ = reachable(roots);
        assert(settled(Seq::<Definition>::empty(), univ, none));
        assert(fresh(|d: Definition| occurs(roots[i], d), univ, none)) by {
            assert forall|e: Definition| occurs(roots[i], e) implies univ.contains(e)
                && !none.contains(e) by {
                assert(occurs_roots(roots, n, e));
            }
        }
        lemma_walk(roots[i], Seq::empty(), univ, none);
        assert((|d: Definition| occurs(roots[i], d))(d));
        assert(has_id(extract(roots[i], Seq::empty()), id));
    }
    if exists|i: int| 0 <= i < roots.len() && has_id(extract(#[trigger] roots[i], Seq::empty()), id) {
        let i = choose|i: int|
            0 <= i < roots.len() && has_id(extract(#[trigger] roots[i], Seq::empty()), id);
        let alone = extract(roots[i], Seq::empty());
        lemma_added(roots[i], Seq::empty());
        crate::typedefs::lemma_extract(roots[i], Seq::empty());
        let k = choose|k: int| 0 <= k < alone.len() && (#[trigger] alone[k]).id() == id;
        assert(occurs(roots[i], alone[k]));
        assert(occurs_roots(roots, n, alone[k]));
        assert(reachable(roots).contains(alone[k]) && !alone[k].inline());
    }
}

/// Whether the definition `b` is built as the definition `a` is.
pub open spec fn alike_definition(a: Definition, b: Definition) -> bool {
    match (a, b) {
        (Definition::Object(x), Definition::Object(y)) => alike_object(x, y),
        (Definition::Enum(x), Definition::Enum(y)) => alike_enum(x, y),
        _ => false,
    }
}

/// Whether the registry `b` has as many entries as `a`, built alike one by
/// one.
pub open spec fn alike_registries(a: Seq<Definition>, b: Seq<Definition>) -> bool {
    &&& a.len() == b.len()
    &&& forall|i: int| 0 <= i < a.len() ==> alike_definition(#[trigger] a[i], b[i])
}

/// Registries that are alike have the same identities.
pub proof fn lemma_alike_has_id(a: Seq<Definition>, b: Seq<Definition>, id: u64)
    requires
        alike_registries(a, b),
    ensures
        has_id(a, id) == has_id(b, id),
{
    if has_id(a, id) {
        let i = choose|i: int| 0 <= i < a.len() && (#[trigger] a[i]).id() == id;
        assert(alike_definition(a[i], b[i]));
        assert(b[i].id() == id);
    }
    if has_id(b, id) {
        let i = choose|i: int| 0 <= i < b.len() && (#[trigger] b[i]).id() == id;
        assert(alike_definition(a[i], b[i]));
        assert(a[i].id() == id);
    }
}

/// Types that are built alike, walked into registries that are alike, give
/// registries that are alike: the registry of a copy is, entry by entry,
/// built as the registry of the type it was copied from.
pub proof fn lemma_alike_extract(
    a: DataType,
    b: DataType,
    da: Seq<Definition>,
    db: Seq<Definition>,
)
    requires
        alike(a, b),
        alike_registries(da, db),
    ensures
        alike_registries(extract(a, da), extract(b, db)),
    decreases a, 0nat,
{
    match (a, b) {
        (DataType::Object(x), DataType::Object(y)) => lemma_alike_extract_object(x, y, da, db),
        (DataType::Enum(x), DataType::Enum(y)) => lemma_alike_extract_enum(x, y, da, db),
        (DataType::List(x), DataType::List(y)) => lemma_alike_extract(*x, *y, da, db),
        (DataType::Nullable(x), DataType::Nullable(y)) => lemma_alike_extract(*x, *y, da, db),
        (DataType::Tuple(x), DataType::Tuple(y)) => {
            assert(alike_items(x, y));
            lemma_alike_extract_items(x, y, x.len() as nat, da, db);
        },
        _ => {},
    }
}

/// Object types that are built alike give registries that are alike.
pub proof fn lemma_alike_extract_object(
    a: ObjectType,
    b: ObjectType,
    da: Seq<Definition>,
    db: Seq<Definition>,
)
    requires
        alike_object(a, b),
        alike_registries(da, db),
    ensures
        alike_registries(extract_object(a, da), extract_object(b, db)),
    decreases a, 0nat,
{
    let n = a.fields.len() as nat;
    lemma_alike_has_id(da, db, a.id);
    if a.inline {
        lemma_alike_extract_fields(a.fields, b.fields, n, da, db);
    } else if has_id(da, a.id) {
    } else {
        let fa = da.push(Definition::Object(a));
        let fb = db.push(Definition::Object(b));
        assert(alike_registries(fa, fb));
        lemma_alike_extract_fields(a.fields, b.fields, n, fa, fb);
    }
}

/// Enum types that are built alike give registries that are alike.
pub proof fn lemma_alike_extract_enum(
    a: EnumType,
    b: EnumType,
    da: Seq<Definition>,
    db: Seq<Definition>,
)
    requires
        alike_enum(a, b),
        alike_registries(da, db),
    ensures
        alike_registries(extract_enum(a, da), extract_enum(b, db)),
    decreases a, 0nat,
{
    let n = a.variants.len() as nat;
    lemma_alike_has_id(da, db, a.id);
    if a.inline {
        lemma_alike_extract_variants(a.variants, b.variants, n, da, db);
    } else if has_id(da, a.id) {
    } else {
        let fa = da.push(Definition::Enum(a));
        let fb = db.push(Definition::Enum(b));
        assert(alike_registries(fa, fb));
        lemma_alike_extract_variants(a.variants, b.variants, n, fa, fb);
    }
}

/// Fields that are built alike, one by one, give registries that are alike.
pub proof fn lemma_alike_extract_fields(
    a: Vec<ObjectField>,
    b: Vec<ObjectField>,
    n: nat,
    da: Seq<Definition>,
    db: Seq<Definition>,
)
    requires
        a.len() == b.len(),
        forall|i: int| 0 <= i < a.len() ==> alike_field(#[trigger] a[i], b[i]),
        n <= a.len(),
        alike_registries(da, db),
    ensures
        alike_registries(extract_fields(a, n, da), extract_fields(b, n, db)),
    decreases a, n,
{
    if n > 0 {
        let m = (n - 1) as nat;
        lemma_alike_extract_fields(a, b, m, da, db);
        assert(alike_field(a[n - 1], b[n - 1]));
        lemma_alike_extract(
            a[n - 1].ty,
            b[n - 1].ty,
            extract_fields(a, m, da),
            extract_fields(b, m, db),
        );
    }
}

/// Items that are built alike, one by one, give registries that are alike.
pub proof fn lemma_alike_extract_items(
    a: Vec<DataType>,
    b: Vec<DataType>,
    n: nat,
    da: Seq<Definition>,
    db: Seq<Definition>,
)
    requires
        alike_items(a, b),
        n <= a.len(),
        alike_registries(da, db),
    ensures
        alike_registries(extract_items(a, n, da), extract_items(b, n, db)),
    decreases a, n,
{
    if n > 0 {
        let m = (n - 1) as nat;
        lemma_alike_extract_items(a, b, m, da, db);
        lemma_alike_extract(a[n - 1], b[n - 1], extract_items(a, m, da), extract_items(b, m, db));
    }
}

/// Variants that are built alike give registries that are alike.
pub proof fn lemma_alike_extract_variant(
    a: EnumVariant,
    b: EnumVariant,
    da: Seq<Definition>,
    db: Seq<Definition>,
)
    requires
        alike_variant(a, b),
        alike_registries(da, db),
    ensures
        alike_registries(extract_variant(a, da), extract_variant(b, db)),
    decreases a, 0nat,
{
    match (a, b) {
        (EnumVariant::Unnamed(x), EnumVariant::Unnamed(y)) => {
            assert(alike_items(x, y));
            lemma_alike_extract_items(x, y, x.len() as nat, da, db);
        },
        (EnumVariant::Named(x), EnumVariant::Named(y)) => {
            lemma_alike_extract_object(x, y, da, db);
        },
        _ => {},
    }
}

/// Variants that are built alike, one by one, give registries that are
/// alike.
pub proof fn lemma_alike_extract_variants(
    a: Vec<EnumVariant>,
    b: Vec<EnumVariant>,
    n: nat,
    da: Seq<Definition>,
    db: Seq<Definition>,
)
    requires
        a.len() == b.len(),
        forall|i: int| 0 <= i < a.len() ==> alike_variant(#[trigger] a[i], b[i]),
        n <= a.len(),
        alike_registries(da, db),
    ensures
        alike_registries(extract_variants(a, n, da), extract_variants(b, n, db)),
    decreases a, n,
{
    if n > 0 {
        let m = (n - 1) as nat;
        lemma_alike_extract_variants(a, b, m, da, db);
        assert(alike_variant(a[n - 1], b[n - 1]));
        lemma_alike_extract_variant(
            a[n - 1],
            b[n - 1],
            extract_variants(a, m, da),
            extract_variants(b, m, db),
        );
    }
}

} // verus!
