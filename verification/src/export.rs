//! The export of a router: the signatures of its operations and one
//! declaration for each type that they reach.

use vstd::prelude::*;
use vstd::string::StringExecFns;
use crate::datatype::DataType;
use crate::reach::{closed, consistent, fresh, lemma_grow, lemma_walk, occurs, settled};
use crate::router::{Procedure, Router};
use crate::ts::{enum_ts, object_ts, to_ts, ts_enum, ts_expr, ts_object};
use crate::typedefs::{
    extends, extract, extract_into, has_id, lemma_extract, well_formed, Definition, TypeDef,
    TypeDefs,
};

verus! {

/// Why a type has no declaration.
#[derive(Debug, Clone, Copy, PartialEq, Eq, Structural)]
pub enum ExportError {
    /// Only an object or an enum can be declared.
    NotCompound,
}

/// The first line of an export.
pub open spec fn header() -> Seq<char> {
    "// This file was generated by [rspc](https://github.com/oscartbeaumont/rspc). Do not edit this file manually.\n"@
}

/// One member of the union of a namespace: the key, the argument type and
/// the result type of a procedure, as declared.
pub open spec fn procedure_ts<H>(p: Procedure<H>) -> Seq<char> {
    "\n        { key: \""@ + p.name@ + "\", arg: "@ + ts_expr(p.ty.arg_ty, false) + ", result: "@
        + ts_expr(p.ty.result_ty, false) + " }"@
}

/// The members for the first `n` procedures, separated by ` | `.
pub open spec fn procedures_union<H>(procedures: Seq<Procedure<H>>, n: nat) -> Seq<char>
    decreases n,
{
    if n == 0 || n > procedures.len() {
        Seq::empty()
    } else if n == 1 {
        procedure_ts(procedures[0])
    } else {
        procedures_union(procedures, (n - 1) as nat) + " | "@ + procedure_ts(procedures[n - 1])
    }
}

/// The type of a namespace: the union of its members, `never` where it is
/// empty.
pub open spec fn procedures_ts<H>(procedures: Seq<Procedure<H>>) -> Seq<char> {
    if procedures.len() == 0 {
        "never"@
    } else {
        procedures_union(procedures, procedures.len())
    }
}

/// Renders the type of a namespace.
pub fn generate_procedures_ts<H>(procedures: &Vec<Procedure<H>>) -> (r: String)
    ensures
        r@ == procedures_ts(procedures@),
{
    if procedures.len() == 0 {
        return String::from_str("never");
    }
    let mut s = String::new();
    let mut i: usize = 0;
    while i < procedures.len()
        invariant
            i <= procedures.len(),
            s@ == procedures_union(procedures@, i as nat),
        decreases procedures.len() - i,
    {
        if i > 0 {
            s.append(" | ");
        }
        let p = &procedures[i];
        s.append("\n        { key: \"");
        s.append(p.name.as_str());
        s.append("\", arg: ");
        let arg = to_ts(&p.ty.arg_ty, false);
        s.append(arg.as_str());
        s.append(", result: ");
        let result = to_ts(&p.ty.result_ty, false);
        s.append(result.as_str());
        s.append(" }");
        i += 1;
        assert(s@ =~= procedures_union(procedures@, i as nat));
    }
    s
}

/// The registry after the walk of the argument type and then the result type
/// of each of the first `n` procedures, in their order.
pub open spec fn extract_procedures<H>(
    procedures: Seq<Procedure<H>>,
    n: nat,
    defs: Seq<Definition>,
) -> Seq<Definition>
    decreases n,
{
    if n == 0 || n > procedures.len() {
        defs
    } else {
        extract(
            procedures[n - 1].ty.result_ty,
            extract(procedures[n - 1].ty.arg_ty, extract_procedures(procedures, (n - 1) as nat, defs)),
        )
    }
}

/// The walk of some procedures keeps what was registered, in its place, and
/// leaves the registry well formed.
pub proof fn lemma_extract_procedures<H>(
    procedures: Seq<Procedure<H>>,
    n: nat,
    defs: Seq<Definition>,
)
    requires
        well_formed(defs),
    ensures
        extends(defs, extract_procedures(procedures, n, defs)),
    decreases n,
{
    if n == 0 || n > procedures.len() {
    } else {
        lemma_extract_procedures(procedures, (n - 1) as nat, defs);
        let before = extract_procedures(procedures, (n - 1) as nat, defs);
        lemma_extract(procedures[n - 1].ty.arg_ty, before);
        lemma_extract(procedures[n - 1].ty.result_ty, extract(procedures[n - 1].ty.arg_ty, before));
    }
}

/// Walks the declared types of `procedures` and registers in `types_map`
/// what they reach.
pub fn extract_procedures_types<'a, H>(
    procedures: &'a Vec<Procedure<H>>,
    types_map: &mut TypeDefs<'a>,
)
    requires
        old(types_map).wf(),
    ensures
        final(types_map)@ == extract_procedures(
            procedures@,
            procedures.len() as nat,
            old(types_map)@,
        ),
        final(types_map).wf(),
        old(types_map)@.is_prefix_of(final(types_map)@),
{
    proof {
        lemma_extract_procedures(procedures@, procedures.len() as nat, types_map@);
    }
    let mut i: usize = 0;
    while i < procedures.len()
        invariant
            i <= procedures.len(),
            old(types_map).wf(),
            types_map.wf(),
            types_map@ == extract_procedures(procedures@, i as nat, old(types_map)@),
        decreases procedures.len() - i,
    {
        extract_into(&procedures[i].ty.arg_ty, types_map);
        extract_into(&procedures[i].ty.result_ty, types_map);
        i += 1;
    }
}

/// The declaration of a compound type: its name and its body.
pub open spec fn declaration_ts(def: Definition) -> Seq<char> {
    match def {
        Definition::Object(o) => "export type "@ + o.name@ + " = "@ + ts_object(o) + ";"@,
        Definition::Enum(e) => "export type "@ + e.name@ + " = "@ + ts_enum(e) + ";"@,
    }
}

/// Renders the declaration of a registered type.
pub fn declaration(def: TypeDef<'_>) -> (r: String)
    ensures
        r@ == declaration_ts(def@),
{
    let mut s = String::from_str("export type ");
    match def {
        TypeDef::Object(o) => {
            s.append(o.name.as_str());
            s.append(" = ");
            let body = object_ts(o);
            s.append(body.as_str());
        },
        TypeDef::Enum(e) => {
            s.append(e.name.as_str());
            s.append(" = ");
            let body = enum_ts(e);
            s.append(body.as_str());
        },
    }
    s.append(";");
    s
}

/// Renders the declaration of `ty`, which must be an object or an enum.
pub fn to_ts_export(ty: &DataType) -> (r: Result<String, ExportError>)
    ensures
        match *ty {
            DataType::Object(o) => r is Ok && r->Ok_0@ == declaration_ts(Definition::Object(o)),
            DataType::Enum(e) => r is Ok && r->Ok_0@ == declaration_ts(Definition::Enum(e)),
            _ => r == Err::<String, ExportError>(ExportError::NotCompound),
        },
{
    match ty {
        DataType::Object(o) => Ok(declaration(TypeDef::Object(o))),
        DataType::Enum(e) => Ok(declaration(TypeDef::Enum(e))),
        _ => Err(ExportError::NotCompound),
    }
}

/// The declarations of the first `n` definitions, one on each line.
pub open spec fn declarations_ts(defs: Seq<Definition>, n: nat) -> Seq<char>
    decreases n,
{
    if n == 0 || n > defs.len() {
        Seq::empty()
    } else {
        declarations_ts(defs, (n - 1) as nat) + declaration_ts(defs[n - 1]) + "\n"@
    }
}

/// The declaration of the operations of a router, after an empty line.
pub open spec fn operations_ts<H>(router: Router<H>) -> Seq<char> {
    "\nexport type Operations = {\n    queries: "@ + procedures_ts(router.queries())
        + ",\n    mutations: "@ + procedures_ts(router.mutations()) + ",\n    subscriptions: "@
        + procedures_ts(router.subscriptions()) + "\n};\n"@
}

/// The registry of a router: the walk of its queries, then its mutations,
/// then its subscriptions, begun with nothing.
pub open spec fn router_types<H>(router: Router<H>) -> Seq<Definition> {
    extract_procedures(
        router.subscriptions(),
        router.subscriptions().len(),
        extract_procedures(
            router.mutations(),
            router.mutations().len(),
            extract_procedures(router.queries(), router.queries().len(), Seq::empty()),
        ),
    )
}

/// The export of a router: the header, the operations, and the declarations
/// of its registry in the registry's order.
pub open spec fn export_text<H>(router: Router<H>) -> Seq<char> {
    header() + operations_ts(router) + declarations_ts(
        router_types(router),
        router_types(router).len(),
    )
}

impl<H> Router<H> {
    /// The registry of the types that the procedures of the router reach.
    pub fn type_defs<'a>(&'a self) -> (r: TypeDefs<'a>)
        ensures
            r@ == router_types(*self),
            r.wf(),
    {
        let mut defs = TypeDefs::new();
        extract_procedures_types(self.query_procedures(), &mut defs);
        extract_procedures_types(self.mutation_procedures(), &mut defs);
        extract_procedures_types(self.subscription_procedures(), &mut defs);
        defs
    }

    /// Renders the export of the router.
    pub fn export_ts(&self) -> (r: String)
        ensures
            r@ == export_text(*self),
    {
        let mut s = String::from_str(
            "// This file was generated by [rspc](https://github.com/oscartbeaumont/rspc). Do not edit this file manually.\n",
        );
        s.append("\nexport type Operations = {\n    queries: ");
        let queries_ts = generate_procedures_ts(self.query_procedures());
        s.append(queries_ts.as_str());
        s.append(",\n    mutations: ");
        let mutations_ts = generate_procedures_ts(self.mutation_procedures());
        s.append(mutations_ts.as_str());
        s.append(",\n    subscriptions: ");
        let subscriptions_ts = generate_procedures_ts(self.subscription_procedures());
        s.append(subscriptions_ts.as_str());
        s.append("\n};\n");
        assert(s@ =~= header() + operations_ts(*self));
        let defs = self.type_defs();
        let ghost head = s@;
        let mut i: usize = 0;
        while i < defs.len()
            invariant
                i <= defs@.len(),
                s@ == head + declarations_ts(defs@, i as nat),
            decreases defs@.len() - i,
        {
            match defs.get(i) {
                Some(def) => {
                    let line = declaration(def);
                    s.append(line.as_str());
                    s.append("\n");
                },
                None => {},
            }
            i += 1;
            assert(s@ =~= head + declarations_ts(defs@, i as nat));
        }
        s
    }
}

/// The registry of a router is well formed: no declaration of an export is
/// that of an inline type, and no two declarations share an identity.
pub proof fn law_export_declares_no_inline<H>(router: Router<H>)
    ensures
        well_formed(router_types(router)),
{
    let q = extract_procedures(router.queries(), router.queries().len(), Seq::empty());
    lemma_extract_procedures(router.queries(), router.queries().len(), Seq::empty());
    let m = extract_procedures(router.mutations(), router.mutations().len(), q);
    lemma_extract_procedures(router.mutations(), router.mutations().len(), q);
    lemma_extract_procedures(router.subscriptions(), router.subscriptions().len(), m);
}

/// Routers with the same namespaces have the same export, character for
/// character.
pub proof fn law_same_router_same_export<H>(a: Router<H>, b: Router<H>)
    requires
        a.queries() == b.queries(),
        a.mutations() == b.mutations(),
        a.subscriptions() == b.subscriptions(),
    ensures
        router_types(a) == router_types(b),
        export_text(a) == export_text(b),
{
}

/// Whether `d` stands in the argument type or the result type of one of the
/// first `n` procedures.
pub open spec fn occurs_procedures<H>(procedures: Seq<Procedure<H>>, n: nat, d: Definition) -> bool {
    exists|i: int|
        0 <= i < n && i < procedures.len() && (occurs((#[trigger] procedures[i]).ty.arg_ty, d)
            || occurs(procedures[i].ty.result_ty, d))
}

/// The walk of some procedures, under consistent identities and begun with a
/// registry whose entries are closed, registers every type in their declared
/// types that is not inline, and only types of `univ`.
pub proof fn lemma_walk_procedures<H>(
    procedures: Seq<Procedure<H>>,
    n: nat,
    defs: Seq<Definition>,
    univ: Set<Definition>,
)
    requires
        n <= procedures.len(),
        consistent(univ),
        settled(defs, univ, Set::empty()),
        forall|d: Definition| occurs_procedures(procedures, n, d) ==> univ.contains(d),
    ensures
        settled(extract_procedures(procedures, n, defs), univ, Set::empty()),
        defs.is_prefix_of(extract_procedures(procedures, n, defs)),
        forall|d: Definition|
            occurs_procedures(procedures, n, d) && !d.inline() ==> has_id(
                extract_procedures(procedures, n, defs),
                d.id(),
            ),
    decreases n,
{
    let none = Set::<Definition>::empty();
    if n > 0 {
        let m = (n - 1) as nat;
        let p = procedures[n - 1];
        assert forall|d: Definition| occurs_procedures(procedures, m, d) implies univ.contains(
            d,
        ) by {
            assert(occurs_procedures(procedures, n, d));
        }
        lemma_walk_procedures(procedures, m, defs, univ);
        let before = extract_procedures(procedures, m, defs);
        assert(fresh(|d: Definition| occurs(p.ty.arg_ty, d), univ, none)) by {
            assert forall|d: Definition| occurs(p.ty.arg_ty, d) implies univ.contains(d)
                && !none.contains(d) by {
                assert(occurs_procedures(procedures, n, d));
            }
        }
        lemma_walk(p.ty.arg_ty, before, univ, none);
        let mid = extract(p.ty.arg_ty, before);
        assert(fresh(|d: Definition| occurs(p.ty.result_ty, d), univ, none)) by {
            assert forall|d: Definition| occurs(p.ty.result_ty, d) implies univ.contains(d)
                && !none.contains(d) by {
                assert(occurs_procedures(procedures, n, d));
            }
        }
        lemma_walk(p.ty.result_ty, mid, univ, none);
        let after = extract_procedures(procedures, n, defs);
        lemma_grow(before, mid);
        lemma_grow(mid, after);
        assert forall|d: Definition|
            occurs_procedures(procedures, n, d) && !d.inline() implies has_id(after, d.id()) by {
            let i = choose|i: int|
                0 <= i < n && i < procedures.len() && (occurs(
                    (#[trigger] procedures[i]).ty.arg_ty,
                    d,
                ) || occurs(procedures[i].ty.result_ty, d));
            if i < m {
                assert(occurs_procedures(procedures, m, d));
            } else if occurs(p.ty.arg_ty, d) {
                assert((|d: Definition| occurs(p.ty.arg_ty, d))(d));
            } else {
                assert((|d: Definition| occurs(p.ty.result_ty, d))(d));
            }
        }
    }
}

/// The types that a registry holds and those that stand in the declared
/// types of some procedures.
pub open spec fn in_view<H>(procedures: Seq<Procedure<H>>, defs: Seq<Definition>) -> Set<
    Definition,
> {
    Set::new(|d: Definition| defs.contains(d) || occurs_procedures(procedures, procedures.len(), d))
}

/// A type that is not inline and stands under one or several procedures,
/// in an argument type or a result type, has exactly one entry in the
/// registry after their walk, and the entry is that type. This holds of a
/// walk begun with a well-formed registry whose entries are closed, where
/// the types in view that share an identity are equal.
pub proof fn law_shared_type_has_one_entry<H>(
    procedures: Seq<Procedure<H>>,
    defs: Seq<Definition>,
    d: Definition,
)
    requires
        well_formed(defs),
        forall|i: int| 0 <= i < defs.len() ==> closed(#[trigger] defs[i], defs),
        consistent(in_view(procedures, defs)),
        occurs_procedures(procedures, procedures.len(), d),
        !d.inline(),
    ensures
        well_formed(extract_procedures(procedures, procedures.len(), defs)),
        exists|i: int|
            {
                &&& 0 <= i < extract_procedures(procedures, procedures.len(), defs).len()
                &&& #[trigger] extract_procedures(procedures, procedures.len(), defs)[i] == d
                &&& forall|j: int|
                    0 <= j < extract_procedures(procedures, procedures.len(), defs).len()
                        && (#[trigger] extract_procedures(
                        procedures,
                        procedures.len(),
                        defs,
                    )[j]).id() == d.id() ==> j == i
            },
{
    let univ = in_view(procedures, defs);
    let n = procedures.len();
    assert(settled(defs, univ, Set::empty())) by {
        assert forall|i: int| 0 <= i < defs.len() implies univ.contains(#[trigger] defs[i]) by {
            assert(defs.contains(defs[i]));
        }
    }
    lemma_walk_procedures(procedures, n, defs, univ);
    let after = extract_procedures(procedures, n, defs);
    let i = choose|i: int| 0 <= i < after.len() && (#[trigger] after[i]).id() == d.id();
    assert(univ.contains(after[i]) && univ.contains(d) && !after[i].inline());
    assert(after[i] == d);
    assert(forall|j: int|
        0 <= j < after.len() && (#[trigger] after[j]).id() == d.id() ==> j == i);
}

/// The types that stand in the declared types of the procedures of a router.
pub open spec fn router_reach<H>(router: Router<H>) -> Set<Definition> {
    Set::new(
        |d: Definition|
            occurs_procedures(router.queries(), router.queries().len(), d) || occurs_procedures(
                router.mutations(),
                router.mutations().len(),
                d,
            ) || occurs_procedures(router.subscriptions(), router.subscriptions().len(), d),
    )
}

/// The identities of the registry of a router are exactly those of the types
/// that stand under its procedures and are not inline, so they do not depend
/// on the order of the procedures; this holds where the types under the
/// procedures that share an identity are equal.
pub proof fn law_router_registry_identities<H>(router: Router<H>, id: u64)
    requires
        consistent(router_reach(router)),
    ensures
        has_id(router_types(router), id) <==> exists|d: Definition|
            #[trigger] router_reach(router).contains(d) && !d.inline() && d.id() == id,
{
    let univ = router_reach(router);
    let none = Set::<Definition>::empty();
    let q = extract_procedures(router.queries(), router.queries().len(), Seq::empty());
    assert(settled(Seq::<Definition>::empty(), univ, none));
    lemma_walk_procedures(router.queries(), router.queries().len(), Seq::empty(), univ);
    let m = extract_procedures(router.mutations(), router.mutations().len(), q);
    lemma_walk_procedures(router.mutations(), router.mutations().len(), q, univ);
    let reg = router_types(router);
    lemma_walk_procedures(router.subscriptions(), router.subscriptions().len(), m, univ);
    lemma_grow(q, m);
    lemma_grow(m, reg);
    if has_id(reg, id) {
        let i = choose|i: int| 0 <= i < reg.len() && (#[trigger] reg[i]).id() == id;
        assert(univ.contains(reg[i]) && !reg[i].inline());
    }
    if exists|d: Definition| #[trigger] univ.contains(d) && !d.inline() && d.id() == id {
        let d = choose|d: Definition| #[trigger] univ.contains(d) && !d.inline() && d.id() == id;
        assert(has_id(reg, d.id()));
    }
}

/// The texts of `parts`, in their order, with `sep` between each two.
pub open spec fn joined(parts: Seq<Seq<char>>, sep: Seq<char>) -> Seq<char>
    decreases parts.len(),
{
    if parts.len() == 0 {
        Seq::empty()
    } else if parts.len() == 1 {
        parts[0]
    } else {
        joined(parts.drop_last(), sep) + sep + parts.last()
    }
}

/// The members of the union of a namespace: one for each procedure, in the
/// order of the namespace.
pub open spec fn members<H>(procedures: Seq<Procedure<H>>) -> Seq<Seq<char>> {
    Seq::new(procedures.len(), |i: int| procedure_ts(procedures[i]))
}

/// The union of the first `n` procedures is their members, joined.
pub proof fn lemma_union_is_joined<H>(procedures: Seq<Procedure<H>>, n: nat)
    requires
        n <= procedures.len(),
    ensures
        procedures_union(procedures, n) == joined(members(procedures).take(n as int), " | "@),
    decreases n,
{
    let parts = members(procedures).take(n as int);
    if n > 1 {
        lemma_union_is_joined(procedures, (n - 1) as nat);
        assert(parts.drop_last() =~= members(procedures).take(n - 1));
    }
}

/// The type of a namespace that is not empty has exactly one member for each
/// procedure, in the order of the namespace, with ` | ` between each two.
pub proof fn law_union_has_one_member_each<H>(procedures: Seq<Procedure<H>>)
    requires
        procedures.len() > 0,
    ensures
        members(procedures).len() == procedures.len(),
        procedures_ts(procedures) == joined(members(procedures), " | "@),
{
    lemma_union_is_joined(procedures, procedures.len());
    assert(members(procedures).take(procedures.len() as int) =~= members(procedures));
}

} // verus!
