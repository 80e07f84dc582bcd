//! Three namespaces of procedures, and the choice of the one procedure that
//! a call runs.

use std::sync::Arc;
use vstd::prelude::*;
use crate::datatype::DataType;
use crate::payload::{argument, json_is_null, payload_for, Payload};

verus! {

/// The kind of an operation. It selects the namespace.
#[derive(Debug, Clone, Copy, PartialEq, Eq, Structural)]
pub enum OperationKind {
    Query,
    Mutation,
    SubscriptionAdd,
    SubscriptionRemove,
}

/// What a caller asks for: a name and, optionally, an argument.
#[derive(Debug, PartialEq)]
pub struct OperationKey {
    pub name: String,
    pub payload: Option<Payload>,
}

impl OperationKey {
    /// The key for a name and an optional JSON argument.
    pub fn new(name: String, arg: Option<serde_json::Value>) -> (key: OperationKey)
        ensures
            key.name == name,
            key.payload == match arg {
                Some(value) => Some(payload_for(value)),
                None => None,
            },
    {
        let payload = match arg {
            Some(value) => Some(Payload::from_value(value)),
            None => None,
        };
        OperationKey { name, payload }
    }
}

/// Why a call could not be dispatched.
#[derive(Debug, Clone, PartialEq, Eq)]
pub enum ExecError {
    /// The namespace of the kind has no procedure of this name.
    OperationNotFound(String),
    /// The kind has no dispatch path.
    Unimplemented,
}

/// The declared signature of a procedure.
#[derive(Debug, Clone, PartialEq, Eq)]
pub struct ProcedureType {
    pub arg_ty: DataType,
    pub result_ty: DataType,
}

/// A named procedure: its declared signature and its composed handler.
pub struct Procedure<H> {
    pub name: String,
    pub ty: ProcedureType,
    pub handler: H,
}

/// One dispatched call: the procedure to run and what to hand to it.
pub struct Call<'a, H> {
    pub procedure: &'a Procedure<H>,
    pub input: Payload,
    pub kind: OperationKind,
    pub name: String,
}

/// Whether some procedure in `procedures` is named `name`.
pub open spec fn has_name<H>(procedures: Seq<Procedure<H>>, name: Seq<char>) -> bool {
    exists|i: int| 0 <= i < procedures.len() && (#[trigger] procedures[i]).name@ == name
}

/// No two procedures in `procedures` share a name.
pub open spec fn unique_names<H>(procedures: Seq<Procedure<H>>) -> bool {
    forall|i: int, j: int|
        0 <= i < j < procedures.len() ==> (#[trigger] procedures[i]).name@ != (
        #[trigger] procedures[j]).name@
}

/// Whether `i` is the first position in `procedures` of a procedure named
/// `name`.
pub open spec fn first_named<H>(procedures: Seq<Procedure<H>>, name: Seq<char>, i: int) -> bool {
    &&& 0 <= i < procedures.len()
    &&& procedures[i].name@ == name
    &&& forall|k: int| 0 <= k < i ==> (#[trigger] procedures[k]).name@ != name
}

/// The first procedure named `name` among `procedures`.
pub open spec fn lookup<H>(procedures: Seq<Procedure<H>>, name: Seq<char>) -> Option<
    Procedure<H>,
> {
    if has_name(procedures, name) {
        Some(procedures[choose|i: int| first_named(procedures, name, i)])
    } else {
        None
    }
}

/// The position of the first procedure named `name` among `procedures`.
fn position<H>(procedures: &Vec<Procedure<H>>, name: &String) -> (r: Option<usize>)
    ensures
        match r {
            Some(i) => first_named(procedures@, name@, i as int) && lookup(procedures@, name@)
                == Some(procedures[i as int]),
            None => !has_name(procedures@, name@) && lookup(procedures@, name@) is None,
        },
{
    let mut i: usize = 0;
    while i < procedures.len()
        invariant
            i <= procedures.len(),
            forall|k: int| 0 <= k < i ==> (#[trigger] procedures[k]).name@ != name@,
        decreases procedures.len() - i,
    {
        if procedures[i].name == *name {
            proof {
                let j = choose|j: int| first_named(procedures@, name@, j);
                assert(first_named(procedures@, name@, i as int));
                assert(j == i);
            }
            return Some(i);
        }
        i += 1;
    }
    None
}

/// The procedures of an application, by kind and name.
pub struct Router<H> {
    queries: Vec<Procedure<H>>,
    mutations: Vec<Procedure<H>>,
    subscriptions: Vec<Procedure<H>>,
}

impl<H> Router<H> {
    /// The query namespace.
    pub closed spec fn queries(&self) -> Seq<Procedure<H>> {
        self.queries@
    }

    /// The mutation namespace.
    pub closed spec fn mutations(&self) -> Seq<Procedure<H>> {
        self.mutations@
    }

    /// The subscription namespace.
    pub closed spec fn subscriptions(&self) -> Seq<Procedure<H>> {
        self.subscriptions@
    }

    /// The namespace that `kind` selects; none for `SubscriptionRemove`.
    pub open spec fn namespace(&self, kind: OperationKind) -> Option<Seq<Procedure<H>>> {
        match kind {
            OperationKind::Query => Some(self.queries()),
            OperationKind::Mutation => Some(self.mutations()),
            OperationKind::SubscriptionAdd => Some(self.subscriptions()),
            OperationKind::SubscriptionRemove => None,
        }
    }

    /// Within each namespace the names are unique.
    pub open spec fn wf(&self) -> bool {
        &&& unique_names(self.queries())
        &&& unique_names(self.mutations())
        &&& unique_names(self.subscriptions())
    }

    /// What `exec` decides for a call of `kind` and `name` with `payload`:
    /// the procedure to run and the argument handed to it, or the error.
    pub open spec fn dispatch(
        &self,
        kind: OperationKind,
        name: Seq<char>,
        payload: Option<Payload>,
    ) -> Result<(Procedure<H>, Payload), DispatchError> {
        match self.namespace(kind) {
            None => Err(DispatchError::Unimplemented),
            Some(procedures) => match lookup(procedures, name) {
                Some(p) => Ok((p, argument(payload))),
                None => Err(DispatchError::OperationNotFound(name)),
            },
        }
    }

    /// A router without procedures.
    pub fn new() -> (r: Self)
        ensures
            r.wf(),
            r.queries().len() == 0,
            r.mutations().len() == 0,
            r.subscriptions().len() == 0,
    {
        Router { queries: Vec::new(), mutations: Vec::new(), subscriptions: Vec::new() }
    }

    /// Puts `procedure` into the namespace of `kind`, unless `kind` has none
    /// or the name is taken there. Says whether it was put in.
    pub fn add(&mut self, kind: OperationKind, procedure: Procedure<H>) -> (added: bool)
        ensures
            old(self).wf() ==> final(self).wf(),
            added == match old(self).namespace(kind) {
                Some(procedures) => !has_name(procedures, procedure.name@),
                None => false,
            },
            forall|k: OperationKind|
                k != kind || !added ==> final(self).namespace(k) == old(self).namespace(k),
            added ==> final(self).namespace(kind) == Some(
                old(self).namespace(kind)->0.push(procedure),
            ),
    {
        match kind {
            OperationKind::Query => {
                if position(&self.queries, &procedure.name).is_some() {
                    return false;
                }
                self.queries.push(procedure);
                true
            },
            OperationKind::Mutation => {
                if position(&self.mutations, &procedure.name).is_some() {
                    return false;
                }
                self.mutations.push(procedure);
                true
            },
            OperationKind::SubscriptionAdd => {
                if position(&self.subscriptions, &procedure.name).is_some() {
                    return false;
                }
                self.subscriptions.push(procedure);
                true
            },
            OperationKind::SubscriptionRemove => false,
        }
    }

    /// The procedures of the namespace that `kind` selects.
    pub fn procedures(&self, kind: OperationKind) -> (r: Option<&Vec<Procedure<H>>>)
        ensures
            match r {
                Some(v) => self.namespace(kind) == Some(v@),
                None => self.namespace(kind) is None,
            },
    {
        match kind {
            OperationKind::Query => Some(&self.queries),
            OperationKind::Mutation => Some(&self.mutations),
            OperationKind::SubscriptionAdd => Some(&self.subscriptions),
            OperationKind::SubscriptionRemove => None,
        }
    }

    /// Chooses the procedure that a call runs, and the argument for it.
    ///
    /// The namespace is that of `kind` and no other; in it the name must
    /// match exactly. A key without payload gets the null payload. A
    /// `SubscriptionRemove` is refused as unimplemented, whatever the key.
    pub fn exec<'a>(&'a self, kind: OperationKind, key: OperationKey) -> (r: Result<
        Call<'a, H>,
        ExecError,
    >)
        ensures
            match r {
                Ok(call) => {
                    &&& self.dispatch(kind, key.name@, key.payload) == Ok::<
                        (Procedure<H>, Payload),
                        DispatchError,
                    >((*call.procedure, call.input))
                    &&& call.kind == kind
                    &&& call.name@ == key.name@
                },
                Err(ExecError::OperationNotFound(name)) => {
                    &&& self.dispatch(kind, key.name@, key.payload) == Err::<
                        (Procedure<H>, Payload),
                        DispatchError,
                    >(DispatchError::OperationNotFound(key.name@))
                    &&& name@ == key.name@
                },
                Err(ExecError::Unimplemented) => self.dispatch(kind, key.name@, key.payload)
                    == Err::<(Procedure<H>, Payload), DispatchError>(
                    DispatchError::Unimplemented,
                ),
            },
    {
        let procedures = match self.procedures(kind) {
            Some(procedures) => procedures,
            None => {
                return Err(ExecError::Unimplemented);
            },
        };
        let OperationKey { name, payload } = key;
        match position(procedures, &name) {
            None => Err(ExecError::OperationNotFound(name)),
            Some(i) => {
                let input = match payload {
                    Some(p) => p,
                    None => Payload::Null,
                };
                Ok(Call { procedure: &procedures[i], input, kind, name })
            },
        }
    }

    /// The query namespace, in the order in which it was filled.
    pub fn query_procedures(&self) -> (r: &Vec<Procedure<H>>)
        ensures
            r@ == self.queries(),
    {
        &self.queries
    }

    /// The mutation namespace, in the order in which it was filled.
    pub fn mutation_procedures(&self) -> (r: &Vec<Procedure<H>>)
        ensures
            r@ == self.mutations(),
    {
        &self.mutations
    }

    /// The subscription namespace, in the order in which it was filled.
    pub fn subscription_procedures(&self) -> (r: &Vec<Procedure<H>>)
        ensures
            r@ == self.subscriptions(),
    {
        &self.subscriptions
    }

    /// The router behind a shared pointer.
    pub fn arced(self) -> (r: Arc<Self>)
        ensures
            *r == self,
    {
        Arc::new(self)
    }
}

/// The error of a dispatch, with the name as a sequence of characters.
pub enum DispatchError {
    OperationNotFound(Seq<char>),
    Unimplemented,
}

/// Where a name occurs among some procedures, it occurs a first time.
pub proof fn lemma_first_named<H>(procedures: Seq<Procedure<H>>, name: Seq<char>, k: int)
    requires
        0 <= k < procedures.len(),
        procedures[k].name@ == name,
    ensures
        exists|i: int| first_named(procedures, name, i),
    decreases k,
{
    if exists|j: int| 0 <= j < k && (#[trigger] procedures[j]).name@ == name {
        let j = choose|j: int| 0 <= j < k && (#[trigger] procedures[j]).name@ == name;
        lemma_first_named(procedures, name, j);
    } else {
        assert(first_named(procedures, name, k));
    }
}

/// A lookup finds a procedure of the namespace searched, and one of the name
/// asked for.
pub proof fn lemma_lookup<H>(procedures: Seq<Procedure<H>>, name: Seq<char>)
    ensures
        match lookup(procedures, name) {
            Some(p) => p.name@ == name && procedures.contains(p),
            None => !has_name(procedures, name),
        },
{
    if has_name(procedures, name) {
        let k = choose|k: int| 0 <= k < procedures.len() && (#[trigger] procedures[k]).name@ == name;
        lemma_first_named(procedures, name, k);
    }
}

/// A call is answered from the namespace of its kind alone: two routers that
/// agree on that namespace decide alike, whatever their other namespaces
/// hold; and the procedure chosen is one of that namespace.
pub proof fn law_dispatch_isolation<H>(
    a: Router<H>,
    b: Router<H>,
    kind: OperationKind,
    name: Seq<char>,
    payload: Option<Payload>,
)
    requires
        a.namespace(kind) == b.namespace(kind),
    ensures
        a.dispatch(kind, name, payload) == b.dispatch(kind, name, payload),
        a.dispatch(kind, name, payload) is Ok ==> {
            &&& a.namespace(kind) is Some
            &&& a.namespace(kind)->0.contains(a.dispatch(kind, name, payload)->Ok_0.0)
            &&& a.dispatch(kind, name, payload)->Ok_0.0.name@ == name
        },
{
    if a.namespace(kind) is Some {
        lemma_lookup(a.namespace(kind)->0, name);
    }
}

/// A call fails with `OperationNotFound`, carrying the name asked for, if and
/// only if its kind has a namespace and the name is absent from it.
pub proof fn law_missing_name<H>(
    router: Router<H>,
    kind: OperationKind,
    name: Seq<char>,
    payload: Option<Payload>,
)
    ensures
        (router.namespace(kind) is Some && !has_name(router.namespace(kind)->0, name)) <==> (
        router.dispatch(kind, name, payload) == Err::<(Procedure<H>, Payload), DispatchError>(
            DispatchError::OperationNotFound(name),
        )),
        router.dispatch(kind, name, payload) is Err && router.dispatch(kind, name, payload)->Err_0
            is OperationNotFound ==> router.dispatch(
            kind,
            name,
            payload,
        )->Err_0->OperationNotFound_0 == name,
{
    if router.namespace(kind) is Some {
        lemma_lookup(router.namespace(kind)->0, name);
    }
}

/// A `SubscriptionRemove` fails as unimplemented, whatever the router and the
/// key; no other kind fails so.
pub proof fn law_subscription_remove_unimplemented<H>(
    router: Router<H>,
    kind: OperationKind,
    name: Seq<char>,
    payload: Option<Payload>,
)
    ensures
        kind == OperationKind::SubscriptionRemove <==> router.dispatch(kind, name, payload)
            == Err::<(Procedure<H>, Payload), DispatchError>(DispatchError::Unimplemented),
{
}

/// A key without payload is answered as the same key with the null payload.
pub proof fn law_default_argument<H>(router: Router<H>, kind: OperationKind, name: Seq<char>)
    ensures
        router.dispatch(kind, name, None) == router.dispatch(kind, name, Some(Payload::Null)),
{
}

/// A key whose argument is the JSON null is answered as the same key
/// without argument.
pub proof fn law_null_argument_is_no_argument<H>(
    router: Router<H>,
    kind: OperationKind,
    name: Seq<char>,
    value: serde_json::Value,
)
    requires
        json_is_null(value),
    ensures
        router.dispatch(kind, name, Some(payload_for(value))) == router.dispatch(kind, name, None),
{
}

} // verus!
