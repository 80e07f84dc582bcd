//! Middleware stages and the order in which a chain of them runs.
//!
//! Stages are declared outermost first. A chain is built from the innermost
//! stage outwards, and a stage's setup runs when the stage is built. A call
//! enters the stages in declaration order, reaches the handler, and leaves
//! the stages in the opposite order.

use vstd::prelude::*;

verus! {

/// One stage: a handler of type `F` and, optionally, a setup of type `S`.
pub struct Middleware<S, F> {
    pub setup: Option<S>,
    pub handler: F,
}

impl<S, F> Middleware<S, F> {
    /// A stage with the handler `func` and no setup.
    pub fn new(func: F) -> (r: Self)
        ensures
            r.setup is None,
            r.handler == func,
    {
        Middleware { setup: None, handler: func }
    }

    /// The same stage with `func` as its setup, in place of any earlier one.
    pub fn setup(self, func: S) -> (r: Self)
        ensures
            r.setup == Some(func),
            r.handler == self.handler,
    {
        Middleware { setup: Some(func), handler: self.handler }
    }

    /// Whether the stage has a setup.
    pub fn has_setup(&self) -> (r: bool)
        ensures
            r == (self.setup is Some),
    {
        self.setup.is_some()
    }
}

/// What happens in the life of a chain. Stages are numbered in declaration
/// order, from 0.
#[derive(Debug, Clone, Copy, PartialEq, Eq, Structural)]
pub enum Event {
    /// The setup of a stage runs.
    Setup(usize),
    /// A stage begins: what it does before it delegates.
    Enter(usize),
    /// The terminal handler runs.
    Handler,
    /// A stage resumes: what it does after the rest of the chain has resolved.
    Leave(usize),
}

/// What a continuation runs.
#[derive(Debug, Clone, Copy, PartialEq, Eq, Structural)]
pub enum Target {
    Stage(usize),
    Handler,
}

/// The target that starts a call of a chain of `n` stages.
pub open spec fn entry_target(n: nat) -> Target {
    if n == 0 {
        Target::Handler
    } else {
        Target::Stage(0)
    }
}

/// The target that stage `from` of a chain of `n` stages delegates to.
pub open spec fn next_target(n: nat, from: nat) -> Target {
    if from + 1 < n {
        Target::Stage((from + 1) as usize)
    } else {
        Target::Handler
    }
}

/// The stage that resumes when `from` has resolved: the one declared before
/// it, or the last one where `from` is the handler. There is none where
/// `from` is the first stage, or the handler of a chain without stages: then
/// the call has resolved.
pub open spec fn outer_stage(n: nat, from: Target) -> Option<usize> {
    match from {
        Target::Stage(i) => if 0 < i < n {
            Some((i - 1) as usize)
        } else {
            None
        },
        Target::Handler => if 0 < n {
            Some((n - 1) as usize)
        } else {
            None
        },
    }
}

/// The event with which a target begins.
pub open spec fn begins(t: Target) -> Event {
    match t {
        Target::Stage(i) => Event::Enter(i),
        Target::Handler => Event::Handler,
    }
}

/// The events of one call of a chain of `n` stages that all delegate: the
/// stages are entered in declaration order, the handler runs, and the stages
/// are left in the opposite order.
pub open spec fn call_trace(n: nat) -> Seq<Event> {
    Seq::new(
        2 * n + 1,
        |k: int|
            if k < n {
                Event::Enter(k as usize)
            } else if k == n {
                Event::Handler
            } else {
                Event::Leave((2 * n - k) as usize)
            },
    )
}

/// The events of the build of the stages from `from` on: the chain is built
/// from the last stage back to stage `from`, and each stage that has a setup
/// runs it when it is built.
pub open spec fn build_trace(setups: Seq<bool>, from: nat) -> Seq<Event>
    decreases setups.len() - from,
{
    if from >= setups.len() {
        Seq::empty()
    } else if setups[from as int] {
        build_trace(setups, from + 1).push(Event::Setup(from as usize))
    } else {
        build_trace(setups, from + 1)
    }
}

/// The order in which the stages of a chain of `n` stages are built: from
/// the last declared, which is innermost, to the first.
pub open spec fn fold_plan(n: nat) -> Seq<usize> {
    Seq::new(n, |k: int| (n - 1 - k) as usize)
}

/// The setups that run while the first `k` stages of `plan` are built: that
/// of each stage that has one, when the stage is built.
pub open spec fn setup_events(setups: Seq<bool>, plan: Seq<usize>, k: nat) -> Seq<Event>
    decreases k,
{
    if k == 0 || k > plan.len() {
        Seq::empty()
    } else if plan[k - 1] < setups.len() && setups[plan[k - 1] as int] {
        setup_events(setups, plan, (k - 1) as nat).push(Event::Setup(plan[k - 1]))
    } else {
        setup_events(setups, plan, (k - 1) as nat)
    }
}

/// The events of `calls` calls, one after the other.
pub open spec fn calls_trace(n: nat, calls: nat) -> Seq<Event>
    decreases calls,
{
    if calls == 0 {
        Seq::empty()
    } else {
        calls_trace(n, (calls - 1) as nat) + call_trace(n)
    }
}

/// The events of the life of a chain: its build, then `calls` calls.
pub open spec fn life_trace(setups: Seq<bool>, calls: nat) -> Seq<Event> {
    build_trace(setups, 0) + calls_trace(setups.len(), calls)
}

/// How often `e` occurs in `s`.
pub open spec fn occurrences(s: Seq<Event>, e: Event) -> nat
    decreases s.len(),
{
    if s.len() == 0 {
        0
    } else {
        occurrences(s.drop_last(), e) + if s.last() == e {
            1nat
        } else {
            0nat
        }
    }
}

/// The shape of a chain: for each stage, in declaration order, whether it has
/// a setup.
pub struct Chain {
    setups: Vec<bool>,
}

impl View for Chain {
    type V = Seq<bool>;

    closed spec fn view(&self) -> Seq<bool> {
        self.setups@
    }
}

impl Chain {
    /// The chain of the stages whose setups are as `setups` says.
    pub fn new(setups: Vec<bool>) -> (r: Self)
        ensures
            r@ == setups@,
    {
        Chain { setups }
    }

    /// The number of stages.
    pub fn len(&self) -> (r: usize)
        ensures
            r == self@.len(),
    {
        self.setups.len()
    }

    /// What starts a call: the first stage, or the handler where there is no
    /// stage.
    pub fn entry(&self) -> (r: Target)
        ensures
            r == entry_target(self@.len()),
    {
        if self.setups.len() == 0 {
            Target::Handler
        } else {
            Target::Stage(0)
        }
    }

    /// What the continuation handed to stage `from` runs: the stage declared
    /// after it, or the handler where it is the last.
    pub fn next(&self, from: usize) -> (r: Target)
        ensures
            r == next_target(self@.len(), from as nat),
    {
        let n: usize = self.setups.len();
        if n >= 2 && from < n - 1 {
            Target::Stage(from + 1)
        } else {
            Target::Handler
        }
    }

    /// The stage that resumes when `from` has resolved, `None` where the
    /// call has resolved with it.
    pub fn outer(&self, from: Target) -> (r: Option<usize>)
        ensures
            r == outer_stage(self@.len(), from),
    {
        let n: usize = self.setups.len();
        match from {
            Target::Stage(i) => {
                if 0 < i && i < n {
                    Some(i - 1)
                } else {
                    None
                }
            },
            Target::Handler => {
                if 0 < n {
                    Some(n - 1)
                } else {
                    None
                }
            },
        }
    }

    /// The stages in the order in which they are built: innermost first.
    pub fn fold_order(&self) -> (r: Vec<usize>)
        ensures
            r@ == fold_plan(self@.len()),
    {
        let n: usize = self.setups.len();
        let mut out: Vec<usize> = Vec::new();
        let mut i: usize = n;
        while i > 0
            invariant
                i <= n,
                out@.len() == n - i,
                forall|k: int| 0 <= k < out@.len() ==> out@[k] == fold_plan(n as nat)[k],
            decreases i,
        {
            i -= 1;
            out.push(i);
        }
        assert(out@ =~= fold_plan(n as nat));
        out
    }

    /// The events of the build, in their order.
    pub fn build_order(&self) -> (r: Vec<Event>)
        ensures
            r@ == build_trace(self@, 0),
    {
        let mut out: Vec<Event> = Vec::new();
        let mut i: usize = self.setups.len();
        while i > 0
            invariant
                i <= self.setups.len(),
                out@ == build_trace(self@, i as nat),
            decreases i,
        {
            i -= 1;
            if self.setups[i] {
                out.push(Event::Setup(i));
            }
        }
        out
    }

    /// The events of one call in which every stage delegates, in their order.
    pub fn call_order(&self) -> (r: Vec<Event>)
        ensures
            r@ == call_trace(self@.len()),
    {
        let n: usize = self.setups.len();
        let mut out: Vec<Event> = Vec::new();
        let mut i: usize = 0;
        while i < n
            invariant
                i <= n,
                out@.len() == i,
                forall|k: int| 0 <= k < i ==> out@[k] == call_trace(n as nat)[k],
            decreases n - i,
        {
            out.push(Event::Enter(i));
            i += 1;
        }
        out.push(Event::Handler);
        let mut j: usize = n;
        while j > 0
            invariant
                j <= n,
                out@.len() == 2 * n + 1 - j,
                forall|k: int| 0 <= k < out@.len() ==> out@[k] == call_trace(n as nat)[k],
            decreases j,
        {
            j -= 1;
            out.push(Event::Leave(j));
        }
        assert(out@ =~= call_trace(n as nat));
        out
    }
}

/// A call begins with what `entry` gives; each stage is followed by what its
/// continuation runs; and stage `k` is left after everything inside it, at
/// the mirrored place.
pub proof fn law_call_order(n: nat, k: nat)
    requires
        k < n,
        n <= usize::MAX,
    ensures
        call_trace(n).len() == 2 * n + 1,
        call_trace(n)[0] == begins(entry_target(n)),
        call_trace(n)[k as int] == Event::Enter(k as usize),
        call_trace(n)[k as int + 1] == begins(next_target(n, k)),
        call_trace(n)[n as int] == Event::Handler,
        call_trace(n)[2 * n as int - k as int] == Event::Leave(k as usize),
{
}

/// After the handler, and after each stage that is left, the stage that
/// `outer` names is left next; the first stage is left last.
pub proof fn law_leave_order(n: nat, k: nat)
    requires
        k < n,
        n <= usize::MAX,
    ensures
        call_trace(n)[n as int + 1] == Event::Leave(outer_stage(n, Target::Handler)->0),
        k > 0 ==> call_trace(n)[2 * n as int - k as int + 1] == Event::Leave(
            outer_stage(n, Target::Stage(k as usize))->0,
        ),
        call_trace(n).last() == Event::Leave(0),
        outer_stage(n, Target::Stage(0)) is None,
{
}

/// The stage built at step `k` is wrapped round what the steps before it
/// built: its continuation runs the stage built just before, or the handler
/// at the first step. In a call it is entered and left at mirrored places
/// round the handler, `k` steps away from it.
pub proof fn law_fold_order(n: nat, k: nat)
    requires
        k < n,
        n <= usize::MAX,
    ensures
        fold_plan(n).len() == n,
        fold_plan(n)[k as int] == n - 1 - k,
        next_target(n, fold_plan(n)[k as int] as nat) == if k == 0 {
            Target::Handler
        } else {
            Target::Stage(fold_plan(n)[k as int - 1])
        },
        entry_target(n) == Target::Stage(fold_plan(n)[n as int - 1]),
        call_trace(n)[n as int - 1 - k as int] == Event::Enter(fold_plan(n)[k as int]),
        call_trace(n)[n as int + 1 + k as int] == Event::Leave(fold_plan(n)[k as int]),
{
}

/// The setups that run while the last stages of a chain are built, along the
/// order of the build, are the events of the build of those stages.
pub proof fn lemma_build_along_fold(setups: Seq<bool>, from: nat)
    requires
        from <= setups.len(),
        setups.len() <= usize::MAX,
    ensures
        build_trace(setups, from) == setup_events(
            setups,
            fold_plan(setups.len()),
            (setups.len() - from) as nat,
        ),
    decreases setups.len() - from,
{
    if from < setups.len() {
        lemma_build_along_fold(setups, from + 1);
        let plan = fold_plan(setups.len());
        let k = (setups.len() - from) as nat;
        assert(plan[k - 1] == from);
    }
}

/// Running, along the order of the build, the setup of each stage that has
/// one gives the events of the build.
pub proof fn law_setups_along_fold(setups: Seq<bool>)
    requires
        setups.len() <= usize::MAX,
    ensures
        build_trace(setups, 0) == setup_events(setups, fold_plan(setups.len()), setups.len()),
{
    lemma_build_along_fold(setups, 0);
}

/// With two stages around a handler, a call enters the first stage, enters
/// the second, runs the handler, leaves the second and leaves the first.
pub proof fn law_two_stages()
    ensures
        call_trace(2) == seq![
            Event::Enter(0),
            Event::Enter(1),
            Event::Handler,
            Event::Leave(1),
            Event::Leave(0),
        ],
{
    assert(call_trace(2) =~= seq![
        Event::Enter(0),
        Event::Enter(1),
        Event::Handler,
        Event::Leave(1),
        Event::Leave(0),
    ]);
}

/// Occurrences add up over a concatenation.
pub proof fn lemma_occurrences_add(a: Seq<Event>, b: Seq<Event>, e: Event)
    ensures
        occurrences(a + b, e) == occurrences(a, e) + occurrences(b, e),
    decreases b.len(),
{
    if b.len() == 0 {
        assert(a + b =~= a);
    } else {
        assert((a + b).drop_last() =~= a + b.drop_last());
        lemma_occurrences_add(a, b.drop_last(), e);
    }
}

/// No call runs a setup.
pub proof fn lemma_calls_run_no_setup(n: nat, calls: nat, i: usize)
    ensures
        occurrences(calls_trace(n, calls), Event::Setup(i)) == 0,
    decreases calls,
{
    if calls > 0 {
        lemma_calls_run_no_setup(n, (calls - 1) as nat, i);
        lemma_occurrences_add(calls_trace(n, (calls - 1) as nat), call_trace(n), Event::Setup(i));
        lemma_absent(call_trace(n), Event::Setup(i));
    }
}

/// What equals no element of a sequence occurs in it zero times.
pub proof fn lemma_absent(s: Seq<Event>, e: Event)
    requires
        forall|k: int| 0 <= k < s.len() ==> s[k] != e,
    ensures
        occurrences(s, e) == 0,
    decreases s.len(),
{
    if s.len() > 0 {
        lemma_absent(s.drop_last(), e);
    }
}

/// The build of the stages from `from` on runs the setup of stage `i` once if
/// the stage is among them and has one, and else not at all.
pub proof fn lemma_build_runs_setup_once(setups: Seq<bool>, from: nat, i: usize)
    requires
        setups.len() <= usize::MAX,
    ensures
        occurrences(build_trace(setups, from), Event::Setup(i)) == if from <= i < setups.len()
            && setups[i as int] {
            1nat
        } else {
            0nat
        },
    decreases setups.len() - from,
{
    if from < setups.len() {
        lemma_build_runs_setup_once(setups, from + 1, i);
        if setups[from as int] {
            let rest = build_trace(setups, from + 1);
            assert(rest.push(Event::Setup(from as usize)).drop_last() =~= rest);
        }
    }
}

/// Over the build of a chain and any number of calls, the setup of each stage
/// that has one runs exactly once, and no other setup runs.
pub proof fn law_setup_runs_once(setups: Seq<bool>, calls: nat, i: usize)
    requires
        setups.len() <= usize::MAX,
    ensures
        occurrences(life_trace(setups, calls), Event::Setup(i)) == if i < setups.len()
            && setups[i as int] {
            1nat
        } else {
            0nat
        },
{
    lemma_occurrences_add(
        build_trace(setups, 0),
        calls_trace(setups.len(), calls),
        Event::Setup(i),
    );
    lemma_build_runs_setup_once(setups, 0, i);
    lemma_calls_run_no_setup(setups.len(), calls, i);
}

} // verus!
