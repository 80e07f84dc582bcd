use rspc::middleware::{Chain, Event, Middleware, Target};

#[test]
fn two_stages_are_entered_in_order_and_left_in_reverse() {
    let chain = Chain::new(vec![false, false]);
    assert_eq!(
        chain.call_order(),
        vec![Event::Enter(0), Event::Enter(1), Event::Handler, Event::Leave(1), Event::Leave(0)]
    );
}

#[test]
fn a_chain_without_stages_runs_the_handler_alone() {
    let chain = Chain::new(vec![]);
    assert_eq!(chain.len(), 0);
    assert_eq!(chain.call_order(), vec![Event::Handler]);
    assert_eq!(chain.entry(), Target::Handler);
    assert_eq!(chain.next(0), Target::Handler);
    assert!(chain.build_order().is_empty());
}

#[test]
fn continuation_runs_the_next_stage_or_the_handler() {
    let chain = Chain::new(vec![true, false, true]);
    assert_eq!(chain.len(), 3);
    assert_eq!(chain.entry(), Target::Stage(0));
    assert_eq!(chain.next(0), Target::Stage(1));
    assert_eq!(chain.next(1), Target::Stage(2));
    assert_eq!(chain.next(2), Target::Handler);
    assert_eq!(chain.next(usize::MAX), Target::Handler);
}

#[test]
fn build_runs_each_setup_once_innermost_first() {
    let chain = Chain::new(vec![true, false, true]);
    assert_eq!(chain.build_order(), vec![Event::Setup(2), Event::Setup(0)]);
    let mut life = chain.build_order();
    for _ in 0..5 {
        life.extend(chain.call_order());
    }
    for i in 0..3 {
        let n = life.iter().filter(|e| **e == Event::Setup(i)).count();
        assert_eq!(n, if i == 1 { 0 } else { 1 });
    }
}

#[test]
fn a_new_stage_has_no_setup_until_one_is_given() {
    let m: Middleware<u8, &str> = Middleware::new("handler");
    assert!(!m.has_setup());
    assert_eq!(m.handler, "handler");
    let m = m.setup(7);
    assert!(m.has_setup());
    assert_eq!(m.setup, Some(7));
    assert_eq!(m.handler, "handler");
    let m = m.setup(8);
    assert_eq!(m.setup, Some(8));
}

#[test]
fn a_resolved_target_resumes_the_stage_before_it() {
    let chain = Chain::new(vec![false, false, false]);
    assert_eq!(chain.outer(Target::Handler), Some(2));
    assert_eq!(chain.outer(Target::Stage(2)), Some(1));
    assert_eq!(chain.outer(Target::Stage(1)), Some(0));
    assert_eq!(chain.outer(Target::Stage(0)), None);
    assert_eq!(chain.outer(Target::Stage(3)), None);
    assert_eq!(Chain::new(vec![]).outer(Target::Handler), None);
}

#[test]
fn stages_are_built_innermost_first() {
    assert_eq!(Chain::new(vec![false, true, false]).fold_order(), vec![2, 1, 0]);
    assert_eq!(Chain::new(vec![true]).fold_order(), vec![0]);
    assert!(Chain::new(vec![]).fold_order().is_empty());
    let chain = Chain::new(vec![true, false, true]);
    let setups: Vec<Event> =
        chain.fold_order().into_iter().filter(|i| *i != 1).map(Event::Setup).collect();
    assert_eq!(setups, chain.build_order());
}
