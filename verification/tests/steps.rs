use reactive_core::error::ReactiveError;
use reactive_core::handle::{EffectHandle, Fetched, FlushStep, ReadSignal, Refresh, WriteSignal};
use reactive_core::model::{Freshness, NodeKind};
use reactive_core::runtime::Runtime;

fn scoped() -> (Runtime<i64>, usize) {
    let mut rt: Runtime<i64> = Runtime::new();
    let root = rt.create_scope();
    rt.enter_scope(root).unwrap();
    (rt, root)
}

/// A memo that reads `source` once and holds `value`.
fn memo_of(rt: &mut Runtime<i64>, source: ReadSignal, value: i64) -> ReadSignal {
    let m = rt.begin_memo().unwrap();
    assert!(matches!(rt.read(source), Ok(Fetched::Ready(_))));
    assert_eq!(rt.finish_memo(value), Some(true));
    m
}

/// An effect that reads `sources` once.
fn effect_of(rt: &mut Runtime<i64>, sources: &[ReadSignal]) -> EffectHandle {
    let e = rt.begin_effect().unwrap();
    for s in sources {
        assert!(matches!(rt.read(*s), Ok(Fetched::Ready(_))));
    }
    assert!(rt.finish_effect());
    e
}

#[test]
fn new_runtime_is_empty() {
    let rt: Runtime<i64> = Runtime::new();
    assert_eq!(rt.node_count(), 0);
    assert_eq!(rt.scope_count(), 0);
    assert_eq!(rt.current_scope(), None);
    assert_eq!(rt.observer(), None);
    assert!(!rt.has_pending());
    assert_eq!(rt.depth(), 0);
    assert_eq!(rt.batch_depth(), 0);
}

#[test]
fn creation_outside_any_scope_fails() {
    let mut rt: Runtime<i64> = Runtime::new();
    assert_eq!(rt.create_signal(1), Err(ReactiveError::NoActiveScope));
    assert_eq!(rt.begin_memo(), Err(ReactiveError::NoActiveScope));
    assert_eq!(rt.begin_effect(), Err(ReactiveError::NoActiveScope));
    assert_eq!(rt.node_count(), 0);
    let s = rt.create_scope();
    assert_eq!(rt.create_signal(1), Err(ReactiveError::NoActiveScope));
    rt.enter_scope(s).unwrap();
    assert!(rt.create_signal(1).is_ok());
    assert_eq!(rt.exit_scope(), Some(s));
    assert_eq!(rt.create_signal(1), Err(ReactiveError::NoActiveScope));
    assert_eq!(rt.exit_scope(), None);
}

#[test]
fn creation_in_a_disposed_scope_fails() {
    let (mut rt, root) = scoped();
    rt.dispose_scope(root).unwrap();
    assert_eq!(rt.current_scope(), None);
    assert_eq!(rt.create_signal(1), Err(ReactiveError::NoActiveScope));
}

#[test]
fn signal_holds_its_initial_value() {
    let (mut rt, root) = scoped();
    let (r, w) = rt.create_signal(41).unwrap();
    assert_eq!(r.id, 0);
    assert_eq!(w.id, 0);
    assert_eq!(rt.read(r), Ok(Fetched::Ready(&41)));
    assert_eq!(rt.read_untracked(r), Ok(Fetched::Ready(&41)));
    assert_eq!(rt.kind(r.id), Some(NodeKind::Signal));
    assert_eq!(rt.state(r.id), Some(Freshness::Clean));
    assert_eq!(rt.version(r.id), Some(0));
    assert_eq!(rt.owner_of(r.id), Some(root));
    assert_eq!(rt.cached(r.id), Some(&41));
    assert_eq!(rt.kind(7), None);
    assert_eq!(rt.cached(7), None);
}

#[test]
fn every_write_bumps_the_version() {
    let (mut rt, _) = scoped();
    let (r, w) = rt.create_signal(0).unwrap();
    assert_eq!(rt.write(w, 3), Ok(false));
    assert_eq!(rt.version(r.id), Some(1));
    assert_eq!(rt.read(r), Ok(Fetched::Ready(&3)));
    assert_eq!(rt.write(w, 3), Ok(false));
    assert_eq!(rt.version(r.id), Some(2));
    assert_eq!(rt.read(r), Ok(Fetched::Ready(&3)));
}

#[test]
fn update_applies_the_function_to_the_current_value() {
    let (mut rt, _) = scoped();
    let (r, w) = rt.create_signal(10).unwrap();
    assert_eq!(rt.update(w, |n| n + 1), Ok(false));
    assert_eq!(rt.read(r), Ok(Fetched::Ready(&11)));
    assert_eq!(rt.update(w, |n| n * 3), Ok(false));
    assert_eq!(rt.read(r), Ok(Fetched::Ready(&33)));
    assert_eq!(rt.version(r.id), Some(2));
}

#[test]
fn use_after_dispose_is_reported() {
    let (mut rt, root) = scoped();
    let child = rt.create_scope();
    rt.enter_scope(child).unwrap();
    let (r, w) = rt.create_signal(5).unwrap();
    rt.exit_scope();
    assert_eq!(rt.parent_of(child), Some(root));
    assert_eq!(rt.dispose_scope(child), Ok(()));
    assert!(!rt.is_live(r.id));
    assert_eq!(rt.read(r), Err(ReactiveError::UseAfterDispose));
    assert_eq!(rt.read_untracked(r), Err(ReactiveError::UseAfterDispose));
    assert_eq!(rt.write(w, 6), Err(ReactiveError::UseAfterDispose));
    assert_eq!(rt.update(w, |n| n + 1), Err(ReactiveError::UseAfterDispose));
    assert_eq!(rt.refresh(r.id), Err(ReactiveError::UseAfterDispose));
    assert_eq!(rt.cached(r.id), Some(&5));
    assert_eq!(rt.dispose_scope(child), Err(ReactiveError::UseAfterDispose));
    assert_eq!(rt.enter_scope(child), Err(ReactiveError::UseAfterDispose));
    assert_eq!(rt.create_child_scope(child), Err(ReactiveError::UseAfterDispose));
    assert_eq!(rt.dispose_scope(99), Err(ReactiveError::UseAfterDispose));
}

#[test]
fn handles_that_name_the_wrong_kind_are_refused() {
    let (mut rt, _) = scoped();
    let (a, _) = rt.create_signal(1).unwrap();
    let m = memo_of(&mut rt, a, 2);
    let e = effect_of(&mut rt, &[a]);
    assert_eq!(rt.write(WriteSignal { id: m.id }, 9), Err(ReactiveError::UseAfterDispose));
    assert_eq!(rt.read(ReadSignal { id: e.id }), Err(ReactiveError::UseAfterDispose));
    assert_eq!(rt.read(ReadSignal { id: 50 }), Err(ReactiveError::UseAfterDispose));
    assert_eq!(rt.write(WriteSignal { id: 50 }, 9), Err(ReactiveError::UseAfterDispose));
    assert_eq!(rt.read(m), Ok(Fetched::Ready(&2)));
}

#[test]
fn disposal_reaches_the_scopes_below() {
    let (mut rt, root) = scoped();
    let outer = rt.create_scope();
    rt.enter_scope(outer).unwrap();
    let (a, _) = rt.create_signal(1).unwrap();
    let inner = rt.create_scope();
    rt.enter_scope(inner).unwrap();
    let (b, _) = rt.create_signal(2).unwrap();
    rt.exit_scope();
    rt.exit_scope();
    let (c, _) = rt.create_signal(3).unwrap();
    assert_eq!(rt.parent_of(inner), Some(outer));
    assert_eq!(rt.parent_of(root), None);
    rt.dispose_scope(outer).unwrap();
    assert!(!rt.scope_alive(outer));
    assert!(!rt.scope_alive(inner));
    assert!(rt.scope_alive(root));
    assert_eq!(rt.read(a), Err(ReactiveError::UseAfterDispose));
    assert_eq!(rt.read(b), Err(ReactiveError::UseAfterDispose));
    assert_eq!(rt.read(c), Ok(Fetched::Ready(&3)));
}

#[test]
fn a_tracked_read_subscribes_the_observer_once() {
    let (mut rt, _) = scoped();
    let (a, _) = rt.create_signal(1).unwrap();
    let (b, _) = rt.create_signal(2).unwrap();
    let m = rt.begin_memo().unwrap();
    assert_eq!(rt.observer(), Some(m.id));
    assert_eq!(rt.depth(), 1);
    assert_eq!(rt.read(a), Ok(Fetched::Ready(&1)));
    assert_eq!(rt.read(b), Ok(Fetched::Ready(&2)));
    assert_eq!(rt.read(a), Ok(Fetched::Ready(&1)));
    assert_eq!(rt.finish_memo(3), Some(true));
    assert_eq!(rt.observer(), None);
    assert_eq!(rt.sources(m.id), vec![a.id, b.id]);
    assert_eq!(rt.subscribers(a.id), vec![m.id]);
    assert!(rt.depends(m.id, a.id));
    assert!(!rt.depends(a.id, m.id));
    assert_eq!(rt.state(m.id), Some(Freshness::Clean));
    assert_eq!(rt.read(m), Ok(Fetched::Ready(&3)));
    assert_eq!(rt.subscribers(a.id).len(), 1);
}

#[test]
fn an_untracked_read_subscribes_nothing() {
    let (mut rt, _) = scoped();
    let (a, set_a) = rt.create_signal(1).unwrap();
    let (b, set_b) = rt.create_signal(2).unwrap();
    let m = rt.begin_memo().unwrap();
    assert_eq!(rt.read_untracked(a), Ok(Fetched::Ready(&1)));
    assert_eq!(rt.read(b), Ok(Fetched::Ready(&2)));
    assert_eq!(rt.finish_memo(3), Some(true));
    assert_eq!(rt.sources(m.id), vec![b.id]);
    assert!(rt.subscribers(a.id).is_empty());

    assert_eq!(rt.write(set_a, 10), Ok(false));
    assert_eq!(rt.state(m.id), Some(Freshness::Clean));
    assert!(!rt.has_pending());
    assert_eq!(rt.read(m), Ok(Fetched::Ready(&3)));

    assert_eq!(rt.write(set_b, 20), Ok(true));
    assert_eq!(rt.state(m.id), Some(Freshness::Dirty));
    assert_eq!(rt.pending(), vec![m.id]);
    assert_eq!(rt.read(m), Ok(Fetched::Stale));
}

#[test]
fn a_write_dirties_readers_and_stales_what_is_further_down() {
    let (mut rt, _) = scoped();
    let (a, set_a) = rt.create_signal(1).unwrap();
    let m1 = memo_of(&mut rt, a, 10);
    let m2 = memo_of(&mut rt, m1, 20);
    let e = effect_of(&mut rt, &[m2]);
    let (other, _) = rt.create_signal(7).unwrap();
    let unrelated = memo_of(&mut rt, other, 70);

    assert_eq!(rt.write(set_a, 2), Ok(true));
    assert_eq!(rt.state(a.id), Some(Freshness::Clean));
    assert_eq!(rt.state(m1.id), Some(Freshness::Dirty));
    assert_eq!(rt.state(m2.id), Some(Freshness::Stale));
    assert_eq!(rt.state(e.id), Some(Freshness::Stale));
    assert_eq!(rt.state(unrelated.id), Some(Freshness::Clean));
    assert_eq!(rt.pending(), vec![m1.id, m2.id, e.id]);
    assert_eq!(rt.read(a), Ok(Fetched::Ready(&2)));
    assert_eq!(rt.read(m1), Ok(Fetched::Stale));
    assert_eq!(rt.read(m2), Ok(Fetched::Stale));
    assert_eq!(rt.cached(m1.id), Some(&10));
    // a second write queues nothing twice and asks for no second flush
    assert_eq!(rt.write(set_a, 3), Ok(false));
    assert_eq!(rt.pending(), vec![m1.id, m2.id, e.id]);
}

#[test]
fn a_flush_runs_memos_before_effects() {
    let (mut rt, _) = scoped();
    let (a, set_a) = rt.create_signal(1).unwrap();
    let e = effect_of(&mut rt, &[a]);
    let m = memo_of(&mut rt, a, 10);
    assert_eq!(rt.write(set_a, 2), Ok(true));
    assert_eq!(rt.pending(), vec![e.id, m.id]);

    assert_eq!(rt.flush_next(), Ok(FlushStep::Run(m.id)));
    assert_eq!(rt.observer(), Some(m.id));
    assert!(rt.sources(m.id).is_empty());
    assert_eq!(rt.read(a), Ok(Fetched::Ready(&2)));
    assert_eq!(rt.finish_memo(20), Some(true));

    assert_eq!(rt.flush_next(), Ok(FlushStep::Run(e.id)));
    assert_eq!(rt.read(a), Ok(Fetched::Ready(&2)));
    assert!(rt.finish_effect());
    assert_eq!(rt.flush_next(), Ok(FlushStep::Done));
    assert_eq!(rt.flush_next(), Ok(FlushStep::Done));
    assert!(!rt.has_pending());
}

#[test]
fn an_unchanged_memo_keeps_its_subscribers_from_running() {
    let (mut rt, _) = scoped();
    let (a, set_a) = rt.create_signal(1).unwrap();
    let sign = memo_of(&mut rt, a, 1);
    let e = effect_of(&mut rt, &[sign]);

    assert_eq!(rt.write(set_a, 5), Ok(true));
    assert_eq!(rt.state(sign.id), Some(Freshness::Dirty));
    assert_eq!(rt.state(e.id), Some(Freshness::Stale));

    assert_eq!(rt.flush_next(), Ok(FlushStep::Run(sign.id)));
    assert_eq!(rt.read(a), Ok(Fetched::Ready(&5)));
    assert_eq!(rt.finish_memo(1), Some(false));
    assert_eq!(rt.state(e.id), Some(Freshness::Stale));

    assert_eq!(rt.flush_next(), Ok(FlushStep::Settled(e.id)));
    assert_eq!(rt.state(e.id), Some(Freshness::Clean));
    assert_eq!(rt.flush_next(), Ok(FlushStep::Done));
    assert_eq!(rt.subscribers(sign.id), vec![e.id]);
}

#[test]
fn a_changed_memo_makes_its_subscribers_run() {
    let (mut rt, _) = scoped();
    let (a, set_a) = rt.create_signal(1).unwrap();
    let m = memo_of(&mut rt, a, 1);
    let e = effect_of(&mut rt, &[m]);
    assert_eq!(rt.write(set_a, 5), Ok(true));
    assert_eq!(rt.flush_next(), Ok(FlushStep::Run(m.id)));
    assert_eq!(rt.read(a), Ok(Fetched::Ready(&5)));
    assert_eq!(rt.finish_memo(25), Some(true));
    assert_eq!(rt.state(e.id), Some(Freshness::Dirty));
    assert_eq!(rt.flush_next(), Ok(FlushStep::Run(e.id)));
    assert_eq!(rt.read(m), Ok(Fetched::Ready(&25)));
    assert!(rt.finish_effect());
    assert_eq!(rt.flush_next(), Ok(FlushStep::Done));
}

#[test]
fn a_diamond_runs_its_join_once_and_last() {
    let (mut rt, _) = scoped();
    let (a, set_a) = rt.create_signal(1).unwrap();
    let join = {
        // created first, so that it stands first in the queue
        let e = rt.begin_effect().unwrap();
        assert_eq!(rt.read(a), Ok(Fetched::Ready(&1)));
        assert!(rt.finish_effect());
        e
    };
    let left = memo_of(&mut rt, a, 10);
    let right = memo_of(&mut rt, a, 100);
    // first round: the join comes to read both memos
    assert_eq!(rt.write(set_a, 2), Ok(true));
    assert_eq!(rt.flush_next(), Ok(FlushStep::Run(left.id)));
    assert_eq!(rt.read(a), Ok(Fetched::Ready(&2)));
    assert_eq!(rt.finish_memo(20), Some(true));
    assert_eq!(rt.flush_next(), Ok(FlushStep::Run(right.id)));
    assert_eq!(rt.read(a), Ok(Fetched::Ready(&2)));
    assert_eq!(rt.finish_memo(200), Some(true));
    assert_eq!(rt.flush_next(), Ok(FlushStep::Run(join.id)));
    assert_eq!(rt.read(left), Ok(Fetched::Ready(&20)));
    assert_eq!(rt.read(right), Ok(Fetched::Ready(&200)));
    assert!(rt.finish_effect());
    assert_eq!(rt.flush_next(), Ok(FlushStep::Done));
    assert_eq!(rt.sources(join.id), vec![left.id, right.id]);

    // second round: the join waits for both memos and runs once
    assert_eq!(rt.write(set_a, 3), Ok(true));
    assert_eq!(rt.pending(), vec![join.id, left.id, right.id]);
    assert_eq!(rt.state(join.id), Some(Freshness::Stale));
    assert_eq!(rt.refresh(join.id), Ok(Refresh::Blocked(left.id)));
    assert_eq!(rt.flush_next(), Ok(FlushStep::Run(left.id)));
    assert_eq!(rt.read(a), Ok(Fetched::Ready(&3)));
    assert_eq!(rt.finish_memo(30), Some(true));
    assert_eq!(rt.state(join.id), Some(Freshness::Dirty));
    assert_eq!(rt.refresh(join.id), Ok(Refresh::Blocked(right.id)));
    assert_eq!(rt.flush_next(), Ok(FlushStep::Run(right.id)));
    assert_eq!(rt.read(a), Ok(Fetched::Ready(&3)));
    assert_eq!(rt.finish_memo(300), Some(true));
    assert_eq!(rt.flush_next(), Ok(FlushStep::Run(join.id)));
    assert_eq!(rt.read(left), Ok(Fetched::Ready(&30)));
    assert_eq!(rt.read(right), Ok(Fetched::Ready(&300)));
    assert!(rt.finish_effect());
    assert_eq!(rt.flush_next(), Ok(FlushStep::Done));
}

#[test]
fn a_batch_coalesces_writes_into_one_flush() {
    let (mut rt, _) = scoped();
    let (a, set_a) = rt.create_signal(1).unwrap();
    let (b, set_b) = rt.create_signal(2).unwrap();
    let e = effect_of(&mut rt, &[a, b]);
    rt.batch_begin();
    assert_eq!(rt.batch_depth(), 1);
    assert_eq!(rt.write(set_a, 10), Ok(false));
    assert_eq!(rt.write(set_b, 20), Ok(false));
    assert_eq!(rt.pending(), vec![e.id]);
    assert!(rt.batch_end());
    assert_eq!(rt.batch_depth(), 0);
    assert_eq!(rt.flush_next(), Ok(FlushStep::Run(e.id)));
    assert_eq!(rt.read(a), Ok(Fetched::Ready(&10)));
    assert_eq!(rt.read(b), Ok(Fetched::Ready(&20)));
    assert!(rt.finish_effect());
    assert_eq!(rt.flush_next(), Ok(FlushStep::Done));
}

#[test]
fn closing_a_batch_asks_for_a_flush_only_when_it_is_the_last() {
    let (mut rt, _) = scoped();
    let (a, set_a) = rt.create_signal(1).unwrap();
    effect_of(&mut rt, &[a]);
    assert!(!rt.batch_end());
    rt.batch_begin();
    rt.batch_begin();
    assert_eq!(rt.write(set_a, 2), Ok(false));
    assert!(!rt.batch_end());
    assert!(rt.batch_end());
    assert!(!rt.batch_end());
    rt.batch_begin();
    assert!(rt.batch_end());
}

#[test]
fn writing_a_dependency_while_running_is_a_cycle() {
    let (mut rt, _) = scoped();
    let (a, set_a) = rt.create_signal(1).unwrap();
    let (b, set_b) = rt.create_signal(2).unwrap();
    let e = rt.begin_effect().unwrap();
    assert_eq!(rt.read(a), Ok(Fetched::Ready(&1)));
    assert_eq!(rt.write(set_a, 5), Err(ReactiveError::CyclicDependency));
    assert_eq!(rt.update(set_a, |n| n + 1), Err(ReactiveError::CyclicDependency));
    assert_eq!(rt.read(a), Ok(Fetched::Ready(&1)));
    assert_eq!(rt.version(a.id), Some(0));
    // a signal that the effect did not read can be written
    assert_eq!(rt.write(set_b, 5), Ok(false));
    assert!(rt.finish_effect());
    assert_eq!(rt.state(e.id), Some(Freshness::Clean));
    assert_eq!(rt.read(b), Ok(Fetched::Ready(&5)));
}

#[test]
fn writing_a_transitive_dependency_while_running_is_a_cycle() {
    let (mut rt, _) = scoped();
    let (a, set_a) = rt.create_signal(1).unwrap();
    let m1 = memo_of(&mut rt, a, 10);
    let m2 = memo_of(&mut rt, m1, 20);
    let _e = rt.begin_effect().unwrap();
    assert_eq!(rt.read(m2), Ok(Fetched::Ready(&20)));
    assert_eq!(rt.write(set_a, 5), Err(ReactiveError::CyclicDependency));
    assert_eq!(rt.state(m1.id), Some(Freshness::Clean));
    assert_eq!(rt.state(m2.id), Some(Freshness::Clean));
    assert!(!rt.has_pending());
    assert!(rt.finish_effect());
    assert_eq!(rt.write(set_a, 5), Ok(true));
}

#[test]
fn re_entering_an_evaluation_is_a_cycle() {
    let (mut rt, _) = scoped();
    let m = rt.begin_memo().unwrap();
    assert_eq!(rt.read(m), Err(ReactiveError::CyclicDependency));
    assert_eq!(rt.read_untracked(m), Err(ReactiveError::CyclicDependency));
    assert_eq!(rt.refresh(m.id), Err(ReactiveError::CyclicDependency));
    assert_eq!(rt.finish_memo(1), Some(true));
    assert_eq!(rt.refresh(m.id), Ok(Refresh::Fresh));
}

#[test]
fn a_flush_that_cannot_advance_reports_a_cycle() {
    let (mut rt, _) = scoped();
    let (a, set_a) = rt.create_signal(1).unwrap();
    let m = memo_of(&mut rt, a, 10);
    let e = effect_of(&mut rt, &[m]);
    assert_eq!(rt.write(set_a, 2), Ok(true));
    assert_eq!(rt.flush_next(), Ok(FlushStep::Run(m.id)));
    // the memo is still being evaluated: the effect that reads it cannot be settled
    assert_eq!(rt.pending(), vec![e.id]);
    assert_eq!(rt.flush_next(), Err(ReactiveError::CyclicDependency));
    assert_eq!(rt.pending(), vec![e.id]);
    assert_eq!(rt.read(a), Ok(Fetched::Ready(&2)));
    assert_eq!(rt.finish_memo(10), Some(false));
    assert_eq!(rt.flush_next(), Ok(FlushStep::Settled(e.id)));
    assert_eq!(rt.flush_next(), Ok(FlushStep::Done));
}

#[test]
fn refresh_brings_a_memo_up_to_date_on_demand() {
    let (mut rt, _) = scoped();
    let (a, set_a) = rt.create_signal(1).unwrap();
    let m1 = memo_of(&mut rt, a, 10);
    let m2 = memo_of(&mut rt, m1, 20);
    assert_eq!(rt.refresh(a.id), Ok(Refresh::Fresh));
    assert_eq!(rt.refresh(m2.id), Ok(Refresh::Fresh));
    rt.batch_begin();
    assert_eq!(rt.write(set_a, 2), Ok(false));
    assert_eq!(rt.read(m2), Ok(Fetched::Stale));
    assert_eq!(rt.refresh(m2.id), Ok(Refresh::Blocked(m1.id)));
    assert_eq!(rt.refresh(m1.id), Ok(Refresh::Run(m1.id)));
    assert_eq!(rt.read(a), Ok(Fetched::Ready(&2)));
    assert_eq!(rt.finish_memo(10), Some(false));
    // the memo above did not change: the one below is clean without running
    assert_eq!(rt.refresh(m2.id), Ok(Refresh::Fresh));
    assert_eq!(rt.read(m2), Ok(Fetched::Ready(&20)));
    assert!(!rt.has_pending());
    assert!(!rt.batch_end());
}

#[test]
fn dependencies_are_rebuilt_on_every_run() {
    let (mut rt, _) = scoped();
    let (a, set_a) = rt.create_signal(1).unwrap();
    let (b, set_b) = rt.create_signal(2).unwrap();
    let m = memo_of(&mut rt, a, 1);
    assert_eq!(rt.sources(m.id), vec![a.id]);
    assert_eq!(rt.write(set_a, 5), Ok(true));
    assert_eq!(rt.flush_next(), Ok(FlushStep::Run(m.id)));
    // this time the body reads only b
    assert_eq!(rt.read(b), Ok(Fetched::Ready(&2)));
    assert_eq!(rt.finish_memo(2), Some(true));
    assert_eq!(rt.flush_next(), Ok(FlushStep::Done));
    assert_eq!(rt.sources(m.id), vec![b.id]);
    assert!(rt.subscribers(a.id).is_empty());
    assert_eq!(rt.write(set_a, 6), Ok(false));
    assert_eq!(rt.state(m.id), Some(Freshness::Clean));
    assert_eq!(rt.write(set_b, 7), Ok(true));
    assert_eq!(rt.state(m.id), Some(Freshness::Dirty));
}

#[test]
fn ending_an_evaluation_that_is_not_in_progress_changes_nothing() {
    let (mut rt, _) = scoped();
    assert_eq!(rt.finish_memo(1), None);
    assert!(!rt.finish_effect());
    let e = rt.begin_effect().unwrap();
    assert_eq!(rt.finish_memo(1), None);
    assert_eq!(rt.observer(), Some(e.id));
    assert!(rt.finish_effect());
    let m = rt.begin_memo().unwrap();
    assert!(!rt.finish_effect());
    assert_eq!(rt.observer(), Some(m.id));
    assert_eq!(rt.finish_memo(1), Some(true));
    assert_eq!(rt.cached(e.id), None);
    assert_eq!(rt.kind(e.id), Some(NodeKind::Effect));
    assert_eq!(rt.kind(m.id), Some(NodeKind::Memo));
}

#[test]
fn evaluations_nest() {
    let (mut rt, _) = scoped();
    let (a, _) = rt.create_signal(1).unwrap();
    let outer = rt.begin_effect().unwrap();
    let inner = rt.begin_memo().unwrap();
    assert_eq!(rt.depth(), 2);
    assert_eq!(rt.read(a), Ok(Fetched::Ready(&1)));
    assert_eq!(rt.finish_memo(2), Some(true));
    assert_eq!(rt.observer(), Some(outer.id));
    assert_eq!(rt.read(inner), Ok(Fetched::Ready(&2)));
    assert!(rt.finish_effect());
    assert_eq!(rt.sources(inner.id), vec![a.id]);
    assert_eq!(rt.sources(outer.id), vec![inner.id]);
    assert!(rt.is_running(outer.id) == false);
}

#[test]
fn disposing_a_scope_from_its_own_effect_spares_the_rest_of_the_flush() {
    let (mut rt, _) = scoped();
    let (a, set_a) = rt.create_signal(1).unwrap();
    let doomed = rt.create_scope();
    rt.enter_scope(doomed).unwrap();
    let first = effect_of(&mut rt, &[a]);
    let sibling = effect_of(&mut rt, &[a]);
    rt.exit_scope();
    let second = effect_of(&mut rt, &[a]);
    let third = effect_of(&mut rt, &[a]);

    assert_eq!(rt.write(set_a, 2), Ok(true));
    assert_eq!(rt.pending(), vec![first.id, sibling.id, second.id, third.id]);
    assert_eq!(rt.flush_next(), Ok(FlushStep::Run(first.id)));
    assert_eq!(rt.read(a), Ok(Fetched::Ready(&2)));
    // the effect disposes the scope that owns it
    assert_eq!(rt.dispose_scope(doomed), Ok(()));
    assert_eq!(rt.pending(), vec![second.id, third.id]);
    assert_eq!(rt.observer(), None);
    assert_eq!(rt.depth(), 1);
    assert!(rt.finish_effect());
    assert_eq!(rt.depth(), 0);
    assert_eq!(rt.subscribers(a.id), vec![second.id, third.id]);

    assert_eq!(rt.flush_next(), Ok(FlushStep::Run(second.id)));
    assert_eq!(rt.read(a), Ok(Fetched::Ready(&2)));
    assert!(rt.finish_effect());
    assert_eq!(rt.flush_next(), Ok(FlushStep::Run(third.id)));
    assert_eq!(rt.read(a), Ok(Fetched::Ready(&2)));
    assert!(rt.finish_effect());
    assert_eq!(rt.flush_next(), Ok(FlushStep::Done));
    assert_eq!(rt.refresh(first.id), Err(ReactiveError::UseAfterDispose));
}

#[test]
fn a_memo_disposed_while_it_runs_is_left_alone() {
    let (mut rt, _) = scoped();
    let (a, _) = rt.create_signal(1).unwrap();
    let s = rt.create_scope();
    rt.enter_scope(s).unwrap();
    let m = rt.begin_memo().unwrap();
    rt.exit_scope();
    assert_eq!(rt.read(a), Ok(Fetched::Ready(&1)));
    rt.dispose_scope(s).unwrap();
    // a dead observer subscribes to nothing
    assert_eq!(rt.read(a), Ok(Fetched::Ready(&1)));
    assert!(rt.subscribers(a.id).is_empty());
    assert_eq!(rt.finish_memo(5), Some(false));
    assert_eq!(rt.cached(m.id), None);
    assert_eq!(rt.read(m), Err(ReactiveError::UseAfterDispose));
}

#[test]
fn disposal_unsubscribes_in_both_directions() {
    let (mut rt, _) = scoped();
    let (a, set_a) = rt.create_signal(1).unwrap();
    let s = rt.create_scope();
    rt.enter_scope(s).unwrap();
    let (b, _) = rt.create_signal(2).unwrap();
    let inner = effect_of(&mut rt, &[a, b]);
    rt.exit_scope();
    let outer = effect_of(&mut rt, &[a, b]);
    assert_eq!(rt.subscribers(a.id), vec![inner.id, outer.id]);
    rt.dispose_scope(s).unwrap();
    assert_eq!(rt.subscribers(a.id), vec![outer.id]);
    assert_eq!(rt.sources(outer.id), vec![a.id]);
    assert!(rt.sources(inner.id).is_empty());
    assert_eq!(rt.write(set_a, 3), Ok(true));
    assert_eq!(rt.pending(), vec![outer.id]);
}

#[test]
fn child_scopes_can_be_created_under_any_live_scope() {
    let (mut rt, root) = scoped();
    let a = rt.create_child_scope(root).unwrap();
    let b = rt.create_child_scope(a).unwrap();
    assert_eq!(rt.parent_of(a), Some(root));
    assert_eq!(rt.parent_of(b), Some(a));
    assert_eq!(rt.current_scope(), Some(root));
    rt.release_scope(a);
    assert!(!rt.scope_alive(b));
    rt.release_scope(a);
    assert!(rt.scope_alive(root));
    assert_eq!(rt.scope_count(), 3);
}
