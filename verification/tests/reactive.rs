use leptos_reactive::expr::Expr;
use leptos_reactive::runtime::{ReactiveError, Runtime, EFFECT_RUN_LIMIT};

fn read_expr(r: leptos_reactive::runtime::ReadSignal) -> Expr {
    Expr::Read(r.id)
}

#[test]
fn signal_read_write_roundtrip() {
    let mut rt = Runtime::new();
    let root = rt.root_scope();
    let (a, set_a) = rt.create_signal(root, 7, false).unwrap();
    assert_eq!(rt.read(a), Ok(7));
    assert_eq!(rt.write(set_a, 9), Ok(()));
    assert_eq!(rt.read(a), Ok(9));
}

#[test]
fn equality_skip_write_is_a_complete_noop() {
    let mut rt = Runtime::new();
    let root = rt.root_scope();
    let (a, set_a) = rt.create_signal(root, 5, true).unwrap();
    let e = rt.create_effect(root, read_expr(a), None).unwrap();
    let v_before = rt.version_of(a).unwrap();
    assert_eq!(rt.observations(e), vec![5]);
    // writing the current value again: no version bump, no reruns
    assert_eq!(rt.write(set_a, 5), Ok(()));
    assert_eq!(rt.version_of(a).unwrap(), v_before);
    assert_eq!(rt.observations(e), vec![5]);
}

#[test]
fn write_without_equality_skip_always_bumps_version() {
    let mut rt = Runtime::new();
    let root = rt.root_scope();
    let (a, set_a) = rt.create_signal(root, 5, false).unwrap();
    let v_before = rt.version_of(a).unwrap();
    assert_eq!(rt.write(set_a, 5), Ok(()));
    assert!(rt.version_of(a).unwrap() > v_before);
}

#[test]
fn memo_computes_lazily_and_caches() {
    let mut rt = Runtime::new();
    let root = rt.root_scope();
    let (a, set_a) = rt.create_signal(root, 10, false).unwrap();
    let m = rt
        .create_memo(root, Expr::Add(Box::new(read_expr(a)), Box::new(Expr::Lit(1))))
        .unwrap();
    assert_eq!(rt.read(m), Ok(11));
    assert_eq!(rt.write(set_a, 20), Ok(()));
    assert_eq!(rt.read(m), Ok(21));
}

#[test]
fn glitch_free_memo_suppresses_unchanged_values() {
    // Signal A (initial 2), Memo M = A % 2, Effect E reading M: writing 4
    // into A must not rerun E, because M recomputes to the same value.
    let mut rt = Runtime::new();
    let root = rt.root_scope();
    let (a, set_a) = rt.create_signal(root, 2, false).unwrap();
    let m = rt
        .create_memo(root, Expr::Rem(Box::new(read_expr(a)), Box::new(Expr::Lit(2))))
        .unwrap();
    let e = rt.create_effect(root, read_expr(m), None).unwrap();
    assert_eq!(rt.observations(e), vec![0]);
    assert_eq!(rt.write(set_a, 4), Ok(()));
    assert_eq!(rt.observations(e), vec![0], "even A stayed even: no rerun");
    assert_eq!(rt.write(set_a, 3), Ok(()));
    assert_eq!(rt.observations(e), vec![0, 1], "parity changed: one rerun");
}

#[test]
fn batch_collapses_writes_into_one_rerun() {
    // batch(|| { write(a,1); write(a,2); }) reruns dependents once, with 2.
    let mut rt = Runtime::new();
    let root = rt.root_scope();
    let (a, set_a) = rt.create_signal(root, 0, false).unwrap();
    let e = rt.create_effect(root, read_expr(a), None).unwrap();
    assert_eq!(rt.observations(e), vec![0]);
    rt.begin_batch();
    assert_eq!(rt.write(set_a, 1), Ok(()));
    assert_eq!(rt.write(set_a, 2), Ok(()));
    assert_eq!(rt.observations(e), vec![0], "no rerun while the batch is open");
    assert_eq!(rt.end_batch(), Ok(()));
    assert_eq!(rt.observations(e), vec![0, 2], "one rerun, settled value only");
}

#[test]
fn batch_settles_several_signals_before_the_single_rerun() {
    let mut rt = Runtime::new();
    let root = rt.root_scope();
    let (a, set_a) = rt.create_signal(root, 1, false).unwrap();
    let (b, set_b) = rt.create_signal(root, 2, false).unwrap();
    let sum = Expr::Add(Box::new(read_expr(a)), Box::new(read_expr(b)));
    let e = rt.create_effect(root, sum, None).unwrap();
    assert_eq!(rt.observations(e), vec![3]);
    rt.begin_batch();
    assert_eq!(rt.write(set_a, 10), Ok(()));
    assert_eq!(rt.write(set_b, 20), Ok(()));
    assert_eq!(rt.end_batch(), Ok(()));
    assert_eq!(rt.observations(e), vec![3, 30], "observes only post-batch values");
}

#[test]
fn nested_batches_drain_once_at_the_outermost_close() {
    let mut rt = Runtime::new();
    let root = rt.root_scope();
    let (a, set_a) = rt.create_signal(root, 0, false).unwrap();
    let e = rt.create_effect(root, read_expr(a), None).unwrap();
    rt.begin_batch();
    rt.begin_batch();
    assert_eq!(rt.write(set_a, 1), Ok(()));
    assert_eq!(rt.end_batch(), Ok(()));
    assert_eq!(rt.observations(e), vec![0], "inner close does not drain");
    assert_eq!(rt.write(set_a, 2), Ok(()));
    assert_eq!(rt.end_batch(), Ok(()));
    assert_eq!(rt.observations(e), vec![0, 2]);
}

#[test]
fn untracked_reads_register_no_dependency() {
    // effect(|| { untrack(|| read(b)); }) never reruns on writes to b.
    let mut rt = Runtime::new();
    let root = rt.root_scope();
    let (b, set_b) = rt.create_signal(root, 4, false).unwrap();
    let e = rt
        .create_effect(root, Expr::ReadUntracked(b.id), None)
        .unwrap();
    assert_eq!(rt.observations(e), vec![4]);
    assert_eq!(rt.write(set_b, 5), Ok(()));
    assert_eq!(rt.write(set_b, 6), Ok(()));
    assert_eq!(rt.observations(e), vec![4], "untracked dependency never retriggers");
}

#[test]
fn public_untracked_read_returns_the_current_value() {
    let mut rt = Runtime::new();
    let root = rt.root_scope();
    let (a, _) = rt.create_signal(root, 42, false).unwrap();
    assert_eq!(rt.untracked_read(a), Ok(42));
}

#[test]
fn conditional_effect_swaps_its_dependencies_each_run() {
    // An effect reading X or Y depending on C: after C flips, writing the
    // no-longer-read signal must not rerun it, the newly-read one must.
    let mut rt = Runtime::new();
    let root = rt.root_scope();
    let (c, set_c) = rt.create_signal(root, 1, false).unwrap();
    let (x, set_x) = rt.create_signal(root, 100, false).unwrap();
    let (y, set_y) = rt.create_signal(root, 200, false).unwrap();
    let body = Expr::IfNz(
        Box::new(read_expr(c)),
        Box::new(read_expr(x)),
        Box::new(read_expr(y)),
    );
    let e = rt.create_effect(root, body, None).unwrap();
    assert_eq!(rt.observations(e), vec![100]);
    assert_eq!(rt.write(set_y, 201), Ok(()));
    assert_eq!(rt.observations(e), vec![100], "y is not read while c is set");
    assert_eq!(rt.write(set_x, 101), Ok(()));
    assert_eq!(rt.observations(e), vec![100, 101]);
    assert_eq!(rt.write(set_c, 0), Ok(()));
    assert_eq!(rt.observations(e), vec![100, 101, 201], "flip reruns and swaps deps");
    assert_eq!(rt.write(set_x, 102), Ok(()));
    assert_eq!(rt.observations(e), vec![100, 101, 201], "x is no longer read");
    assert_eq!(rt.write(set_y, 202), Ok(()));
    assert_eq!(rt.observations(e), vec![100, 101, 201, 202], "y is read now");
}

#[test]
fn effect_cascade_runs_through_the_same_drain() {
    // e1 writes s2; e2 reads s2: one top-level write reaches both.
    let mut rt = Runtime::new();
    let root = rt.root_scope();
    let (a, set_a) = rt.create_signal(root, 1, false).unwrap();
    let (s2, set_s2) = rt.create_signal(root, 0, false).unwrap();
    let _e1 = rt
        .create_effect(root, read_expr(a), Some(set_s2))
        .unwrap();
    let e2 = rt.create_effect(root, read_expr(s2), None).unwrap();
    assert_eq!(rt.read(s2), Ok(1), "creation run already wrote through");
    assert_eq!(rt.observations(e2), vec![1]);
    assert_eq!(rt.write(set_a, 8), Ok(()));
    assert_eq!(rt.read(s2), Ok(8));
    assert_eq!(rt.observations(e2), vec![1, 8]);
}

#[test]
fn self_retriggering_effect_is_cut_off_as_an_update_loop() {
    let mut rt = Runtime::new();
    let root = rt.root_scope();
    let (s, set_s) = rt.create_signal(root, 0, false).unwrap();
    let bump = Expr::Add(Box::new(read_expr(s)), Box::new(Expr::Lit(1)));
    let r = rt.create_effect(root, bump, Some(set_s));
    assert_eq!(r, Err(ReactiveError::InfiniteUpdateLoop));
    // the guard allows a bounded number of reruns, then cuts the chain
    let runs = rt.read(s).unwrap();
    assert!(runs >= EFFECT_RUN_LIMIT as i64);
}

#[test]
fn faulting_memo_surfaces_closure_panic_to_the_reader() {
    let mut rt = Runtime::new();
    let root = rt.root_scope();
    let (a, _) = rt.create_signal(root, 1, false).unwrap();
    let m = rt
        .create_memo(root, Expr::Rem(Box::new(read_expr(a)), Box::new(Expr::Lit(0))))
        .unwrap();
    assert_eq!(rt.read(m), Err(ReactiveError::ClosurePanic));
}

#[test]
fn faulting_effect_is_reported_and_the_drain_completes_the_rest() {
    let mut rt = Runtime::new();
    let root = rt.root_scope();
    let (a, set_a) = rt.create_signal(root, 1, false).unwrap();
    let faulty_body = Expr::Rem(Box::new(read_expr(a)), Box::new(Expr::Lit(0)));
    let bad = rt.create_effect(root, faulty_body, None).unwrap();
    let good = rt.create_effect(root, read_expr(a), None).unwrap();
    assert!(rt.fault_report().contains(&bad.id));
    assert_eq!(rt.observations(bad), Vec::<i64>::new());
    assert_eq!(rt.observations(good), vec![1]);
    assert_eq!(rt.write(set_a, 2), Ok(()));
    assert_eq!(rt.observations(good), vec![1, 2], "the failing node does not abort the drain");
    assert_eq!(rt.observations(bad), Vec::<i64>::new());
}

#[test]
fn dispose_runs_cleanups_in_reverse_registration_order() {
    let mut rt = Runtime::new();
    let root = rt.root_scope();
    let s = rt.create_scope(root).unwrap();
    rt.on_cleanup(s, 1).unwrap();
    rt.on_cleanup(s, 2).unwrap();
    rt.on_cleanup(s, 3).unwrap();
    rt.dispose(s);
    assert_eq!(rt.cleanups_run(), vec![3, 2, 1]);
}

#[test]
fn dispose_reaches_descendants_before_the_parent_finishes() {
    let mut rt = Runtime::new();
    let root = rt.root_scope();
    let s = rt.create_scope(root).unwrap();
    let child = rt.create_scope(s).unwrap();
    rt.on_cleanup(s, 10).unwrap();
    rt.on_cleanup(child, 20).unwrap();
    rt.on_cleanup(child, 21).unwrap();
    rt.dispose(s);
    // child subtree first (its own tokens reversed), then the parent's
    assert_eq!(rt.cleanups_run(), vec![21, 20, 10]);
    // a second disposal is a no-op: each token ran exactly once
    rt.dispose(s);
    assert_eq!(rt.cleanups_run(), vec![21, 20, 10]);
}

#[test]
fn disposed_nodes_are_inert() {
    let mut rt = Runtime::new();
    let root = rt.root_scope();
    let s = rt.create_scope(root).unwrap();
    let (a, set_a) = rt.create_signal(s, 1, false).unwrap();
    let e = rt.create_effect(s, read_expr(a), None).unwrap();
    let (outer, set_outer) = rt.create_signal(root, 0, false).unwrap();
    let watcher = rt.create_effect(root, read_expr(a), None).unwrap();
    assert_eq!(rt.observations(e), vec![1]);
    rt.dispose(s);
    assert_eq!(rt.read(a), Err(ReactiveError::UseAfterDispose));
    assert_eq!(rt.write(set_a, 9), Err(ReactiveError::UseAfterDispose));
    assert_eq!(rt.observations(e), vec![1], "no rerun can be observed after disposal");
    assert_eq!(rt.observations(watcher), vec![1]);
    // the rest of the graph still works
    assert_eq!(rt.write(set_outer, 5), Ok(()));
    assert_eq!(rt.read(outer), Ok(5));
}

#[test]
fn dispose_of_a_disposed_scope_changes_nothing() {
    let mut rt = Runtime::new();
    let root = rt.root_scope();
    let s = rt.create_scope(root).unwrap();
    rt.on_cleanup(s, 7).unwrap();
    rt.dispose(s);
    rt.dispose(s);
    assert_eq!(rt.cleanups_run(), vec![7]);
    assert_eq!(
        rt.create_signal(s, 0, false).unwrap_err(),
        ReactiveError::UseAfterDispose
    );
    assert_eq!(rt.on_cleanup(s, 8).unwrap_err(), ReactiveError::UseAfterDispose);
    assert_eq!(rt.create_scope(s).unwrap_err(), ReactiveError::UseAfterDispose);
}

#[test]
fn memo_chain_propagates_through_two_levels() {
    let mut rt = Runtime::new();
    let root = rt.root_scope();
    let (a, set_a) = rt.create_signal(root, 1, false).unwrap();
    let m1 = rt
        .create_memo(root, Expr::Add(Box::new(read_expr(a)), Box::new(Expr::Lit(1))))
        .unwrap();
    let m2 = rt
        .create_memo(root, Expr::Add(Box::new(read_expr(m1)), Box::new(Expr::Lit(1))))
        .unwrap();
    let e = rt.create_effect(root, read_expr(m2), None).unwrap();
    assert_eq!(rt.observations(e), vec![3]);
    assert_eq!(rt.write(set_a, 10), Ok(()));
    assert_eq!(rt.observations(e), vec![3, 12]);
}

#[test]
fn peek_returns_values_without_refreshing() {
    let mut rt = Runtime::new();
    let root = rt.root_scope();
    let (a, set_a) = rt.create_signal(root, 3, false).unwrap();
    let m = rt
        .create_memo(root, Expr::Add(Box::new(read_expr(a)), Box::new(Expr::Lit(1))))
        .unwrap();
    assert_eq!(rt.read(m), Ok(4));
    assert_eq!(rt.write(set_a, 30), Ok(()));
    assert_eq!(rt.peek(m), Ok(4), "stale cache until the next read");
    assert_eq!(rt.read(m), Ok(31));
}

#[test]
fn pure_effect_logs_exactly_its_computed_value() {
    let mut rt = Runtime::new();
    let root = rt.root_scope();
    let body = Expr::Add(Box::new(Expr::Lit(20)), Box::new(Expr::Lit(22)));
    let e = rt.create_effect(root, body, None).unwrap();
    assert_eq!(rt.observations(e), vec![42]);
}
