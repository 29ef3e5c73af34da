use dioxus_head::hooks::{EffectCleanupHook, UseEffectCleanup};
use std::cell::RefCell;
use std::rc::Rc;

type Log = Rc<RefCell<Vec<&'static str>>>;

fn note(log: &Log, what: &'static str) {
    log.borrow_mut().push(what);
}

fn body(log: &Log, ran: &'static str, disposed: &'static str) -> impl FnOnce() -> Box<dyn FnOnce()> {
    let log = log.clone();
    move || {
        note(&log, ran);
        let log = log.clone();
        Box::new(move || note(&log, disposed))
    }
}

#[test]
fn each_disposer_is_called_once_and_before_the_next_body() {
    let log: Log = Rc::new(RefCell::new(Vec::new()));
    let mut hook: EffectCleanupHook<Box<dyn FnOnce()>> = EffectCleanupHook::new();
    assert!(!hook.is_armed());
    hook.activate(body(&log, "C1", "D1"));
    assert_eq!(*log.borrow(), vec!["C1"]);
    assert!(hook.is_armed());
    hook.activate(body(&log, "C2", "D2"));
    assert_eq!(*log.borrow(), vec!["C1", "D1", "C2"]);
    assert!(hook.is_armed());
    hook.teardown();
    assert_eq!(*log.borrow(), vec!["C1", "D1", "C2", "D2"]);
    assert!(!hook.is_armed());
    hook.teardown();
    assert_eq!(*log.borrow(), vec!["C1", "D1", "C2", "D2"]);
    assert!(!hook.is_armed());
}

#[test]
fn a_teardown_before_any_run_calls_nothing() {
    let log: Log = Rc::new(RefCell::new(Vec::new()));
    let mut hook: EffectCleanupHook<Box<dyn FnOnce()>> = EffectCleanupHook::new();
    hook.teardown();
    assert!(log.borrow().is_empty());
    hook.activate(body(&log, "C1", "D1"));
    hook.teardown();
    assert_eq!(*log.borrow(), vec!["C1", "D1"]);
}

#[test]
fn the_effect_can_run_again_after_a_teardown() {
    let log: Log = Rc::new(RefCell::new(Vec::new()));
    let mut hook: EffectCleanupHook<Box<dyn FnOnce()>> = EffectCleanupHook::new();
    hook.activate(body(&log, "C1", "D1"));
    hook.teardown();
    hook.activate(body(&log, "C2", "D2"));
    assert_eq!(*log.borrow(), vec!["C1", "D1", "C2"]);
    hook.teardown();
    hook.teardown();
    assert_eq!(*log.borrow(), vec!["C1", "D1", "C2", "D2"]);
}

#[test]
fn an_effect_may_leave_nothing_to_undo() {
    let log: Log = Rc::new(RefCell::new(Vec::new()));
    let mut hook: EffectCleanupHook<()> = EffectCleanupHook::new();
    let first = log.clone();
    hook.activate(move || note(&first, "C1"));
    assert!(hook.is_armed());
    let second = log.clone();
    hook.activate(move || note(&second, "C2"));
    hook.teardown();
    assert!(!hook.is_armed());
    assert_eq!(*log.borrow(), vec!["C1", "C2"]);
}

#[test]
fn a_closure_is_a_cleanup_and_calling_it_runs_it() {
    let log: Log = Rc::new(RefCell::new(Vec::new()));
    let inner = log.clone();
    let cleanup = move || note(&inner, "D");
    UseEffectCleanup::call(cleanup);
    UseEffectCleanup::call(());
    assert_eq!(*log.borrow(), vec!["D"]);
}

#[test]
fn a_disposer_that_is_never_reached_is_not_called() {
    let log: Log = Rc::new(RefCell::new(Vec::new()));
    {
        let mut hook: EffectCleanupHook<Box<dyn FnOnce()>> = EffectCleanupHook::new();
        hook.activate(body(&log, "C1", "D1"));
    }
    assert_eq!(*log.borrow(), vec!["C1"]);
}
