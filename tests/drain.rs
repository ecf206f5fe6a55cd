use std::cell::RefCell;
use std::rc::Rc;

use auxcallback::clock::millis_to_ticks;
use auxcallback::hook::{parse_hook_args, run_hook_request, HookArg, HookError, HookRequest};
use auxcallback::process::{
    discard_pending, drain_all, drain_named, process_callbacks, process_callbacks_for_millis,
    process_queue,
};
use auxcallback::registry::QueueRegistry;
use auxcallback::session::{DrainSession, DrainState};

type Task = Box<dyn Fn() -> Result<(), String>>;
type Log = Rc<RefCell<Vec<String>>>;

fn new_log() -> Log {
    Rc::new(RefCell::new(Vec::new()))
}

fn ok_task(log: &Log, name: &str) -> Task {
    let log = log.clone();
    let name = name.to_string();
    Box::new(move || {
        log.borrow_mut().push(name.clone());
        Ok(())
    })
}

fn failing_task(message: &str) -> Task {
    let message = message.to_string();
    Box::new(move || Err(message.clone()))
}

fn run(t: Task) -> Result<(), String> {
    t()
}

fn id(s: &str) -> String {
    s.to_string()
}

#[test]
fn failing_task_reported_between_its_neighbours() {
    let mut reg: QueueRegistry<Task> = QueueRegistry::new();
    let log = new_log();
    let tx = reg.sender(&id("alpha"));
    tx.send(ok_task(&log, "T1")).unwrap();
    tx.send(failing_task("boom")).unwrap();
    tx.send(ok_task(&log, "T3")).unwrap();
    let sink = log.clone();
    let report = move |m: String| sink.borrow_mut().push(format!("sink:{}", m));
    let exceeded = process_queue(&mut reg, &id("alpha"), None, &run, &report);
    assert!(!exceeded);
    assert_eq!(*log.borrow(), vec!["T1".to_string(), "sink:boom".to_string(), "T3".to_string()]);
}

#[test]
fn zero_budget_over_many_tasks_stops_early() {
    let mut reg: QueueRegistry<Task> = QueueRegistry::new();
    let log = new_log();
    let tx = reg.default_sender();
    for i in 0..1000 {
        tx.send(ok_task(&log, &i.to_string())).unwrap();
    }
    let report = |_m: String| {};
    let s = drain_all(&mut reg, Some(millis_to_ticks(0)), &run, &report, &|| 1u64);
    assert_eq!(s.state, DrainState::BudgetExceeded);
    assert!(s.exceeded());
    assert_eq!(s.executed, 5);
    assert_eq!(log.borrow().len(), 5);
    process_callbacks(&mut reg, &run, &report);
    assert_eq!(log.borrow().len(), 1000);
}

#[test]
fn zero_budget_with_real_clock_loses_nothing() {
    let mut reg: QueueRegistry<Task> = QueueRegistry::new();
    let log = new_log();
    let tx = reg.default_sender();
    for i in 0..1000 {
        tx.send(ok_task(&log, &i.to_string())).unwrap();
    }
    let report = |_m: String| {};
    let exceeded = process_callbacks_for_millis(&mut reg, 0, &run, &report);
    let first = log.borrow().len();
    assert!(first <= 1000);
    assert_eq!(exceeded, first < 1000);
    process_callbacks(&mut reg, &run, &report);
    assert_eq!(log.borrow().len(), 1000);
}

#[test]
fn budget_checked_every_fifth_task() {
    let mut reg: QueueRegistry<Task> = QueueRegistry::new();
    let log = new_log();
    let tx = reg.default_sender();
    for i in 0..10 {
        tx.send(ok_task(&log, &i.to_string())).unwrap();
    }
    let report = |_m: String| {};
    let s = drain_all(&mut reg, Some(0), &run, &report, &|| 1u64);
    assert!(s.exceeded());
    assert_eq!(s.executed, 5);
    let s = drain_all(&mut reg, Some(0), &run, &report, &|| 0u64);
    assert_eq!(s.state, DrainState::Exhausted);
    assert_eq!(s.executed, 5);
    assert_eq!(log.borrow().len(), 10);
}

#[test]
fn four_tasks_never_read_the_clock() {
    let mut reg: QueueRegistry<Task> = QueueRegistry::new();
    let log = new_log();
    let tx = reg.default_sender();
    for i in 0..4 {
        tx.send(ok_task(&log, &i.to_string())).unwrap();
    }
    let report = |_m: String| {};
    let s = drain_all(&mut reg, Some(0), &run, &report, &|| u64::MAX);
    assert_eq!(s.state, DrainState::Exhausted);
    assert_eq!(s.executed, 4);
}

#[test]
fn empty_queue_drain_is_not_exceeded() {
    let mut reg: QueueRegistry<Task> = QueueRegistry::new();
    let report = |_m: String| {};
    let s = drain_all(&mut reg, Some(0), &run, &report, &|| u64::MAX);
    assert_eq!(s.state, DrainState::Exhausted);
    assert_eq!(s.executed, 0);
    assert!(!process_callbacks_for_millis(&mut reg, 0, &run, &report));
    reg.get_or_create(&id("x"));
    let s = drain_named(&mut reg, &id("x"), Some(0), &run, &report, &|| u64::MAX);
    assert_eq!(s.state, DrainState::Exhausted);
    assert_eq!(s.executed, 0);
}

#[test]
fn tasks_run_in_order_of_sending() {
    let mut reg: QueueRegistry<Task> = QueueRegistry::new();
    let log = new_log();
    let tx = reg.default_sender();
    let tx2 = reg.default_sender();
    for i in 0..20 {
        if i % 2 == 0 {
            tx.send(ok_task(&log, &i.to_string())).unwrap();
        } else {
            tx2.send(ok_task(&log, &i.to_string())).unwrap();
        }
    }
    let report = |_m: String| {};
    process_callbacks(&mut reg, &run, &report);
    let expected: Vec<String> = (0..20).map(|i: i32| i.to_string()).collect();
    assert_eq!(*log.borrow(), expected);
}

#[test]
fn successive_drains_run_each_task_once() {
    let mut reg: QueueRegistry<Task> = QueueRegistry::new();
    let log = new_log();
    let tx = reg.default_sender();
    for i in 0..12 {
        tx.send(ok_task(&log, &i.to_string())).unwrap();
    }
    let report = |_m: String| {};
    let counts: Vec<u64> = (0..4)
        .map(|_| drain_all(&mut reg, Some(0), &run, &report, &|| 1u64).executed)
        .collect();
    assert_eq!(counts, vec![5, 5, 2, 0]);
    let expected: Vec<String> = (0..12).map(|i: i32| i.to_string()).collect();
    assert_eq!(*log.borrow(), expected);
}

#[test]
fn failure_does_not_stop_other_queues() {
    let mut reg: QueueRegistry<Task> = QueueRegistry::new();
    let log = new_log();
    reg.default_sender().send(failing_task("first")).unwrap();
    reg.default_sender().send(ok_task(&log, "a")).unwrap();
    reg.sender(&id("beta")).send(failing_task("second")).unwrap();
    reg.sender(&id("beta")).send(ok_task(&log, "b")).unwrap();
    let sink = log.clone();
    let report = move |m: String| sink.borrow_mut().push(format!("sink:{}", m));
    let s = drain_all(&mut reg, None, &run, &report, &|| 0u64);
    assert_eq!(s.executed, 4);
    assert_eq!(s.failed, 2);
    assert_eq!(
        *log.borrow(),
        vec!["sink:first".to_string(), "a".to_string(), "sink:second".to_string(), "b".to_string()]
    );
}

#[test]
fn queue_created_once_per_id() {
    let mut reg: QueueRegistry<Task> = QueueRegistry::new();
    assert!(reg.existing_sender(&id("x")).is_none());
    assert_eq!(reg.find(&id("x")), None);
    let i = reg.get_or_create(&id("x"));
    let j = reg.get_or_create(&id("x"));
    assert_eq!(i, j);
    assert_eq!(reg.len(), 1);
    let k = reg.get_or_create(&id("y"));
    assert_eq!(k, 1);
    assert_eq!(reg.find(&id("x")), Some(0));
    let log = new_log();
    reg.existing_sender(&id("x")).unwrap().send(ok_task(&log, "via existing")).unwrap();
    reg.sender_at(i).send(ok_task(&log, "via position")).unwrap();
    let report = |_m: String| {};
    assert!(!process_queue(&mut reg, &id("y"), None, &run, &report));
    assert!(log.borrow().is_empty());
    assert!(!process_queue(&mut reg, &id("x"), Some(1000), &run, &report));
    assert_eq!(*log.borrow(), vec!["via existing".to_string(), "via position".to_string()]);
}

#[test]
fn unknown_queue_is_not_created_by_draining() {
    let mut reg: QueueRegistry<Task> = QueueRegistry::new();
    let report = |_m: String| {};
    assert!(!process_queue(&mut reg, &id("ghost"), Some(0), &run, &report));
    let s = drain_named(&mut reg, &id("ghost"), Some(0), &run, &report, &|| 1u64);
    assert_eq!(s.state, DrainState::Exhausted);
    assert_eq!(s.executed, 0);
    assert_eq!(reg.len(), 0);
}

#[test]
fn shutdown_discards_without_running() {
    let mut reg: QueueRegistry<Task> = QueueRegistry::new();
    let log = new_log();
    reg.default_sender().send(ok_task(&log, "d")).unwrap();
    reg.sender(&id("q")).send(ok_task(&log, "q1")).unwrap();
    reg.sender(&id("q")).send(ok_task(&log, "q2")).unwrap();
    assert_eq!(discard_pending(&mut reg), 3);
    assert!(log.borrow().is_empty());
    let report = |_m: String| {};
    process_callbacks(&mut reg, &run, &report);
    assert!(log.borrow().is_empty());
}

#[test]
fn default_queue_is_bounded() {
    let mut reg: QueueRegistry<u8> = QueueRegistry::new();
    let tx = reg.default_sender();
    for _ in 0..100000 {
        tx.try_send(0).unwrap();
    }
    assert!(tx.try_send(0).is_err());
}

#[test]
fn session_steps() {
    let mut s = DrainSession::new(Some(10));
    for _ in 0..4 {
        assert!(!s.record_task(true));
    }
    assert!(s.record_task(false));
    assert_eq!(s.window, 0);
    assert_eq!(s.failed, 1);
    s.record_reading(10);
    assert!(s.running());
    s.record_reading(11);
    assert!(s.exceeded());
    let mut t = DrainSession::new(None);
    for _ in 0..5 {
        assert!(!t.record_task(true));
    }
    t.record_empty();
    assert_eq!(t.state, DrainState::Exhausted);
}

#[test]
fn millis_in_clock_ticks() {
    assert_eq!(millis_to_ticks(0), 0);
    assert_eq!(millis_to_ticks(1), 1 << 22);
    assert_eq!(millis_to_ticks(1000), 1 << 32);
    assert_eq!(millis_to_ticks(1500), (1 << 32) + 500 * (1 << 22));
    assert_eq!(millis_to_ticks(u64::MAX), u64::MAX);
}

#[test]
fn hook_arguments() {
    assert!(matches!(parse_hook_args(&vec![]), Ok(HookRequest::All)));
    assert!(matches!(
        parse_hook_args(&vec![HookArg::Text(id("a"))]),
        Ok(HookRequest::Queue(ref q)) if q == "a"
    ));
    assert!(matches!(parse_hook_args(&vec![HookArg::Number(7)]), Ok(HookRequest::AllFor(7))));
    assert!(matches!(
        parse_hook_args(&vec![HookArg::Text(id("a")), HookArg::Number(3)]),
        Ok(HookRequest::QueueFor(ref q, 3)) if q == "a"
    ));
    assert_eq!(
        parse_hook_args(&vec![HookArg::Number(3), HookArg::Text(id("a"))]).unwrap_err(),
        HookError::ArgType
    );
    assert_eq!(
        parse_hook_args(&vec![HookArg::Number(1), HookArg::Number(2), HookArg::Number(3)]).unwrap_err(),
        HookError::Arity(3)
    );
}

#[test]
fn hook_requests_run() {
    let mut reg: QueueRegistry<Task> = QueueRegistry::new();
    let log = new_log();
    reg.default_sender().send(ok_task(&log, "d")).unwrap();
    reg.sender(&id("n")).send(ok_task(&log, "n")).unwrap();
    let report = |_m: String| {};
    assert_eq!(run_hook_request(&mut reg, &HookRequest::Queue(id("n")), &run, &report), None);
    assert_eq!(*log.borrow(), vec!["n".to_string()]);
    assert_eq!(run_hook_request(&mut reg, &HookRequest::AllFor(1000), &run, &report), Some(false));
    assert_eq!(*log.borrow(), vec!["n".to_string(), "d".to_string()]);
    assert_eq!(run_hook_request(&mut reg, &HookRequest::All, &run, &report), None);
    assert_eq!(run_hook_request(&mut reg, &HookRequest::QueueFor(id("n"), 1000), &run, &report), Some(false));
}

#[test]
fn pop_and_count_follow_the_queue() {
    let mut reg: QueueRegistry<u32> = QueueRegistry::new();
    let tx = reg.default_sender();
    tx.send(1).unwrap();
    tx.send(2).unwrap();
    assert_eq!(reg.count_pending(None), 2);
    assert_eq!(reg.pop(None), Some(1));
    assert_eq!(reg.pop(None), Some(2));
    assert_eq!(reg.pop(None), None);
    let i = reg.get_or_create(&id("n"));
    reg.sender_at(i).send(7).unwrap();
    assert_eq!(reg.count_pending(None), 0);
    assert_eq!(reg.count_pending(Some(i)), 1);
    assert_eq!(reg.pop(Some(i)), Some(7));
}
