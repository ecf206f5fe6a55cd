use vstd::prelude::*;

verus! {

/// Number of executed tasks between two readings of the clock during a
/// budgeted drain. A drain can overrun its budget by at most
/// `CHECK_WINDOW - 1` task executions.
pub const CHECK_WINDOW: u64 = 5;

/// Where one drain call stands.
#[derive(PartialEq, Eq, Structural, Clone, Copy, Debug)]
pub enum DrainState {
    Running,
    Exhausted,
    BudgetExceeded,
}

/// The state local to one drain call: the time budget (in clock ticks, none
/// for an unbounded drain), the tasks run since the clock was last read,
/// and counters of what was run.
#[derive(Clone, Copy, Debug)]
pub struct DrainSession {
    pub budget: Option<u64>,
    pub window: u64,
    pub executed: u64,
    pub failed: u64,
    pub state: DrainState,
}

/// The session with which every drain begins.
pub open spec fn start_session(budget: Option<u64>) -> DrainSession {
    DrainSession { budget, window: 0, executed: 0, failed: 0, state: DrainState::Running }
}

/// Whether running one more task from `s` brings the next clock reading.
pub open spec fn check_due(s: DrainSession) -> bool {
    s.budget.is_some() && s.window + 1 == CHECK_WINDOW
}

/// The session after one more task ran, with outcome `ok`.
pub open spec fn after_task(s: DrainSession, ok: bool) -> DrainSession {
    DrainSession {
        window: if s.window + 1 == CHECK_WINDOW { 0 } else { (s.window + 1) as u64 },
        executed: (s.executed + 1) as u64,
        failed: if ok { s.failed } else { (s.failed + 1) as u64 },
        ..s
    }
}

/// The session after the clock read `elapsed` ticks since the drain began.
pub open spec fn after_reading(s: DrainSession, elapsed: u64) -> DrainSession {
    DrainSession {
        state: if elapsed > s.budget.unwrap() { DrainState::BudgetExceeded } else { s.state },
        ..s
    }
}

impl DrainSession {
    pub open spec fn wf(self) -> bool {
        &&& self.window < CHECK_WINDOW
        &&& self.failed <= self.executed
        &&& self.window as int == self.executed as int % CHECK_WINDOW as int
        &&& self.state == DrainState::BudgetExceeded ==> self.budget.is_some()
    }

    /// Begins a drain with the given budget in clock ticks.
    pub fn new(budget: Option<u64>) -> (s: DrainSession)
        ensures
            s == start_session(budget),
            s.wf(),
    {
        DrainSession { budget, window: 0, executed: 0, failed: 0, state: DrainState::Running }
    }

    /// Records that one task ran; returns whether the clock is to be read now.
    pub fn record_task(&mut self, ok: bool) -> (due: bool)
        requires
            old(self).wf(),
            old(self).state == DrainState::Running,
            old(self).executed < u64::MAX,
        ensures
            due == check_due(*old(self)),
            *final(self) == after_task(*old(self), ok),
            final(self).wf(),
    {
        let due = self.budget.is_some() && self.window + 1 == CHECK_WINDOW;
        if self.window + 1 == CHECK_WINDOW {
            self.window = 0;
        } else {
            self.window = self.window + 1;
        }
        self.executed = self.executed + 1;
        if !ok {
            self.failed = self.failed + 1;
        }
        due
    }

    /// Records a clock reading; the drain ends once it is over the budget.
    pub fn record_reading(&mut self, elapsed: u64)
        requires
            old(self).wf(),
            old(self).budget.is_some(),
        ensures
            *final(self) == after_reading(*old(self), elapsed),
            final(self).wf(),
    {
        match self.budget {
            Some(b) => {
                if elapsed > b {
                    self.state = DrainState::BudgetExceeded;
                }
            },
            None => {},
        }
    }

    /// Records that the queues had nothing more to give.
    pub fn record_empty(&mut self)
        requires
            old(self).wf(),
            old(self).state == DrainState::Running,
        ensures
            *final(self) == (DrainSession { state: DrainState::Exhausted, ..*old(self) }),
            final(self).wf(),
    {
        self.state = DrainState::Exhausted;
    }

    /// Whether the drain ended because its budget ran out.
    pub fn exceeded(&self) -> (r: bool)
        ensures
            r == (self.state == DrainState::BudgetExceeded),
    {
        self.state == DrainState::BudgetExceeded
    }

    /// Whether the drain may go on.
    pub fn running(&self) -> (r: bool)
        ensures
            r == (self.state == DrainState::Running),
    {
        self.state == DrainState::Running
    }
}

/// A whole drain from session `s`: `oks` are the outcomes of the tasks the
/// queue holds, in order, and `clock(n)` is the elapsed time read after the
/// `n`-th task of the drain.
pub open spec fn drain_run(s: DrainSession, oks: Seq<bool>, clock: spec_fn(nat) -> u64) -> DrainSession
    decreases oks.len(),
{
    if s.state != DrainState::Running {
        s
    } else if oks.len() == 0 {
        DrainSession { state: DrainState::Exhausted, ..s }
    } else {
        let t = after_task(s, oks[0]);
        let u = if check_due(s) { after_reading(t, clock(t.executed as nat)) } else { t };
        drain_run(u, oks.drop_first(), clock)
    }
}

/// The session after one more task, with outcome `ok`, and the clock
/// reading that may follow it.
pub open spec fn next_session(s: DrainSession, ok: bool, clock: spec_fn(nat) -> u64) -> DrainSession {
    let t = after_task(s, ok);
    if check_due(s) { after_reading(t, clock(t.executed as nat)) } else { t }
}

/// The session after the tasks with outcomes `oks`, or after those of them
/// that ran before it stopped, with no end of the queue seen yet.
pub open spec fn drain_steps(s: DrainSession, oks: Seq<bool>, clock: spec_fn(nat) -> u64) -> DrainSession
    decreases oks.len(),
{
    if s.state != DrainState::Running || oks.len() == 0 {
        s
    } else {
        drain_steps(next_session(s, oks[0], clock), oks.drop_first(), clock)
    }
}

/// The session once the queue had nothing more to give.
pub open spec fn finish(s: DrainSession) -> DrainSession {
    if s.state == DrainState::Running { DrainSession { state: DrainState::Exhausted, ..s } } else { s }
}

/// The clock whose reading after task `k` is `readings[k]`.
pub open spec fn clock_of(readings: Map<nat, u64>) -> spec_fn(nat) -> u64 {
    |k: nat| readings[k]
}

pub proof fn lemma_run_is_finished_steps(s: DrainSession, oks: Seq<bool>, clock: spec_fn(nat) -> u64)
    ensures
        drain_run(s, oks, clock) == finish(drain_steps(s, oks, clock)),
    decreases oks.len(),
{
    if s.state == DrainState::Running && oks.len() > 0 {
        lemma_run_is_finished_steps(next_session(s, oks[0], clock), oks.drop_first(), clock);
    }
}

pub proof fn lemma_steps_push(s: DrainSession, oks: Seq<bool>, ok: bool, clock: spec_fn(nat) -> u64)
    ensures
        drain_steps(s, oks.push(ok), clock) == ({
            let x = drain_steps(s, oks, clock);
            if x.state == DrainState::Running { next_session(x, ok, clock) } else { x }
        }),
    decreases oks.len(),
{
    if s.state == DrainState::Running {
        if oks.len() == 0 {
            assert(oks.push(ok).drop_first() =~= Seq::<bool>::empty());
            assert(oks.push(ok)[0] == ok);
            assert(drain_steps(s, oks, clock) == s);
            let n = next_session(s, ok, clock);
            assert(drain_steps(n, oks.push(ok).drop_first(), clock) == n);
        } else {
            assert(oks.push(ok)[0] == oks[0]);
            assert(oks.push(ok).drop_first() =~= oks.drop_first().push(ok));
            lemma_steps_push(next_session(s, oks[0], clock), oks.drop_first(), ok, clock);
        }
    }
}

pub proof fn lemma_steps_clock_prefix(
    s: DrainSession,
    oks: Seq<bool>,
    c1: spec_fn(nat) -> u64,
    c2: spec_fn(nat) -> u64,
)
    requires
        s.executed + oks.len() <= u64::MAX,
        forall|k: nat| k <= s.executed + oks.len() ==> #[trigger] c1(k) == c2(k),
    ensures
        drain_steps(s, oks, c1) == drain_steps(s, oks, c2),
    decreases oks.len(),
{
    if s.state == DrainState::Running && oks.len() > 0 {
        let t = after_task(s, oks[0]);
        assert(c1(t.executed as nat) == c2(t.executed as nat));
        lemma_steps_clock_prefix(next_session(s, oks[0], c1), oks.drop_first(), c1, c2);
    }
}

/// The number of failed outcomes in `oks`.
pub open spec fn failures(oks: Seq<bool>) -> nat
    decreases oks.len(),
{
    if oks.len() == 0 {
        0
    } else {
        (if oks[0] { 0nat } else { 1nat }) + failures(oks.drop_first())
    }
}

/// Whether every clock reading taken after task `k`, `lo < k <= hi`, was
/// within the budget `b`.
pub open spec fn readings_within(clock: spec_fn(nat) -> u64, b: u64, lo: nat, hi: nat) -> bool {
    forall|k: nat| lo < k <= hi && k % (CHECK_WINDOW as nat) == 0 ==> #[trigger] clock(k) <= b
}

proof fn lemma_drain_run(s: DrainSession, oks: Seq<bool>, clock: spec_fn(nat) -> u64)
    requires
        s.wf(),
        s.state == DrainState::Running,
        s.executed + oks.len() <= u64::MAX,
    ensures
        ({
            let r = drain_run(s, oks, clock);
            &&& r.wf()
            &&& r.budget == s.budget
            &&& r.state != DrainState::Running
            &&& s.executed <= r.executed <= s.executed + oks.len()
            &&& r.failed == s.failed + failures(oks.take(r.executed - s.executed))
            &&& r.executed - s.executed >= if oks.len() < CHECK_WINDOW - s.window {
                oks.len() as int
            } else {
                CHECK_WINDOW - s.window
            }
            &&& r.state == DrainState::Exhausted ==> r.executed == s.executed + oks.len()
            &&& r.state == DrainState::Exhausted && s.budget.is_some() ==> readings_within(
                clock,
                s.budget.unwrap(),
                s.executed as nat,
                r.executed as nat,
            )
            &&& r.state == DrainState::BudgetExceeded ==> {
                &&& s.budget.is_some()
                &&& r.executed > s.executed
                &&& r.executed % CHECK_WINDOW == 0
                &&& clock(r.executed as nat) > s.budget.unwrap()
                &&& readings_within(clock, s.budget.unwrap(), s.executed as nat, (r.executed - 1) as nat)
            }
        }),
    decreases oks.len(),
{
    if oks.len() == 0 {
        assert(oks.take(0) =~= Seq::<bool>::empty());
    } else {
        let t = after_task(s, oks[0]);
        let u = if check_due(s) { after_reading(t, clock(t.executed as nat)) } else { t };
        let rest = oks.drop_first();
        let r = drain_run(s, oks, clock);
        assert(r == drain_run(u, rest, clock));
        assert(t.executed % CHECK_WINDOW == 0 <==> s.window + 1 == CHECK_WINDOW);
        if u.state == DrainState::Running {
            lemma_drain_run(u, rest, clock);
            let m = (r.executed - u.executed) as int;
            assert(oks.take(m + 1).drop_first() =~= rest.take(m));
            assert(oks.take(m + 1)[0] == oks[0]);
        } else {
            assert(r == u);
            assert(oks.take(1).drop_first() =~= Seq::<bool>::empty());
            assert(oks.take(1)[0] == oks[0]);
            assert(failures(Seq::<bool>::empty()) == 0);
        }
    }
}

proof fn lemma_outcomes_irrelevant(
    s: DrainSession,
    oks1: Seq<bool>,
    oks2: Seq<bool>,
    clock: spec_fn(nat) -> u64,
)
    requires
        oks1.len() == oks2.len(),
    ensures
        drain_run(s, oks1, clock).executed == drain_run(s, oks2, clock).executed,
        drain_run(s, oks1, clock).state == drain_run(s, oks2, clock).state,
    decreases oks1.len(),
{
    if s.state == DrainState::Running && oks1.len() > 0 {
        let t1 = after_task(s, oks1[0]);
        let t2 = after_task(s, oks2[0]);
        let s1 = if check_due(s) { after_reading(t1, clock(t1.executed as nat)) } else { t1 };
        let s2 = if check_due(s) { after_reading(t2, clock(t2.executed as nat)) } else { t2 };
        let u = DrainSession { failed: s1.failed, ..s2 };
        assert(u == s1);
        lemma_outcomes_irrelevant_failed(s2, s1.failed, oks2.drop_first(), clock);
        lemma_outcomes_irrelevant(s1, oks1.drop_first(), oks2.drop_first(), clock);
    }
}

proof fn lemma_outcomes_irrelevant_failed(
    s: DrainSession,
    f: u64,
    oks: Seq<bool>,
    clock: spec_fn(nat) -> u64,
)
    ensures
        drain_run(DrainSession { failed: f, ..s }, oks, clock).executed == drain_run(s, oks, clock).executed,
        drain_run(DrainSession { failed: f, ..s }, oks, clock).state == drain_run(s, oks, clock).state,
    decreases oks.len(),
{
    if s.state == DrainState::Running && oks.len() > 0 {
        let s2 = DrainSession { failed: f, ..s };
        let t = after_task(s, oks[0]);
        let t2 = after_task(s2, oks[0]);
        let u = if check_due(s) { after_reading(t, clock(t.executed as nat)) } else { t };
        let u2 = if check_due(s2) { after_reading(t2, clock(t2.executed as nat)) } else { t2 };
        assert(u2 == DrainSession { failed: u2.failed, ..u });
        lemma_outcomes_irrelevant_failed(u, u2.failed, oks.drop_first(), clock);
    }
}

/// In the drain model, a drain over a queue that holds nothing runs no task and ends with the
/// budget not exceeded, whatever the budget and the clock.
pub proof fn lemma_empty_drain(budget: Option<u64>, clock: spec_fn(nat) -> u64)
    ensures
        drain_run(start_session(budget), Seq::<bool>::empty(), clock).executed == 0,
        drain_run(start_session(budget), Seq::<bool>::empty(), clock).state == DrainState::Exhausted,
{
}

/// In the drain model, a budgeted drain reads the clock after every `CHECK_WINDOW`-th task and
/// stops at the first reading over the budget, so it runs at most
/// `CHECK_WINDOW - 1` tasks after the last reading within the budget. When it
/// reports the budget exceeded, that reading was over the budget and no
/// earlier one was; when it reports the queue exhausted, it ran every task
/// and every reading was within the budget.
pub proof fn lemma_budget_slack(budget: u64, oks: Seq<bool>, clock: spec_fn(nat) -> u64)
    requires
        oks.len() <= u64::MAX,
    ensures
        ({
            let r = drain_run(start_session(Some(budget)), oks, clock);
            &&& r.state == DrainState::BudgetExceeded || r.state == DrainState::Exhausted
            &&& r.state == DrainState::BudgetExceeded ==> {
                &&& r.executed > 0
                &&& r.executed % CHECK_WINDOW == 0
                &&& clock(r.executed as nat) > budget
                &&& readings_within(clock, budget, 0, (r.executed - 1) as nat)
            }
            &&& r.state == DrainState::Exhausted ==> {
                &&& r.executed == oks.len()
                &&& readings_within(clock, budget, 0, r.executed as nat)
            }
        }),
{
    lemma_drain_run(start_session(Some(budget)), oks, clock);
}

/// In the drain model, a failing task stops nothing: how many tasks a drain runs, and how it
/// ends, do not depend on which tasks fail, and each failure among the tasks
/// run is counted once.
pub proof fn lemma_failure_isolation(
    budget: Option<u64>,
    oks1: Seq<bool>,
    oks2: Seq<bool>,
    clock: spec_fn(nat) -> u64,
)
    requires
        oks1.len() == oks2.len(),
        oks1.len() <= u64::MAX,
    ensures
        drain_run(start_session(budget), oks1, clock).executed == drain_run(start_session(budget), oks2, clock).executed,
        drain_run(start_session(budget), oks1, clock).state == drain_run(start_session(budget), oks2, clock).state,
        drain_run(start_session(budget), oks1, clock).failed == failures(
            oks1.take(drain_run(start_session(budget), oks1, clock).executed as int),
        ),
{
    lemma_outcomes_irrelevant(start_session(budget), oks1, oks2, clock);
    lemma_drain_run(start_session(budget), oks1, clock);
}

/// In the drain model, drains take a queue's tasks in order and lose none:
/// the tasks one drain runs are the queue's first ones, those it leaves are
/// the rest, and the next drain takes up exactly where it stopped. Each drain of a non-empty
/// queue runs at least one task (up to `CHECK_WINDOW` before it first looks at
/// the clock), so repeated drains run every task exactly once.
pub proof fn lemma_fifo_no_loss<A>(
    tasks: Seq<A>,
    oks: Seq<bool>,
    budget1: Option<u64>,
    clock1: spec_fn(nat) -> u64,
    budget2: Option<u64>,
    clock2: spec_fn(nat) -> u64,
)
    requires
        tasks.len() == oks.len(),
        oks.len() <= u64::MAX,
    ensures
        ({
            let e1 = drain_run(start_session(budget1), oks, clock1).executed as int;
            let e2 = drain_run(start_session(budget2), oks.skip(e1), clock2).executed as int;
            &&& tasks.take(e1) + tasks.skip(e1) == tasks
            &&& tasks.len() > 0 ==> e1 > 0
            &&& e1 >= if tasks.len() < CHECK_WINDOW { tasks.len() as int } else { CHECK_WINDOW as int }
            &&& tasks.take(e1) + tasks.skip(e1).take(e2) == tasks.take(e1 + e2)
            &&& e1 + e2 <= tasks.len()
            &&& tasks.len() > e1 ==> e2 > 0
        }),
{
    let e1 = drain_run(start_session(budget1), oks, clock1).executed as int;
    lemma_drain_run(start_session(budget1), oks, clock1);
    lemma_drain_run(start_session(budget2), oks.skip(e1), clock2);
    let e2 = drain_run(start_session(budget2), oks.skip(e1), clock2).executed as int;
    assert(tasks.take(e1) + tasks.skip(e1) =~= tasks);
    assert(tasks.take(e1) + tasks.skip(e1).take(e2) =~= tasks.take(e1 + e2));
}

} // verus!
