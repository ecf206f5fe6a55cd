use vstd::prelude::*;

use crate::clock::{elapsed_ticks, millis_to_ticks, now, ticks_of_millis};
use crate::engine::{
    clock_readings, drain_queue, lemma_runs_recorded_trans, new_runs, new_taken, queue_finished, ran_from_queue,
    reading_over_budget, runs_recorded,
};
use crate::registry::{oks_of, QueueRegistry};
use crate::session::{
    clock_of, drain_run, failures, lemma_budget_slack, lemma_empty_drain, lemma_failure_isolation,
    lemma_run_is_finished_steps, readings_within, start_session, DrainSession, DrainState,
    CHECK_WINDOW,
};

verus! {

/// Every queue, the default one included, was drained between `a` and `b`
/// until it was found empty or had given out all it held when its drain began.
pub open spec fn all_finished<T>(a: QueueRegistry<T>, b: QueueRegistry<T>) -> bool {
    &&& queue_finished(a, b, -1)
    &&& forall|i: int| 0 <= i < a.names().len() ==> #[trigger] queue_finished(a, b, i)
}

/// The tasks of a list of runs, in order.
pub open spec fn tasks_of<T>(runs: Seq<(T, Result<(), String>)>) -> Seq<T> {
    runs.map_values(|r: (T, Result<(), String>)| r.0)
}

/// What the default queue gave out between `a` and `b`, followed by what
/// each of the first `i` named queues gave out, in the order of the queues.
pub open spec fn taken_upto<T>(a: QueueRegistry<T>, b: QueueRegistry<T>, i: int) -> Seq<T>
    decreases i,
{
    if i <= 0 {
        new_taken(a, b, -1)
    } else {
        taken_upto(a, b, i - 1) + new_taken(a, b, i - 1)
    }
}

proof fn lemma_taken_upto_frame<T>(a: QueueRegistry<T>, b: QueueRegistry<T>, c: QueueRegistry<T>, i: int)
    requires
        0 <= i,
        forall|j: int| -1 <= j < i ==> #[trigger] c.taken(j) == b.taken(j),
    ensures
        taken_upto(a, b, i) == taken_upto(a, c, i),
    decreases i,
{
    if i > 0 {
        lemma_taken_upto_frame(a, b, c, i - 1);
        assert(c.taken(i - 1) == b.taken(i - 1));
    } else {
        assert(c.taken(-1) == b.taken(-1));
    }
}

proof fn lemma_taken_upto_rest_empty<T>(a: QueueRegistry<T>, b: QueueRegistry<T>, i: int, n: int)
    requires
        0 <= i <= n,
        forall|j: int| i <= j < n ==> #[trigger] b.taken(j) == a.taken(j),
    ensures
        taken_upto(a, b, i) == taken_upto(a, b, n),
    decreases n - i,
{
    if i < n {
        lemma_taken_upto_rest_empty(a, b, i, n - 1);
        assert(b.taken(n - 1) == a.taken(n - 1));
        assert(new_taken(a, b, n - 1) =~= Seq::empty());
        assert(taken_upto(a, b, n - 1) + new_taken(a, b, n - 1) =~= taken_upto(a, b, n - 1));
    }
}

/// The named queue `id`, if there is one, was drained between `a` and `b`
/// until it was found empty or had given out all it held, and the tasks run
/// are, in order, those it gave out.
pub open spec fn named_finished<T>(a: QueueRegistry<T>, b: QueueRegistry<T>, id: Seq<char>) -> bool {
    forall|i: int| 0 <= i < a.names().len() && a.names()[i] == id ==> #[trigger] queue_finished(a, b, i)
}

/// `s` is the session of a drain with budget `budget` that ran, between
/// registry states `a` and `b`, exactly the runs recorded there: it is what
/// `drain_run` gives for their outcomes and the clock readings taken, so the
/// laws proved of `drain_run` hold of it. When it ends exhausted, `finished`
/// holds (the queues were drained to their end), unless the task counter is
/// at its largest value.
pub open spec fn drain_outcome<T>(
    a: QueueRegistry<T>,
    b: QueueRegistry<T>,
    budget: Option<u64>,
    s: DrainSession,
    finished: bool,
) -> bool {
    &&& s.wf()
    &&& s.budget == budget
    &&& s.state == DrainState::Exhausted || s.state == DrainState::BudgetExceeded
    &&& s.executed == new_runs(a, b).len()
    &&& exists|c: spec_fn(nat) -> u64| #[trigger] drain_run(start_session(budget), oks_of(new_runs(a, b)), c) == s
    &&& s.state == DrainState::Exhausted ==> finished || s.executed == u64::MAX
}

/// Of every drain's result: a drain that ran nothing ends exhausted; one
/// that ran out of budget stopped right after a clock reading, which came
/// after a whole number of `CHECK_WINDOW` tasks, over the budget, with every
/// earlier reading within it; one that ends exhausted took every reading
/// within the budget; and it counts as failed exactly the runs that failed.
pub proof fn lemma_drain_outcome_laws<T>(
    a: QueueRegistry<T>,
    b: QueueRegistry<T>,
    budget: Option<u64>,
    s: DrainSession,
    finished: bool,
)
    requires
        drain_outcome(a, b, budget, s, finished),
    ensures
        new_runs(a, b).len() == 0 ==> s.state == DrainState::Exhausted,
        s.failed == failures(oks_of(new_runs(a, b))),
        exists|c: spec_fn(nat) -> u64| {
            &&& #[trigger] drain_run(start_session(budget), oks_of(new_runs(a, b)), c) == s
            &&& s.state == DrainState::BudgetExceeded ==> {
                &&& s.executed > 0
                &&& s.executed % CHECK_WINDOW == 0
                &&& c(s.executed as nat) > budget.unwrap()
                &&& readings_within(c, budget.unwrap(), 0, (s.executed - 1) as nat)
            }
            &&& s.state == DrainState::Exhausted && budget.is_some() ==> readings_within(
                c,
                budget.unwrap(),
                0,
                s.executed as nat,
            )
        },
{
    let oks = oks_of(new_runs(a, b));
    let c = choose|c: spec_fn(nat) -> u64| #[trigger] drain_run(start_session(budget), oks, c) == s;
    lemma_failure_isolation(budget, oks, oks, c);
    assert(oks.take(oks.len() as int) =~= oks);
    match budget {
        Some(bu) => {
            lemma_budget_slack(bu, oks, c);
        },
        None => {},
    }
    if new_runs(a, b).len() == 0 {
        lemma_empty_drain(budget, c);
        assert(oks =~= Seq::<bool>::empty());
    }
}

/// `s` is what `drain_run` gives for the outcomes of the runs between `a`
/// and `b` and for clock readings that `clock` can return, taken after every
/// `CHECK_WINDOW`-th task when there is a budget.
pub open spec fn follows_clock<T, C: Fn() -> u64>(
    a: QueueRegistry<T>,
    b: QueueRegistry<T>,
    budget: Option<u64>,
    s: DrainSession,
    clock: C,
) -> bool {
    exists|readings: Map<nat, u64>|
        #[trigger] clock_readings(clock, readings, budget, s.executed as nat)
        && drain_run(start_session(budget), oks_of(new_runs(a, b)), clock_of(readings)) == s
}

/// When every reading that `clock` can return is over the budget (a zero
/// budget with a clock that has moved on), a drain runs at most
/// `CHECK_WINDOW` tasks: it reports the budget exceeded after exactly
/// `CHECK_WINDOW` of them, or ends exhausted with fewer.
pub proof fn lemma_clock_over_budget_stops<T, C: Fn() -> u64>(
    a: QueueRegistry<T>,
    b: QueueRegistry<T>,
    budget: u64,
    s: DrainSession,
    finished: bool,
    clock: C,
)
    requires
        drain_outcome(a, b, Some(budget), s, finished),
        follows_clock(a, b, Some(budget), s, clock),
        forall|e: u64| call_ensures(clock, (), e) ==> e > budget,
    ensures
        s.executed <= CHECK_WINDOW,
        s.state == DrainState::BudgetExceeded <==> s.executed == CHECK_WINDOW,
{
    let oks = oks_of(new_runs(a, b));
    let m = choose|m: Map<nat, u64>|
        #[trigger] clock_readings(clock, m, Some(budget), s.executed as nat)
        && drain_run(start_session(Some(budget)), oks, clock_of(m)) == s;
    lemma_budget_slack(budget, oks, clock_of(m));
    if s.executed >= CHECK_WINDOW {
        assert(m.dom().contains(5nat));
        assert(call_ensures(clock, (), m[5nat]));
        assert(clock_of(m)(5nat) > budget);
        if s.state == DrainState::Exhausted {
            assert(clock_of(m)(5nat) <= budget);
        } else if s.executed > CHECK_WINDOW {
            assert(s.executed >= 10);
            assert(clock_of(m)(5nat) <= budget);
        }
    }
}

/// Drains the default queue, then each named queue in the order of its
/// creation, sharing one session, so that the clock is read after every
/// `CHECK_WINDOW`-th task over all of them. Stops at the first reading over
/// `budget` (in clock ticks); with no budget, runs everything.
pub fn drain_all<T, R, S, C>(
    registry: &mut QueueRegistry<T>,
    budget: Option<u64>,
    run: &R,
    report: &S,
    clock: &C,
) -> (s: DrainSession)
    where
        R: Fn(T) -> Result<(), String>,
        S: Fn(String),
        C: Fn() -> u64,
    requires
        old(registry).wf(),
        forall|t: T| call_requires(*run, (t,)),
        forall|m: String| call_requires(*report, (m,)),
        call_requires(*clock, ()),
    ensures
        final(registry).wf(),
        runs_recorded(*old(registry), *final(registry), *run),
        tasks_of(new_runs(*old(registry), *final(registry))) == taken_upto(
            *old(registry),
            *final(registry),
            old(registry).names().len() as int,
        ),
        drain_outcome(*old(registry), *final(registry), budget, s, all_finished(*old(registry), *final(registry))),
        budget.is_none() ==> s.state == DrainState::Exhausted,
        s.state == DrainState::BudgetExceeded ==> exists|e: u64| reading_over_budget(*clock, s, e),
        follows_clock(*old(registry), *final(registry), budget, s, *clock),
{
    let ghost a = *registry;
    let ghost base = registry.runs().len() as int;
    let mut s = DrainSession::new(budget);
    assert(oks_of(registry.runs().subrange(base, base)) =~= Seq::<bool>::empty());
    assert(clock_readings(*clock, Map::<nat, u64>::empty(), budget, 0));
    let Ghost(r0) = drain_queue(registry, None, &mut s, run, report, clock, Ghost(base), Ghost(Map::empty()));
    let ghost mut readings = r0;
    proof {
        assert(tasks_of(new_runs(a, *registry)) =~= taken_upto(a, *registry, 0));
    }
    let mut i: usize = 0;
    while i < registry.len() && s.running()
        invariant
            registry.wf(),
            registry.names() == a.names(),
            i <= a.names().len(),
            base == a.runs().len(),
            runs_recorded(a, *registry, *run),
            s.wf(),
            s.budget == budget,
            s.executed == registry.runs().len() - base,
            clock_readings(*clock, readings, budget, s.executed as nat),
            s == crate::session::drain_steps(
                start_session(budget),
                oks_of(registry.runs().subrange(base, registry.runs().len() as int)),
                clock_of(readings),
            ),
            s.state == DrainState::Running || s.state == DrainState::BudgetExceeded,
            s.state == DrainState::Running ==> s.executed == u64::MAX || {
                &&& queue_finished(a, *registry, -1)
                &&& forall|j: int| 0 <= j < i ==> #[trigger] queue_finished(a, *registry, j)
            },
            s.state == DrainState::BudgetExceeded ==> exists|e: u64| reading_over_budget(*clock, s, e),
            forall|t: T| call_requires(*run, (t,)),
            forall|m: String| call_requires(*report, (m,)),
            call_requires(*clock, ()),
            forall|j: int| i <= j < a.names().len() ==> #[trigger] registry.taken(j) == a.taken(j)
                && registry.epoch(j) == a.epoch(j),
            tasks_of(new_runs(a, *registry)) == taken_upto(a, *registry, i as int),
        decreases a.names().len() - i,
    {
        let ghost before = *registry;
        let Ghost(r) = drain_queue(registry, Some(i), &mut s, run, report, clock, Ghost(base), Ghost(readings));
        proof {
            readings = r;
            lemma_runs_recorded_trans(a, before, *registry, *run);
            assert forall|j: int| i + 1 <= j < a.names().len() implies #[trigger] registry.taken(j) == a.taken(j)
                && registry.epoch(j) == a.epoch(j) by {
                assert(j != i as int);
                assert(registry.taken(j) == before.taken(j));
                assert(registry.epoch(j) == before.epoch(j));
            }
            let lb = before.runs().len() as int;
            assert(new_runs(a, *registry) =~= new_runs(a, before) + new_runs(before, *registry)) by {
                assert forall|j: int| 0 <= j < lb - a.runs().len() implies new_runs(a, *registry)[j] == new_runs(a, before)[j] by {
                    assert(registry.runs()[a.runs().len() + j] == registry.runs().subrange(0, lb)[a.runs().len() + j]);
                }
            }
            assert(tasks_of(new_runs(before, *registry)) =~= new_taken(before, *registry, i as int));
            assert(new_taken(a, *registry, i as int) == new_taken(before, *registry, i as int));
            assert forall|j: int| -1 <= j < i implies #[trigger] registry.taken(j) == before.taken(j) by {
                assert(j != i as int);
            }
            lemma_taken_upto_frame(a, before, *registry, i as int);
            assert(tasks_of(new_runs(a, *registry)) =~= taken_upto(a, *registry, i + 1));
            if s.state == DrainState::Running && s.executed != u64::MAX {
                assert(queue_finished(a, *registry, -1));
                assert forall|j: int| 0 <= j < i + 1 implies #[trigger] queue_finished(a, *registry, j) by {
                    if j < i {
                        assert(queue_finished(a, before, j));
                    }
                }
            }
        }
        i = i + 1;
    }
    if s.running() {
        s.record_empty();
    }
    proof {
        lemma_taken_upto_rest_empty(a, *registry, i as int, a.names().len() as int);
        lemma_run_is_finished_steps(start_session(budget), oks_of(new_runs(a, *registry)), clock_of(readings));
        assert(drain_run(start_session(budget), oks_of(new_runs(a, *registry)), clock_of(readings)) == s);
        assert(clock_readings(*clock, readings, budget, s.executed as nat));
    }
    s
}

/// Drains the queue named `id` alone, as `drain_all` does. A queue that
/// does not exist is not created and counts as empty.
pub fn drain_named<T, R, S, C>(
    registry: &mut QueueRegistry<T>,
    id: &String,
    budget: Option<u64>,
    run: &R,
    report: &S,
    clock: &C,
) -> (s: DrainSession)
    where
        R: Fn(T) -> Result<(), String>,
        S: Fn(String),
        C: Fn() -> u64,
    requires
        old(registry).wf(),
        forall|t: T| call_requires(*run, (t,)),
        forall|m: String| call_requires(*report, (m,)),
        call_requires(*clock, ()),
    ensures
        final(registry).wf(),
        runs_recorded(*old(registry), *final(registry), *run),
        drain_outcome(*old(registry), *final(registry), budget, s, named_finished(*old(registry), *final(registry), id@)),
        budget.is_none() ==> s.state == DrainState::Exhausted,
        s.state == DrainState::BudgetExceeded ==> exists|e: u64| reading_over_budget(*clock, s, e),
        follows_clock(*old(registry), *final(registry), budget, s, *clock),
        forall|i: int| 0 <= i < old(registry).names().len() && old(registry).names()[i] == id@
            ==> #[trigger] ran_from_queue(*old(registry), *final(registry), i),
        !old(registry).names().contains(id@) ==> s == (DrainSession {
            state: DrainState::Exhausted,
            ..start_session(budget)
        }) && *final(registry) == *old(registry),
{
    let ghost a = *registry;
    let ghost base = registry.runs().len() as int;
    let mut s = DrainSession::new(budget);
    let ghost mut readings = Map::<nat, u64>::empty();
    assert(clock_readings(*clock, readings, budget, 0));
    assert(oks_of(registry.runs().subrange(base, base)) =~= Seq::<bool>::empty());
    match registry.find(id) {
        Some(i) => {
            let Ghost(r) = drain_queue(registry, Some(i), &mut s, run, report, clock, Ghost(base), Ghost(readings));
            proof {
                readings = r;
                assert forall|j: int| 0 <= j < a.names().len() && a.names()[j] == id@
                    implies j == i by {
                    if j != i {
                        a.lemma_names_distinct();
                    }
                }
            }
        },
        None => {
            assert(new_runs(a, *registry) =~= Seq::empty());
            assert(runs_recorded(a, *registry, *run)) by {
                assert(registry.runs().subrange(0, base) =~= registry.runs());
                assert(a.reports() + crate::registry::errs(new_runs(a, a)) =~= a.reports());
                assert forall|q: int| #![trigger registry.taken(q)]
                    a.taken(q).len() <= registry.taken(q).len() && registry.taken(q).subrange(0, a.taken(q).len() as int) == a.taken(q) by {
                    assert(registry.taken(q).subrange(0, a.taken(q).len() as int) =~= a.taken(q));
                }
            }
        },
    }
    if s.running() {
        s.record_empty();
    }
    proof {
        lemma_run_is_finished_steps(start_session(budget), oks_of(new_runs(a, *registry)), clock_of(readings));
        assert(drain_run(start_session(budget), oks_of(new_runs(a, *registry)), clock_of(readings)) == s);
        assert(clock_readings(*clock, readings, budget, s.executed as nat));
    }
    s
}

/// Runs every task that the queues hold, with no time limit.
pub fn process_callbacks<T, R, S>(registry: &mut QueueRegistry<T>, run: &R, report: &S)
    where
        R: Fn(T) -> Result<(), String>,
        S: Fn(String),
    requires
        old(registry).wf(),
        forall|t: T| call_requires(*run, (t,)),
        forall|m: String| call_requires(*report, (m,)),
    ensures
        final(registry).wf(),
        runs_recorded(*old(registry), *final(registry), *run),
        tasks_of(new_runs(*old(registry), *final(registry))) == taken_upto(
            *old(registry),
            *final(registry),
            old(registry).names().len() as int,
        ),
        all_finished(*old(registry), *final(registry)) || new_runs(*old(registry), *final(registry)).len() == u64::MAX,
{
    let never_read = || 0u64;
    let s = drain_all(registry, None, run, report, &never_read);
}

/// Runs the tasks that the queues hold until `budget` clock ticks have
/// passed; returns whether the budget ran out.
pub fn process_callbacks_for<T, R, S>(registry: &mut QueueRegistry<T>, budget: u64, run: &R, report: &S) -> (exceeded: bool)
    where
        R: Fn(T) -> Result<(), String>,
        S: Fn(String),
    requires
        old(registry).wf(),
        forall|t: T| call_requires(*run, (t,)),
        forall|m: String| call_requires(*report, (m,)),
    ensures
        final(registry).wf(),
        runs_recorded(*old(registry), *final(registry), *run),
        tasks_of(new_runs(*old(registry), *final(registry))) == taken_upto(
            *old(registry),
            *final(registry),
            old(registry).names().len() as int,
        ),
        exists|s: DrainSession|
            #[trigger] drain_outcome(*old(registry), *final(registry), Some(budget), s, all_finished(*old(registry), *final(registry)))
            && exceeded == (s.state == DrainState::BudgetExceeded),
{
    let start = now();
    let clock = || elapsed_ticks(&start);
    let s = drain_all(registry, Some(budget), run, report, &clock);
    s.exceeded()
}

/// As `process_callbacks_for`, with the budget in milliseconds.
pub fn process_callbacks_for_millis<T, R, S>(registry: &mut QueueRegistry<T>, millis: u64, run: &R, report: &S) -> (exceeded: bool)
    where
        R: Fn(T) -> Result<(), String>,
        S: Fn(String),
    requires
        old(registry).wf(),
        forall|t: T| call_requires(*run, (t,)),
        forall|m: String| call_requires(*report, (m,)),
    ensures
        final(registry).wf(),
        runs_recorded(*old(registry), *final(registry), *run),
        tasks_of(new_runs(*old(registry), *final(registry))) == taken_upto(
            *old(registry),
            *final(registry),
            old(registry).names().len() as int,
        ),
        exists|s: DrainSession|
            #[trigger] drain_outcome(*old(registry), *final(registry), Some(ticks_of_millis(millis)), s, all_finished(*old(registry), *final(registry)))
            && exceeded == (s.state == DrainState::BudgetExceeded),
{
    process_callbacks_for(registry, millis_to_ticks(millis), run, report)
}

/// The budget in clock ticks of a time limit in milliseconds, if any.
pub open spec fn budget_of(millis: Option<u64>) -> Option<u64> {
    match millis {
        Some(m) => Some(ticks_of_millis(m)),
        None => None,
    }
}

/// Runs the tasks of the queue named `id`, within `millis` milliseconds if
/// given; returns whether the budget ran out.
pub fn process_queue<T, R, S>(
    registry: &mut QueueRegistry<T>,
    id: &String,
    millis: Option<u64>,
    run: &R,
    report: &S,
) -> (exceeded: bool)
    where
        R: Fn(T) -> Result<(), String>,
        S: Fn(String),
    requires
        old(registry).wf(),
        forall|t: T| call_requires(*run, (t,)),
        forall|m: String| call_requires(*report, (m,)),
    ensures
        final(registry).wf(),
        runs_recorded(*old(registry), *final(registry), *run),
        exists|s: DrainSession|
            #[trigger] drain_outcome(*old(registry), *final(registry), budget_of(millis), s, named_finished(*old(registry), *final(registry), id@))
            && exceeded == (s.state == DrainState::BudgetExceeded),
        forall|i: int| 0 <= i < old(registry).names().len() && old(registry).names()[i] == id@
            ==> #[trigger] ran_from_queue(*old(registry), *final(registry), i),
        millis.is_none() ==> !exceeded,
        !old(registry).names().contains(id@) ==> !exceeded && *final(registry) == *old(registry),
{
    let budget = match millis {
        Some(m) => Some(millis_to_ticks(m)),
        None => None,
    };
    let start = now();
    let clock = || elapsed_ticks(&start);
    let s = drain_named(registry, id, budget, run, report, &clock);
    s.exceeded()
}

/// Drops, without running them, the tasks that queue `q` holds when the call
/// begins; returns how many were dropped.
fn discard_queue<T>(registry: &mut QueueRegistry<T>, q: Option<usize>) -> (dropped: usize)
    requires
        old(registry).wf(),
        old(registry).has_queue(q),
    ensures
        final(registry).wf(),
        final(registry).runs() == old(registry).runs(),
        final(registry).reports() == old(registry).reports(),
        crate::registry::others_kept(*old(registry), *final(registry), crate::registry::key(q)),
        queue_finished(*old(registry), *final(registry), crate::registry::key(q)),
        dropped == crate::engine::new_taken(*old(registry), *final(registry), crate::registry::key(q)).len(),
{
    let ghost kq = crate::registry::key(q);
    let n = registry.count_pending(q);
    let ghost mid = *registry;
    let mut dropped: usize = 0;
    let mut empty = false;
    while dropped < n && !empty
        invariant
            registry.wf(),
            registry.has_queue(q),
            kq == crate::registry::key(q),
            dropped <= n,
            crate::registry::others_kept(mid, *registry, kq),
            registry.runs() == mid.runs(),
            registry.reports() == mid.reports(),
            registry.counts(kq) == n,
            registry.epoch(kq) == mid.epoch(kq),
            registry.emptied(kq) == empty,
            mid.taken(kq).len() + dropped == registry.taken(kq).len(),
            registry.taken(kq).subrange(0, mid.taken(kq).len() as int) == mid.taken(kq),
        decreases n - dropped + if empty { 0int } else { 1int },
    {
        let ghost prev = *registry;
        match registry.pop(q) {
            Some(_) => {
                dropped = dropped + 1;
                assert(registry.taken(kq).subrange(0, mid.taken(kq).len() as int) =~= prev.taken(kq).subrange(0, mid.taken(kq).len() as int));
            },
            None => {
                empty = true;
            },
        }
    }
    dropped
}

/// At shutdown: drops every task that the queues hold, without running it,
/// so that no stale work runs against a host that is going away. Returns
/// how many were dropped (at most `u64::MAX`).
pub fn discard_pending<T>(registry: &mut QueueRegistry<T>) -> (dropped: u64)
    requires
        old(registry).wf(),
    ensures
        final(registry).wf(),
        final(registry).names() == old(registry).names(),
        final(registry).runs() == old(registry).runs(),
        final(registry).reports() == old(registry).reports(),
        all_finished(*old(registry), *final(registry)),
{
    let ghost a = *registry;
    let mut dropped: u64 = discard_queue(registry, None) as u64;
    let mut i: usize = 0;
    while i < registry.len()
        invariant
            registry.wf(),
            registry.names() == a.names(),
            i <= a.names().len(),
            registry.runs() == a.runs(),
            registry.reports() == a.reports(),
            queue_finished(a, *registry, -1),
            forall|j: int| 0 <= j < i ==> #[trigger] queue_finished(a, *registry, j),
            forall|j: int| i <= j < a.names().len() ==> #[trigger] registry.taken(j) == a.taken(j)
                && registry.epoch(j) == a.epoch(j),
        decreases a.names().len() - i,
    {
        let ghost before = *registry;
        let d = discard_queue(registry, Some(i)) as u64;
        dropped = dropped.saturating_add(d);
        proof {
            assert(queue_finished(a, *registry, i as int));
            assert(queue_finished(a, *registry, -1));
            assert forall|j: int| 0 <= j < i + 1 implies #[trigger] queue_finished(a, *registry, j) by {
                if j < i {
                    assert(queue_finished(a, before, j));
                }
            }
        }
        i = i + 1;
    }
    dropped
}

} // verus!
