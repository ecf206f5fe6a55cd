use vstd::prelude::*;

use crate::registry::{
    errs, events_of, key, lemma_errs_append, lemma_events_append, lemma_others_kept_chain, oks_of,
    others_kept, DrainEvent, QueueRegistry,
};
use crate::session::{
    clock_of, drain_steps, lemma_steps_clock_prefix, lemma_steps_push, start_session, DrainSession,
    DrainState, CHECK_WINDOW,
};

verus! {

/// Whether `clock` may return `e` and `e` is over the budget of `s`.
pub open spec fn reading_over_budget<C: Fn() -> u64>(clock: C, s: DrainSession, e: u64) -> bool {
    call_ensures(clock, (), e) && s.budget.is_some() && e > s.budget.unwrap()
}

/// `readings` are readings that `clock` can return, and, with a budget,
/// hold one for every `CHECK_WINDOW`-th of the first `executed` tasks.
pub open spec fn clock_readings<C: Fn() -> u64>(
    clock: C,
    readings: Map<nat, u64>,
    budget: Option<u64>,
    executed: nat,
) -> bool {
    &&& forall|k: nat| #[trigger] readings.dom().contains(k) ==> call_ensures(clock, (), readings[k])
    &&& budget.is_some() ==> forall|k: nat|
        0 < k <= executed && k % (CHECK_WINDOW as nat) == 0 ==> #[trigger] readings.dom().contains(k)
}

/// The tasks run between registry states `a` and `b`, with what each returned.
pub open spec fn new_runs<T>(a: QueueRegistry<T>, b: QueueRegistry<T>) -> Seq<(T, Result<(), String>)> {
    b.runs().subrange(a.runs().len() as int, b.runs().len() as int)
}

/// The tasks that queue `q` gave out between registry states `a` and `b`.
pub open spec fn new_taken<T>(a: QueueRegistry<T>, b: QueueRegistry<T>, q: int) -> Seq<T> {
    b.taken(q).subrange(a.taken(q).len() as int, b.taken(q).len() as int)
}

/// Between `a` and `b` the record only grew: every task run was handed to
/// `run` and what it returned is what `run` gave back, and the error sink got
/// the message of each failed run once, in order.
pub open spec fn runs_recorded<T, R: Fn(T) -> Result<(), String>>(
    a: QueueRegistry<T>,
    b: QueueRegistry<T>,
    run: R,
) -> bool {
    &&& b.names() == a.names()
    &&& a.runs().len() <= b.runs().len()
    &&& b.runs().subrange(0, a.runs().len() as int) == a.runs()
    &&& forall|j: int|
        a.runs().len() <= j < b.runs().len() ==> call_ensures(run, (b.runs()[j].0,), #[trigger] b.runs()[j].1)
    &&& b.reports() == a.reports() + errs(new_runs(a, b))
    &&& b.events() == a.events() + events_of(new_runs(a, b))
    &&& forall|q: int|
        #![trigger b.taken(q)]
        a.taken(q).len() <= b.taken(q).len() && b.taken(q).subrange(0, a.taken(q).len() as int) == a.taken(q)
}

/// The tasks run between `a` and `b` are, in order, those that queue `q`
/// gave out.
pub open spec fn ran_from_queue<T>(a: QueueRegistry<T>, b: QueueRegistry<T>, q: int) -> bool {
    &&& new_taken(a, b, q).len() == new_runs(a, b).len()
    &&& forall|j: int| 0 <= j < new_runs(a, b).len() ==> #[trigger] new_runs(a, b)[j].0 == new_taken(a, b, q)[j]
}

/// A drain of queue `q` began between `a` and `b` and went on until the
/// queue was found empty or had given out all it held when the drain began.
pub open spec fn queue_finished<T>(a: QueueRegistry<T>, b: QueueRegistry<T>, q: int) -> bool {
    &&& b.epoch(q) > a.epoch(q)
    &&& b.emptied(q) || new_taken(a, b, q).len() == b.counts(q)
}

pub proof fn lemma_runs_recorded_trans<T, R: Fn(T) -> Result<(), String>>(
    a: QueueRegistry<T>,
    b: QueueRegistry<T>,
    c: QueueRegistry<T>,
    run: R,
)
    requires
        runs_recorded(a, b, run),
        runs_recorded(b, c, run),
    ensures
        runs_recorded(a, c, run),
{
    let la = a.runs().len() as int;
    let lb = b.runs().len() as int;
    assert(c.runs().subrange(0, la) =~= c.runs().subrange(0, lb).subrange(0, la));
    assert forall|j: int| la <= j < c.runs().len() implies call_ensures(run, (c.runs()[j].0,), #[trigger] c.runs()[j].1) by {
        if j < lb {
            assert(c.runs()[j] == c.runs().subrange(0, lb)[j]);
        }
    }
    assert(new_runs(a, c) =~= new_runs(a, b) + new_runs(b, c)) by {
        assert forall|j: int| 0 <= j < lb - la implies new_runs(a, c)[j] == new_runs(a, b)[j] by {
            assert(c.runs()[la + j] == c.runs().subrange(0, lb)[la + j]);
        }
    }
    lemma_errs_append(new_runs(a, b), new_runs(b, c));
    lemma_events_append(new_runs(a, b), new_runs(b, c));
    assert(c.events() =~= a.events() + events_of(new_runs(a, c)));
    assert(c.reports() =~= a.reports() + errs(new_runs(a, c)));
    assert forall|q: int| #![trigger c.taken(q)]
        a.taken(q).len() <= c.taken(q).len() && c.taken(q).subrange(0, a.taken(q).len() as int) == a.taken(q) by {
        assert(b.taken(q).len() <= c.taken(q).len());
        assert(c.taken(q).subrange(0, a.taken(q).len() as int) =~= c.taken(q).subrange(0, b.taken(q).len() as int).subrange(0, a.taken(q).len() as int));
    }
}

/// Hands `message` to the error sink `report`, and records that it did.
fn send_report<T, S: Fn(String)>(registry: &mut QueueRegistry<T>, report: &S, message: String)
    requires
        old(registry).wf(),
        call_requires(*report, (message,)),
    ensures
        final(registry).wf(),
        crate::registry::queues_kept(*old(registry), *final(registry)),
        final(registry).runs() == old(registry).runs(),
        final(registry).reports() == old(registry).reports().push(message),
        final(registry).events() == old(registry).events().push(DrainEvent::Reported(message)),
{
    let ghost m = message;
    report(message);
    registry.note_report(Ghost(m));
}

/// Runs the tasks that queue `q` holds when the call begins, oldest first, each
/// exactly once, on the running session `session`. A failing task has its
/// message handed to `report` and the drain goes on. With a budget, `clock`
/// is read after every `CHECK_WINDOW`-th task of the session and the drain
/// stops once a reading is over the budget. The session is left running
/// when the queue had nothing more to give. The session's outcomes are those
/// of the runs recorded from position `base` on, and `readings` its clock
/// readings so far; the result extends them with those of this call.
pub(crate) fn drain_queue<T, R, S, C>(
    registry: &mut QueueRegistry<T>,
    q: Option<usize>,
    session: &mut DrainSession,
    run: &R,
    report: &S,
    clock: &C,
    Ghost(base): Ghost<int>,
    Ghost(readings): Ghost<Map<nat, u64>>,
) -> (new_readings: Ghost<Map<nat, u64>>)
    where
        R: Fn(T) -> Result<(), String>,
        S: Fn(String),
        C: Fn() -> u64,
    requires
        old(registry).wf(),
        old(registry).has_queue(q),
        old(session).wf(),
        old(session).state == DrainState::Running,
        forall|t: T| call_requires(*run, (t,)),
        forall|m: String| call_requires(*report, (m,)),
        call_requires(*clock, ()),
        0 <= base <= old(registry).runs().len(),
        clock_readings(*clock, readings, old(session).budget, old(session).executed as nat),
        old(session).executed == old(registry).runs().len() - base,
        *old(session) == drain_steps(
            start_session(old(session).budget),
            oks_of(old(registry).runs().subrange(base, old(registry).runs().len() as int)),
            clock_of(readings),
        ),
    ensures
        final(registry).wf(),
        runs_recorded(*old(registry), *final(registry), *run),
        ran_from_queue(*old(registry), *final(registry), key(q)),
        others_kept(*old(registry), *final(registry), key(q)),
        final(registry).epoch(key(q)) == old(registry).epoch(key(q)) + 1,
        final(session).executed == final(registry).runs().len() - base,
        clock_readings(*clock, new_readings@, old(session).budget, final(session).executed as nat),
        *final(session) == drain_steps(
            start_session(old(session).budget),
            oks_of(final(registry).runs().subrange(base, final(registry).runs().len() as int)),
            clock_of(new_readings@),
        ),
        final(session).wf(),
        final(session).budget == old(session).budget,
        final(session).state == DrainState::Running || final(session).state == DrainState::BudgetExceeded,
        final(session).state == DrainState::Running ==> queue_finished(*old(registry), *final(registry), key(q))
            || final(session).executed == u64::MAX,
        final(session).state == DrainState::BudgetExceeded ==> {
            &&& final(session).executed > old(session).executed
            &&& final(session).executed % CHECK_WINDOW == 0
            &&& exists|e: u64| reading_over_budget(*clock, *final(session), e)
        },
{
    let ghost kq = key(q);
    let ghost start = start_session(old(session).budget);
    let n = registry.count_pending(q);
    let ghost mid = *registry;
    let mut i: usize = 0;
    let mut empty = false;
    let ghost mut h_readings = readings;
    proof {
        assert(registry.runs().subrange(0, mid.runs().len() as int) =~= mid.runs());
        assert(new_runs(mid, mid) =~= Seq::empty());
        assert(errs(new_runs(mid, mid)) =~= Seq::<String>::empty());
        assert(mid.reports() + errs(new_runs(mid, mid)) =~= mid.reports());
        assert(mid.events() + events_of(new_runs(mid, mid)) =~= mid.events());
        assert forall|qq: int| #![trigger registry.taken(qq)]
            mid.taken(qq).len() <= registry.taken(qq).len()
            && registry.taken(qq).subrange(0, mid.taken(qq).len() as int) == mid.taken(qq) by {
            assert(registry.taken(qq).subrange(0, mid.taken(qq).len() as int) =~= mid.taken(qq));
        }
        assert(new_taken(mid, mid, kq) =~= Seq::empty());
        assert(others_kept(mid, mid, kq));
    }
    while i < n && !empty && session.running() && session.executed < u64::MAX
        invariant
            registry.wf(),
            registry.has_queue(q),
            kq == key(q),
            others_kept(mid, *registry, kq),
            registry.counts(kq) == n,
            registry.epoch(kq) == mid.epoch(kq),
            registry.emptied(kq) == empty,
            runs_recorded(mid, *registry, *run),
            ran_from_queue(mid, *registry, kq),
            new_taken(mid, *registry, kq).len() == if empty { i - 1 } else { i as int },
            i <= n,
            0 <= base <= mid.runs().len(),
            session.wf(),
            session.budget == old(session).budget,
            session.executed >= old(session).executed,
            session.executed == registry.runs().len() - base,
            clock_readings(*clock, h_readings, old(session).budget, session.executed as nat),
            *session == drain_steps(
                start,
                oks_of(registry.runs().subrange(base, registry.runs().len() as int)),
                clock_of(h_readings),
            ),
            start == start_session(old(session).budget),
            session.state == DrainState::Running || session.state == DrainState::BudgetExceeded,
            session.state == DrainState::BudgetExceeded ==> {
                &&& session.executed > old(session).executed
                &&& session.executed % CHECK_WINDOW == 0
                &&& exists|e: u64| reading_over_budget(*clock, *session, e)
            },
            forall|t: T| call_requires(*run, (t,)),
            forall|m: String| call_requires(*report, (m,)),
            call_requires(*clock, ()),
        decreases n - i,
    {
        let ghost prev = *registry;
        match registry.pop(q) {
            None => {
                empty = true;
                proof {
                    lemma_others_kept_chain(mid, prev, *registry, kq);
                    assert(new_runs(mid, *registry) == new_runs(mid, prev));
                    assert(new_taken(mid, *registry, kq) == new_taken(mid, prev, kq));
                    assert forall|qq: int| #![trigger registry.taken(qq)]
                        mid.taken(qq).len() <= registry.taken(qq).len()
                        && registry.taken(qq).subrange(0, mid.taken(qq).len() as int) == mid.taken(qq) by {
                        assert(registry.taken(qq) == prev.taken(qq));
                    }
                }
            },
            Some(task) => {
                let ghost t = task;
                let outcome = run(task);
                let ghost out = outcome;
                let ok = outcome.is_ok();
                let ghost popped = *registry;
                registry.note_run(Ghost(t), Ghost(out));
                let ghost noted = *registry;
                match outcome {
                    Ok(()) => {},
                    Err(message) => {
                        send_report(registry, report, message);
                    },
                }
                let ghost prev_oks = oks_of(prev.runs().subrange(base, prev.runs().len() as int));
                let ghost prev_readings = h_readings;
                let ghost k = (session.executed + 1) as nat;
                let ghost before_task = *session;
                let due = session.record_task(ok);
                assert(due <==> (session.budget.is_some() && k % (CHECK_WINDOW as nat) == 0));
                if due {
                    let e = clock();
                    session.record_reading(e);
                    assert(reading_over_budget(*clock, *session, e) || session.state == DrainState::Running);
                    proof {
                        h_readings = h_readings.insert(k, e);
                    }
                }
                proof {
                    lemma_others_kept_chain(mid, prev, popped, kq);
                    lemma_others_kept_chain(mid, popped, noted, kq);
                    lemma_others_kept_chain(mid, noted, *registry, kq);
                    let rs = registry.runs();
                    assert(rs == prev.runs().push((t, out)));
                    assert(rs.subrange(base, rs.len() as int) =~= prev.runs().subrange(base, prev.runs().len() as int).push((t, out)));
                    assert(oks_of(rs.subrange(base, rs.len() as int)) =~= prev_oks.push(ok));
                    let c = clock_of(h_readings);
                    assert forall|j: nat| j <= start.executed + prev_oks.len() implies #[trigger] clock_of(
                        prev_readings,
                    )(j) == c(j) by {
                        assert(j != k);
                    }
                    lemma_steps_clock_prefix(start, prev_oks, clock_of(prev_readings), c);
                    lemma_steps_push(start, prev_oks, ok, c);
                    assert forall|j: nat| #[trigger] h_readings.dom().contains(j) implies call_ensures(*clock, (), h_readings[j]) by {
                        if j != k {
                            assert(prev_readings.dom().contains(j));
                        }
                    }
                    if session.budget.is_some() {
                        assert forall|j: nat| 0 < j <= session.executed && j % (CHECK_WINDOW as nat) == 0
                            implies #[trigger] h_readings.dom().contains(j) by {
                            if j != k {
                                assert(prev_readings.dom().contains(j));
                            }
                        }
                    }
                    let nr = new_runs(mid, *registry);
                    let pr = new_runs(mid, prev);
                    assert(nr =~= pr.push((t, out)));
                    assert(nr.drop_last() =~= pr);
                    assert(nr.last() == (t, out));
                    match out {
                        Ok(_) => {
                            assert(registry.events() =~= mid.events() + events_of(nr));
                        },
                        Err(mm) => {
                            assert(registry.events() =~= mid.events() + events_of(nr));
                        },
                    }
                    assert(new_taken(mid, *registry, kq) =~= new_taken(mid, prev, kq).push(t));
                    assert(registry.runs().subrange(0, mid.runs().len() as int) =~= prev.runs().subrange(0, mid.runs().len() as int));
                    assert forall|qq: int| #![trigger registry.taken(qq)]
                        mid.taken(qq).len() <= registry.taken(qq).len()
                        && registry.taken(qq).subrange(0, mid.taken(qq).len() as int) == mid.taken(qq) by {
                        if qq == kq {
                            assert(registry.taken(qq).subrange(0, mid.taken(qq).len() as int) =~= prev.taken(qq).subrange(0, mid.taken(qq).len() as int));
                        }
                    }
                }
            },
        }
        i = i + 1;
    }
    proof {
        assert(old(registry).runs() == mid.runs());
        assert(new_runs(*old(registry), *registry) == new_runs(mid, *registry));
        assert(new_taken(*old(registry), *registry, kq) == new_taken(mid, *registry, kq));
    }
    Ghost(h_readings)
}

} // verus!
