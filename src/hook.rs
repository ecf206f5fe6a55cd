use vstd::prelude::*;

use crate::clock::ticks_of_millis;
use crate::engine::{new_runs, ran_from_queue, runs_recorded};
use crate::process::{
    all_finished, drain_outcome, named_finished, process_callbacks, process_callbacks_for_millis,
    process_queue, taken_upto, tasks_of,
};
use crate::session::{DrainSession, DrainState};
use crate::registry::QueueRegistry;

verus! {

/// One argument of a call from the host, as the host adapter hands it over:
/// a queue id, or a time limit in whole milliseconds.
#[derive(Debug)]
pub enum HookArg {
    Text(String),
    Number(u64),
}

/// What a call from the host asks for.
#[derive(Debug)]
pub enum HookRequest {
    /// Run everything that every queue holds.
    All,
    /// Run everything that one named queue holds.
    Queue(String),
    /// Run the tasks of all queues within a time limit in milliseconds.
    AllFor(u64),
    /// Run the tasks of one named queue within a time limit in milliseconds.
    QueueFor(String, u64),
}

/// Why a call from the host was refused.
#[derive(Debug, PartialEq, Eq, Structural)]
pub enum HookError {
    /// The call had this many arguments; it takes at most two.
    Arity(usize),
    /// Two arguments that are not a queue id followed by a time limit.
    ArgType,
}

/// The request that a call with arguments `args` makes.
pub open spec fn hook_request(args: Seq<HookArg>) -> Result<HookRequest, HookError> {
    if args.len() == 0 {
        Ok(HookRequest::All)
    } else if args.len() == 1 {
        match args[0] {
            HookArg::Text(id) => Ok(HookRequest::Queue(id)),
            HookArg::Number(ms) => Ok(HookRequest::AllFor(ms)),
        }
    } else if args.len() == 2 {
        match (args[0], args[1]) {
            (HookArg::Text(id), HookArg::Number(ms)) => Ok(HookRequest::QueueFor(id, ms)),
            _ => Err(HookError::ArgType),
        }
    } else {
        Err(HookError::Arity(args.len() as usize))
    }
}

/// The queue id that a request names, if it names one.
pub open spec fn hook_queue_id(request: HookRequest) -> String {
    match request {
        HookRequest::Queue(id) => id,
        HookRequest::QueueFor(id, _) => id,
        _ => arbitrary(),
    }
}

/// Reads the arguments of a call from the host: none, a queue id, a time
/// limit, or a queue id and a time limit.
pub fn parse_hook_args(args: &Vec<HookArg>) -> (r: Result<HookRequest, HookError>)
    ensures
        r == hook_request(args@),
{
    if args.len() == 0 {
        Ok(HookRequest::All)
    } else if args.len() == 1 {
        match &args[0] {
            HookArg::Text(id) => Ok(HookRequest::Queue(id.clone())),
            HookArg::Number(ms) => Ok(HookRequest::AllFor(*ms)),
        }
    } else if args.len() == 2 {
        match (&args[0], &args[1]) {
            (HookArg::Text(id), HookArg::Number(ms)) => Ok(HookRequest::QueueFor(id.clone(), *ms)),
            _ => Err(HookError::ArgType),
        }
    } else {
        Err(HookError::Arity(args.len()))
    }
}

/// Carries out a request from the host. A request with a time limit
/// returns whether the limit ran out; one without returns nothing.
pub fn run_hook_request<T, R, S>(
    registry: &mut QueueRegistry<T>,
    request: &HookRequest,
    run: &R,
    report: &S,
) -> (r: Option<bool>)
    where
        R: Fn(T) -> Result<(), String>,
        S: Fn(String),
    requires
        old(registry).wf(),
        forall|t: T| call_requires(*run, (t,)),
        forall|m: String| call_requires(*report, (m,)),
    ensures
        final(registry).wf(),
        runs_recorded(*old(registry), *final(registry), *run),
        r.is_some() <==> (request is AllFor || request is QueueFor),
        match *request {
            HookRequest::All => all_finished(*old(registry), *final(registry))
                || new_runs(*old(registry), *final(registry)).len() == u64::MAX,
            HookRequest::Queue(id) => exists|s: DrainSession|
                #[trigger] drain_outcome(*old(registry), *final(registry), None, s, named_finished(*old(registry), *final(registry), id@))
                && s.state == DrainState::Exhausted,
            HookRequest::AllFor(ms) => exists|s: DrainSession|
                #[trigger] drain_outcome(*old(registry), *final(registry), Some(ticks_of_millis(ms)), s, all_finished(*old(registry), *final(registry)))
                && r == Some(s.state == DrainState::BudgetExceeded),
            HookRequest::QueueFor(id, ms) => exists|s: DrainSession|
                #[trigger] drain_outcome(*old(registry), *final(registry), Some(ticks_of_millis(ms)), s, named_finished(*old(registry), *final(registry), id@))
                && r == Some(s.state == DrainState::BudgetExceeded),
        },
        (request is All || request is AllFor) ==> tasks_of(new_runs(*old(registry), *final(registry)))
            == taken_upto(*old(registry), *final(registry), old(registry).names().len() as int),
        (request is Queue || request is QueueFor) && !old(registry).names().contains(hook_queue_id(*request)@)
            ==> *final(registry) == *old(registry) && (request is QueueFor ==> r == Some(false)),
        forall|i: int| (request is Queue || request is QueueFor) && 0 <= i < old(registry).names().len()
            && old(registry).names()[i] == hook_queue_id(*request)@
            ==> #[trigger] ran_from_queue(*old(registry), *final(registry), i),
{
    match request {
        HookRequest::All => {
            process_callbacks(registry, run, report);
            None
        },
        HookRequest::Queue(id) => {
            process_queue(registry, id, None, run, report);
            None
        },
        HookRequest::AllFor(ms) => Some(process_callbacks_for_millis(registry, *ms, run, report)),
        HookRequest::QueueFor(id, ms) => Some(process_queue(registry, id, Some(*ms), run, report)),
    }
}

} // verus!
