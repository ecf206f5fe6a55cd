use vstd::prelude::*;

use crate::channel::{bounded_channel, clone_sender, pending, try_pop, unbounded_channel};

verus! {

/// How many tasks the default queue holds before `try_send` on it fails.
pub const DEFAULT_CAPACITY: usize = 100000;

/// The ids of the named queues after `get_or_create(id)`: unchanged if `id`
/// is there, else `id` added at the end.
pub open spec fn names_after_create(names: Seq<Seq<char>>, id: Seq<char>) -> Seq<Seq<char>> {
    if names.contains(id) {
        names
    } else {
        names.push(id)
    }
}

/// Whether no id occurs twice in `names`.
pub open spec fn distinct(names: Seq<Seq<char>>) -> bool {
    forall|i: int, j: int| 0 <= i < j < names.len() ==> names[i] != names[j]
}

/// The key of a queue in the registry's record: -1 for the default queue,
/// `i` for the named queue at position `i`.
pub open spec fn key(q: Option<usize>) -> int {
    match q {
        None => -1,
        Some(i) => i as int,
    }
}

/// The messages of the failed runs in `runs`, in order.
pub open spec fn errs<T>(runs: Seq<(T, Result<(), String>)>) -> Seq<String>
    decreases runs.len(),
{
    if runs.len() == 0 {
        Seq::empty()
    } else {
        let prev = errs(runs.drop_last());
        match runs.last().1 {
            Ok(_) => prev,
            Err(m) => prev.push(m),
        }
    }
}

/// What a drain does, in the order it does it: a task ran and returned a
/// result, or a message went to the error sink.
pub enum DrainEvent<T> {
    Ran(T, Result<(), String>),
    Reported(String),
}

/// The events of a drain that made the runs `runs`: each run, followed,
/// when it failed, by the report of its message and nothing else.
pub open spec fn events_of<T>(runs: Seq<(T, Result<(), String>)>) -> Seq<DrainEvent<T>>
    decreases runs.len(),
{
    if runs.len() == 0 {
        Seq::empty()
    } else {
        let prev = events_of(runs.drop_last()).push(DrainEvent::Ran(runs.last().0, runs.last().1));
        match runs.last().1 {
            Ok(_) => prev,
            Err(m) => prev.push(DrainEvent::Reported(m)),
        }
    }
}

pub proof fn lemma_events_append<T>(a: Seq<(T, Result<(), String>)>, b: Seq<(T, Result<(), String>)>)
    ensures
        events_of(a + b) == events_of(a) + events_of(b),
    decreases b.len(),
{
    if b.len() == 0 {
        assert(a + b =~= a);
        assert(events_of(a) + events_of(b) =~= events_of(a));
    } else {
        assert((a + b).drop_last() =~= a + b.drop_last());
        lemma_events_append(a, b.drop_last());
        assert((a + b).last() == b.last());
        let x = DrainEvent::Ran(b.last().0, b.last().1);
        assert(events_of(a) + events_of(b.drop_last()).push(x) =~= (events_of(a) + events_of(b.drop_last())).push(x));
        match b.last().1 {
            Ok(_) => {},
            Err(m) => {
                let y = DrainEvent::Reported(m);
                assert(events_of(a) + events_of(b.drop_last()).push(x).push(y) =~= (events_of(a) + events_of(b.drop_last())).push(x).push(y));
            },
        }
    }
}

/// The outcomes of `runs`: whether each succeeded.
pub open spec fn oks_of<T>(runs: Seq<(T, Result<(), String>)>) -> Seq<bool> {
    runs.map_values(|r: (T, Result<(), String>)| r.1 is Ok)
}

pub proof fn lemma_errs_append<T>(a: Seq<(T, Result<(), String>)>, b: Seq<(T, Result<(), String>)>)
    ensures
        errs(a + b) == errs(a) + errs(b),
    decreases b.len(),
{
    if b.len() == 0 {
        assert(a + b =~= a);
        assert(errs(a) + errs(b) =~= errs(a));
    } else {
        assert((a + b).drop_last() =~= a + b.drop_last());
        lemma_errs_append(a, b.drop_last());
        assert((a + b).last() == b.last());
        match b.last().1 {
            Ok(_) => {},
            Err(m) => {
                assert(errs(a) + errs(b.drop_last()).push(m) =~= (errs(a) + errs(b.drop_last())).push(m));
            },
        }
    }
}

/// The default queue, which is bounded, and the named queues, which are not
/// and are created on first use. Each id names at most one queue, and queues
/// are never removed.
#[verifier::reject_recursive_types(T)]
pub struct QueueRegistry<T> {
    default_tx: flume::Sender<T>,
    default_rx: flume::Receiver<T>,
    ids: Vec<String>,
    senders: Vec<flume::Sender<T>>,
    receivers: Vec<flume::Receiver<T>>,
    taken: Ghost<Map<int, Seq<T>>>,
    counts: Ghost<Map<int, nat>>,
    emptied: Ghost<Map<int, bool>>,
    epochs: Ghost<Map<int, nat>>,
    runs: Ghost<Seq<(T, Result<(), String>)>>,
    reports: Ghost<Seq<String>>,
    events: Ghost<Seq<DrainEvent<T>>>,
}

/// `b` is `a` with the same queues and the same record of each queue.
pub open spec fn queues_kept<T>(a: QueueRegistry<T>, b: QueueRegistry<T>) -> bool {
    &&& b.names() == a.names()
    &&& forall|j: int| #[trigger] b.taken(j) == a.taken(j)
    &&& forall|j: int| #[trigger] b.counts(j) == a.counts(j)
    &&& forall|j: int| #[trigger] b.emptied(j) == a.emptied(j)
    &&& forall|j: int| #[trigger] b.epoch(j) == a.epoch(j)
}

pub proof fn lemma_others_kept_chain<T>(a: QueueRegistry<T>, b: QueueRegistry<T>, c: QueueRegistry<T>, k: int)
    requires
        others_kept(a, b, k),
        others_kept(b, c, k) || queues_kept(b, c),
    ensures
        others_kept(a, c, k),
{
}

/// `b` is `a` with only queue `k`'s record changed, if at all.
pub open spec fn others_kept<T>(a: QueueRegistry<T>, b: QueueRegistry<T>, k: int) -> bool {
    &&& b.names() == a.names()
    &&& forall|j: int| j != k ==> #[trigger] b.taken(j) == a.taken(j)
    &&& forall|j: int| j != k ==> #[trigger] b.counts(j) == a.counts(j)
    &&& forall|j: int| j != k ==> #[trigger] b.emptied(j) == a.emptied(j)
    &&& forall|j: int| j != k ==> #[trigger] b.epoch(j) == a.epoch(j)
}

impl<T> QueueRegistry<T> {
    /// The ids of the named queues, in the order of their creation.
    pub closed spec fn names(&self) -> Seq<Seq<char>> {
        self.ids@.map_values(|s: String| s@)
    }

    /// Every task that queue `q` has given out, in order.
    pub closed spec fn taken(&self, q: int) -> Seq<T> {
        self.taken@[q]
    }

    /// How many tasks queue `q` held when its current drain began.
    pub closed spec fn counts(&self, q: int) -> nat {
        self.counts@[q]
    }

    /// Whether queue `q` was found empty since its current drain began.
    pub closed spec fn emptied(&self, q: int) -> bool {
        self.emptied@[q]
    }

    /// How many drains of queue `q` have begun.
    pub closed spec fn epoch(&self, q: int) -> nat {
        self.epochs@[q]
    }

    /// Every task run, with what it returned, in order.
    pub closed spec fn runs(&self) -> Seq<(T, Result<(), String>)> {
        self.runs@
    }

    /// Every message handed to the error sink, in order. This is a record
    /// that the drain keeps next to its call of the sink: the sink itself
    /// states nothing that could confirm the call.
    pub closed spec fn reports(&self) -> Seq<String> {
        self.reports@
    }

    /// The runs and the reports together, in the order they happened.
    pub closed spec fn events(&self) -> Seq<DrainEvent<T>> {
        self.events@
    }

    pub proof fn lemma_names_distinct(&self)
        requires
            self.wf(),
        ensures
            distinct(self.names()),
    {
    }

    /// Whether `q` names a queue of the registry.
    pub open spec fn has_queue(&self, q: Option<usize>) -> bool {
        match q {
            None => true,
            Some(i) => i < self.names().len(),
        }
    }

    pub closed spec fn wf(&self) -> bool {
        &&& self.senders@.len() == self.ids@.len()
        &&& self.receivers@.len() == self.ids@.len()
        &&& distinct(self.names())
    }

    /// A registry with an empty default queue and no named queue.
    pub fn new() -> (r: QueueRegistry<T>)
        ensures
            r.wf(),
            r.names() == Seq::<Seq<char>>::empty(),
            r.runs() == Seq::<(T, Result<(), String>)>::empty(),
            r.reports() == Seq::<String>::empty(),
    {
        let (default_tx, default_rx) = bounded_channel(DEFAULT_CAPACITY);
        let r = QueueRegistry {
            default_tx,
            default_rx,
            ids: Vec::new(),
            senders: Vec::new(),
            receivers: Vec::new(),
            taken: Ghost(Map::empty()),
            counts: Ghost(Map::empty()),
            emptied: Ghost(Map::empty()),
            epochs: Ghost(Map::empty()),
            runs: Ghost(Seq::empty()),
            reports: Ghost(Seq::empty()),
            events: Ghost(Seq::empty()),
        };
        assert(r.names() =~= Seq::<Seq<char>>::empty());
        r
    }

    /// How many named queues there are.
    pub fn len(&self) -> (n: usize)
        requires
            self.wf(),
        ensures
            n == self.names().len(),
    {
        self.ids.len()
    }

    /// The position of the queue named `id`, if there is one.
    pub fn find(&self, id: &String) -> (r: Option<usize>)
        requires
            self.wf(),
        ensures
            r.is_some() <==> self.names().contains(id@),
            r.is_some() ==> r.unwrap() < self.names().len() && self.names()[r.unwrap() as int] == id@,
    {
        let mut i: usize = 0;
        while i < self.ids.len()
            invariant
                self.wf(),
                i <= self.ids@.len(),
                forall|k: int| 0 <= k < i ==> self.names()[k] != id@,
            decreases self.ids@.len() - i,
        {
            if self.ids[i] == *id {
                assert(self.names()[i as int] == id@);
                return Some(i);
            }
            i = i + 1;
        }
        proof {
            if self.names().contains(id@) {
                let k = choose|k: int| 0 <= k < self.names().len() && self.names()[k] == id@;
                assert(self.names()[k] != id@);
            }
        }
        None
    }

    /// The position of the queue named `id`, created empty and unbounded
    /// if there was none.
    pub fn get_or_create(&mut self, id: &String) -> (i: usize)
        requires
            old(self).wf(),
            old(self).names().len() < usize::MAX,
        ensures
            final(self).wf(),
            final(self).names() == names_after_create(old(self).names(), id@),
            i < final(self).names().len(),
            final(self).names()[i as int] == id@,
            final(self).runs() == old(self).runs(),
            final(self).reports() == old(self).reports(),
            forall|q: int| #[trigger] final(self).taken(q) == old(self).taken(q),
    {
        match self.find(id) {
            Some(i) => i,
            None => {
                let (tx, rx) = unbounded_channel();
                let i = self.ids.len();
                self.ids.push(id.clone());
                self.senders.push(tx);
                self.receivers.push(rx);
                assert(self.names() =~= old(self).names().push(id@));
                i
            },
        }
    }

    /// A sender to the default queue.
    pub fn default_sender(&self) -> flume::Sender<T> {
        clone_sender(&self.default_tx)
    }

    /// A sender to the named queue at position `i`.
    pub fn sender_at(&self, i: usize) -> flume::Sender<T>
        requires
            self.wf(),
            i < self.names().len(),
    {
        clone_sender(&self.senders[i])
    }

    /// A sender to the queue named `id`, created if there was none.
    pub fn sender(&mut self, id: &String) -> (tx: flume::Sender<T>)
        requires
            old(self).wf(),
            old(self).names().len() < usize::MAX,
        ensures
            final(self).wf(),
            final(self).names() == names_after_create(old(self).names(), id@),
            final(self).runs() == old(self).runs(),
            final(self).reports() == old(self).reports(),
            forall|q: int| #[trigger] final(self).taken(q) == old(self).taken(q),
    {
        let i = self.get_or_create(id);
        self.sender_at(i)
    }

    /// A sender to the queue named `id`, if there is one; never creates it.
    pub fn existing_sender(&self, id: &String) -> (r: Option<flume::Sender<T>>)
        requires
            self.wf(),
        ensures
            r.is_some() <==> self.names().contains(id@),
    {
        match self.find(id) {
            Some(i) => Some(self.sender_at(i)),
            None => None,
        }
    }

    /// Begins a drain of queue `q`: how many tasks it holds now.
    pub fn count_pending(&mut self, q: Option<usize>) -> (n: usize)
        requires
            old(self).wf(),
            old(self).has_queue(q),
        ensures
            final(self).wf(),
            others_kept(*old(self), *final(self), key(q)),
            final(self).taken(key(q)) == old(self).taken(key(q)),
            final(self).counts(key(q)) == n,
            !final(self).emptied(key(q)),
            final(self).epoch(key(q)) == old(self).epoch(key(q)) + 1,
            final(self).runs() == old(self).runs(),
            final(self).reports() == old(self).reports(),
            final(self).events() == old(self).events(),
    {
        let n = match q {
            None => pending(&self.default_rx),
            Some(i) => pending(&self.receivers[i]),
        };
        let ghost k = key(q);
        self.counts = Ghost(self.counts@.insert(k, n as nat));
        self.emptied = Ghost(self.emptied@.insert(k, false));
        self.epochs = Ghost(self.epochs@.insert(k, self.epochs@[k] + 1));
        n
    }

    /// The oldest task of queue `q`, if it holds one, without waiting.
    pub fn pop(&mut self, q: Option<usize>) -> (r: Option<T>)
        requires
            old(self).wf(),
            old(self).has_queue(q),
        ensures
            final(self).wf(),
            others_kept(*old(self), *final(self), key(q)),
            final(self).counts(key(q)) == old(self).counts(key(q)),
            final(self).epoch(key(q)) == old(self).epoch(key(q)),
            final(self).runs() == old(self).runs(),
            final(self).reports() == old(self).reports(),
            final(self).events() == old(self).events(),
            match r {
                Some(t) => {
                    &&& final(self).taken(key(q)) == old(self).taken(key(q)).push(t)
                    &&& final(self).emptied(key(q)) == old(self).emptied(key(q))
                },
                None => {
                    &&& final(self).taken(key(q)) == old(self).taken(key(q))
                    &&& final(self).emptied(key(q))
                },
            },
    {
        let r = match q {
            None => try_pop(&self.default_rx),
            Some(i) => try_pop(&self.receivers[i]),
        };
        let ghost k = key(q);
        match &r {
            Some(t) => {
                self.taken = Ghost(self.taken@.insert(k, self.taken@[k].push(*t)));
            },
            None => {
                self.emptied = Ghost(self.emptied@.insert(k, true));
            },
        }
        r
    }

    /// Records that task `t` ran and returned `out`.
    pub(crate) fn note_run(&mut self, Ghost(t): Ghost<T>, Ghost(out): Ghost<Result<(), String>>)
        requires
            old(self).wf(),
        ensures
            final(self).wf(),
            queues_kept(*old(self), *final(self)),
            final(self).runs() == old(self).runs().push((t, out)),
            final(self).reports() == old(self).reports(),
            final(self).events() == old(self).events().push(DrainEvent::Ran(t, out)),
    {
        self.runs = Ghost(self.runs@.push((t, out)));
        self.events = Ghost(self.events@.push(DrainEvent::Ran(t, out)));
    }

    /// Records that `m` went to the error sink.
    pub(crate) fn note_report(&mut self, Ghost(m): Ghost<String>)
        requires
            old(self).wf(),
        ensures
            final(self).wf(),
            queues_kept(*old(self), *final(self)),
            final(self).runs() == old(self).runs(),
            final(self).reports() == old(self).reports().push(m),
            final(self).events() == old(self).events().push(DrainEvent::Reported(m)),
    {
        self.reports = Ghost(self.reports@.push(m));
        self.events = Ghost(self.events@.push(DrainEvent::Reported(m)));
    }
}

/// Looking a queue up by id creates it at most once: a second
/// `get_or_create` with the same id finds the queue the first one gave and
/// adds nothing, and ids stay distinct.
pub proof fn lemma_lazy_creation_singular(names: Seq<Seq<char>>, id: Seq<char>, i: int, j: int)
    requires
        distinct(names),
        0 <= i < names_after_create(names, id).len(),
        names_after_create(names, id)[i] == id,
        0 <= j < names_after_create(names_after_create(names, id), id).len(),
        names_after_create(names_after_create(names, id), id)[j] == id,
    ensures
        names_after_create(names_after_create(names, id), id) == names_after_create(names, id),
        distinct(names_after_create(names, id)),
        i == j,
{
    let once = names_after_create(names, id);
    if !names.contains(id) {
        assert(once[names.len() as int] == id);
        assert(once.contains(id));
    }
}

} // verus!
