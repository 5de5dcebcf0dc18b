use vstd::prelude::*;

verus! {

/// A message crossing from the event side into the batching side.
#[derive(Debug, PartialEq, Eq)]
pub enum Command<R> {
    /// This resource is part of the next configuration snapshot.
    Enqueue(R),
    /// The upstream stream has ended: drain and stop.
    Close,
}

/// What woke the batcher's main loop.
#[derive(Debug, PartialEq, Eq)]
pub enum Wakeup<R> {
    /// The flush timer fired.
    Tick,
    /// A command arrived on the inbound channel.
    Received(Command<R>),
    /// The inbound channel is closed for good and no `Close` came.
    Disconnected,
}

/// What the main loop must do after one wake-up.
#[derive(Debug, PartialEq, Eq)]
pub enum Action<R> {
    /// Nothing to do: wait for the next wake-up.
    Wait,
    /// Apply configuration for this batch, then keep running.
    Flush(Vec<R>),
    /// Stop: nothing was left to apply.
    Finish,
    /// Apply configuration for this last batch, then stop.
    FlushAndFinish(Vec<R>),
}

impl<R> Action<R> {
    /// The batch handed to the downstream apply step, if any.
    pub open spec fn batch(&self) -> Option<Seq<R>> {
        match self {
            Action::Flush(b) => Some(b@),
            Action::FlushAndFinish(b) => Some(b@),
            _ => None,
        }
    }

    /// Whether the loop stops after this action.
    pub open spec fn finishes(&self) -> bool {
        match self {
            Action::Finish => true,
            Action::FlushAndFinish(_) => true,
            _ => false,
        }
    }
}

/// Abstract state of a batcher: the pending batch in enqueue order, and
/// whether the loop has terminated.
pub struct BatcherModel<R> {
    pub pending: Seq<R>,
    pub finished: bool,
}

/// A running batcher with nothing pending.
pub open spec fn fresh<R>() -> BatcherModel<R> {
    BatcherModel { pending: Seq::empty(), finished: false }
}

/// Whether a wake-up ends the main loop.
pub open spec fn is_stop<R>(w: Wakeup<R>) -> bool {
    match w {
        Wakeup::Received(Command::Close) => true,
        Wakeup::Disconnected => true,
        _ => false,
    }
}

/// A flush happens only for a non-empty pending batch, and carries all of it.
pub open spec fn flush_of<R>(pending: Seq<R>) -> Option<Seq<R>> {
    if pending.len() == 0 {
        None
    } else {
        Some(pending)
    }
}

/// One transition of the batcher: the next state and the batch flushed, if any.
/// A terminated batcher ignores everything.
pub open spec fn step_spec<R>(m: BatcherModel<R>, w: Wakeup<R>) -> (BatcherModel<R>, Option<Seq<R>>) {
    if m.finished {
        (m, None)
    } else {
        match w {
            Wakeup::Tick => (BatcherModel { pending: Seq::empty(), finished: false }, flush_of(m.pending)),
            Wakeup::Received(Command::Enqueue(r)) => (
                BatcherModel { pending: m.pending.push(r), finished: false },
                None,
            ),
            _ => (BatcherModel { pending: Seq::empty(), finished: true }, flush_of(m.pending)),
        }
    }
}

/// The state after a sequence of wake-ups, and every batch flushed on the way, in order.
pub open spec fn replay<R>(m: BatcherModel<R>, ws: Seq<Wakeup<R>>) -> (BatcherModel<R>, Seq<Seq<R>>)
    decreases ws.len(),
{
    if ws.len() == 0 {
        (m, Seq::empty())
    } else {
        let before = replay(m, ws.drop_last());
        let after = step_spec(before.0, ws.last());
        match after.1 {
            Some(b) => (after.0, before.1.push(b)),
            None => (after.0, before.1),
        }
    }
}

/// The contents of a list of batches.
pub open spec fn batches_view<R>(bs: Seq<Vec<R>>) -> Seq<Seq<R>> {
    bs.map_values(|b: Vec<R>| b@)
}

/// Owns the pending batch and decides when it is flushed.
pub struct Batcher<R> {
    services: Vec<R>,
    finished: bool,
}

impl<R> View for Batcher<R> {
    type V = BatcherModel<R>;

    closed spec fn view(&self) -> BatcherModel<R> {
        BatcherModel { pending: self.services@, finished: self.finished }
    }
}

impl<R> Batcher<R> {
    /// A running batcher with an empty pending batch.
    pub fn new() -> (b: Self)
        ensures
            b@ == fresh::<R>(),
    {
        Batcher { services: Vec::new(), finished: false }
    }

    /// Appends a resource to the pending batch.
    pub fn push_service(&mut self, service: R)
        ensures
            final(self)@.pending == old(self)@.pending.push(service),
            final(self)@.finished == old(self)@.finished,
    {
        self.services.push(service);
    }

    /// Whether a flush has anything to carry.
    pub fn should_flush(&self) -> (r: bool)
        ensures
            r == (self@.pending.len() > 0),
    {
        !self.services.is_empty()
    }

    /// Whether the main loop has terminated.
    pub fn is_finished(&self) -> (r: bool)
        ensures
            r == self@.finished,
    {
        self.finished
    }

    /// Hands the whole pending batch out, in enqueue order, and clears it.
    fn flush(&mut self) -> (batch: Vec<R>)
        ensures
            batch@ == old(self)@.pending,
            final(self)@.pending == Seq::<R>::empty(),
            final(self)@.finished == old(self)@.finished,
    {
        let mut batch: Vec<R> = Vec::new();
        std::mem::swap(&mut batch, &mut self.services);
        batch
    }

    /// Reacts to one wake-up of the main loop.
    pub fn step(&mut self, wakeup: Wakeup<R>) -> (a: Action<R>)
        requires
            !old(self)@.finished,
        ensures
            final(self)@ == step_spec(old(self)@, wakeup).0,
            a.batch() == step_spec(old(self)@, wakeup).1,
            a.finishes() == final(self)@.finished,
    {
        match wakeup {
            Wakeup::Tick => {
                if self.should_flush() {
                    Action::Flush(self.flush())
                } else {
                    assert(self.services@ =~= Seq::<R>::empty());
                    Action::Wait
                }
            },
            Wakeup::Received(Command::Enqueue(service)) => {
                self.push_service(service);
                Action::Wait
            },
            _ => {
                self.finished = true;
                if self.should_flush() {
                    Action::FlushAndFinish(self.flush())
                } else {
                    assert(self.services@ =~= Seq::<R>::empty());
                    Action::Finish
                }
            },
        }
    }

    /// Runs the main loop over a finite sequence of wake-ups and returns the
    /// batches flushed, in order. Wake-ups after termination are not looked at.
    pub fn run(&mut self, wakeups: Vec<Wakeup<R>>) -> (flushes: Vec<Vec<R>>)
        ensures
            final(self)@ == replay(old(self)@, wakeups@).0,
            batches_view(flushes@) == replay(old(self)@, wakeups@).1,
    {
        let ghost start = self@;
        let ghost ws = wakeups@;
        let mut rest = wakeups;
        let mut flushes: Vec<Vec<R>> = Vec::new();
        while rest.len() > 0 && !self.is_finished()
            invariant
                rest@.len() <= ws.len(),
                rest@ == ws.subrange(ws.len() - rest@.len(), ws.len() as int),
                self@ == replay(start, ws.take(ws.len() - rest@.len())).0,
                batches_view(flushes@) == replay(start, ws.take(ws.len() - rest@.len())).1,
            decreases rest@.len(),
        {
            let ghost k = ws.len() - rest@.len();
            let w = rest.remove(0);
            assert(ws.take(k + 1).drop_last() =~= ws.take(k));
            assert(ws.take(k + 1).last() == ws[k]);
            assert(rest@ =~= ws.subrange(ws.len() - rest@.len(), ws.len() as int));
            match self.step(w) {
                Action::Flush(b) => {
                    flushes.push(b);
                },
                Action::FlushAndFinish(b) => {
                    flushes.push(b);
                },
                _ => {},
            }
            assert(batches_view(flushes@) =~= replay(start, ws.take(k + 1)).1);
        }
        proof {
            let k = ws.len() - rest@.len();
            if rest@.len() == 0 {
                assert(ws.take(k) =~= ws);
            } else {
                lemma_finished_absorbs(start, ws, k);
            }
        }
        flushes
    }
}

/// Once a batcher has terminated, later wake-ups change nothing.
pub proof fn lemma_finished_absorbs<R>(m: BatcherModel<R>, ws: Seq<Wakeup<R>>, k: int)
    requires
        0 <= k <= ws.len(),
        replay(m, ws.take(k)).0.finished,
    ensures
        replay(m, ws) == replay(m, ws.take(k)),
    decreases ws.len(),
{
    if ws.len() == k {
        assert(ws.take(k) =~= ws);
    } else {
        assert(ws.drop_last().take(k) =~= ws.take(k));
        lemma_finished_absorbs(m, ws.drop_last(), k);
    }
}

/// One `Enqueue` wake-up per resource, in order.
pub open spec fn enqueues<R>(rs: Seq<R>) -> Seq<Wakeup<R>> {
    rs.map_values(|r: R| Wakeup::Received(Command::Enqueue(r)))
}

/// The resources carried by the `Enqueue` commands among some wake-ups, in order.
pub open spec fn enqueued<R>(ws: Seq<Wakeup<R>>) -> Seq<R>
    decreases ws.len(),
{
    if ws.len() == 0 {
        Seq::empty()
    } else {
        match ws.last() {
            Wakeup::Received(Command::Enqueue(r)) => enqueued(ws.drop_last()).push(r),
            _ => enqueued(ws.drop_last()),
        }
    }
}

/// Enqueues alone never flush: they append to the pending batch in order.
pub proof fn lemma_enqueues_accumulate<R>(m: BatcherModel<R>, rs: Seq<R>)
    requires
        !m.finished,
    ensures
        replay(m, enqueues(rs)) == (BatcherModel { pending: m.pending + rs, finished: false }, Seq::<Seq<R>>::empty()),
    decreases rs.len(),
{
    if rs.len() == 0 {
        assert(m.pending + rs =~= m.pending);
    } else {
        assert(enqueues(rs).drop_last() =~= enqueues(rs.drop_last()));
        lemma_enqueues_accumulate(m, rs.drop_last());
        assert((m.pending + rs.drop_last()).push(rs.last()) =~= m.pending + rs);
    }
}

/// Any number of enqueues followed by one tick give exactly one flush, which
/// holds all the enqueued resources in enqueue order.
pub proof fn lemma_coalescing<R>(m: BatcherModel<R>, rs: Seq<R>)
    requires
        !m.finished,
        m.pending.len() == 0,
        rs.len() > 0,
    ensures
        replay(m, enqueues(rs).push(Wakeup::Tick)).1 == seq![rs],
        replay(m, enqueues(rs).push(Wakeup::Tick)).0 == fresh::<R>(),
{
    lemma_enqueues_accumulate(m, rs);
    assert(enqueues(rs).push(Wakeup::Tick).drop_last() =~= enqueues(rs));
    assert(m.pending + rs =~= rs);
    assert(Seq::<Seq<R>>::empty().push(rs) =~= seq![rs]);
}

/// A tick with nothing pending flushes nothing and changes nothing.
pub proof fn lemma_no_spurious_flush<R>(m: BatcherModel<R>)
    requires
        m.pending.len() == 0,
    ensures
        step_spec(m, Wakeup::Tick).1 == Option::<Seq<R>>::None,
        step_spec(m, Wakeup::Tick).0 == m,
{
    assert(m.pending =~= Seq::<R>::empty());
}

/// Every batch that a run flushes is non-empty.
pub proof fn lemma_flushes_nonempty<R>(m: BatcherModel<R>, ws: Seq<Wakeup<R>>)
    ensures
        forall|i: int| 0 <= i < replay(m, ws).1.len() ==> #[trigger] replay(m, ws).1[i].len() > 0,
    decreases ws.len(),
{
    if ws.len() > 0 {
        lemma_flushes_nonempty(m, ws.drop_last());
        let prev = replay(m, ws.drop_last());
        let next = step_spec(prev.0, ws.last());
        if let Some(b) = next.1 {
            assert(b.len() > 0);
            assert(forall|i: int| 0 <= i < prev.1.len() ==> prev.1.push(b)[i] == prev.1[i]);
        }
    }
}

/// Enqueues followed by `Close`, with no tick between, give exactly one flush
/// holding all of them, then termination.
pub proof fn lemma_shutdown_drains<R>(m: BatcherModel<R>, rs: Seq<R>)
    requires
        !m.finished,
        m.pending.len() == 0,
        rs.len() > 0,
    ensures
        replay(m, enqueues(rs).push(Wakeup::Received(Command::Close))).1 == seq![rs],
        replay(m, enqueues(rs).push(Wakeup::Received(Command::Close))).0
            == (BatcherModel { pending: Seq::<R>::empty(), finished: true }),
{
    lemma_enqueues_accumulate(m, rs);
    assert(enqueues(rs).push(Wakeup::Received(Command::Close)).drop_last() =~= enqueues(rs));
    assert(m.pending + rs =~= rs);
    assert(Seq::<Seq<R>>::empty().push(rs) =~= seq![rs]);
}

/// `Close` with nothing pending flushes nothing and terminates.
pub proof fn lemma_close_without_pending<R>(m: BatcherModel<R>)
    requires
        !m.finished,
        m.pending.len() == 0,
    ensures
        replay(m, seq![Wakeup::Received(Command::Close)]).1 == Seq::<Seq<R>>::empty(),
        replay(m, seq![Wakeup::Received(Command::Close)]).0.finished,
{
    assert(seq![Wakeup::<R>::Received(Command::Close)].drop_last() =~= Seq::<Wakeup<R>>::empty());
    assert(replay(m, Seq::<Wakeup<R>>::empty()) == (m, Seq::<Seq<R>>::empty()));
}

/// Ticks between enqueues cut the stream of resources into consecutive batches.
pub proof fn lemma_ordering<R>(a: R, b: R, c: R)
    ensures
        replay(
            fresh::<R>(),
            seq![
                Wakeup::Received(Command::Enqueue(a)),
                Wakeup::Tick,
                Wakeup::Received(Command::Enqueue(b)),
                Wakeup::Received(Command::Enqueue(c)),
                Wakeup::Tick,
            ],
        ).1 == seq![seq![a], seq![b, c]],
{
    let ws = seq![
        Wakeup::Received(Command::Enqueue(a)),
        Wakeup::Tick,
        Wakeup::Received(Command::Enqueue(b)),
        Wakeup::Received(Command::Enqueue(c)),
        Wakeup::Tick,
    ];
    let f = fresh::<R>();
    assert(ws.take(0) =~= Seq::<Wakeup<R>>::empty());
    assert(replay(f, ws.take(0)) == (f, Seq::<Seq<R>>::empty()));
    assert(ws.take(1).drop_last() =~= ws.take(0));
    assert(replay(f, ws.take(1)).0.pending =~= seq![a]);
    assert(replay(f, ws.take(1)).1 =~= Seq::<Seq<R>>::empty());
    assert(ws.take(2).drop_last() =~= ws.take(1));
    assert(replay(f, ws.take(2)).0.pending =~= Seq::<R>::empty());
    assert(replay(f, ws.take(2)).1 =~= seq![seq![a]]);
    assert(ws.take(3).drop_last() =~= ws.take(2));
    assert(replay(f, ws.take(3)).0.pending =~= seq![b]);
    assert(ws.take(4).drop_last() =~= ws.take(3));
    assert(replay(f, ws.take(4)).0.pending =~= seq![b, c]);
    assert(replay(f, ws.take(4)).1 =~= seq![seq![a]]);
    assert(ws.drop_last() =~= ws.take(4));
    assert(replay(fresh::<R>(), ws).1 =~= seq![seq![a], seq![b, c]]);
}

/// Without a stop, nothing is lost, duplicated or reordered: the flushed
/// batches, followed by what is still pending, are exactly the enqueued
/// resources in order, and the batcher keeps running.
pub proof fn lemma_nothing_lost<R>(m: BatcherModel<R>, ws: Seq<Wakeup<R>>)
    requires
        !m.finished,
        forall|i: int| 0 <= i < ws.len() ==> !is_stop(#[trigger] ws[i]),
    ensures
        !replay(m, ws).0.finished,
        replay(m, ws).1.flatten() + replay(m, ws).0.pending == m.pending + enqueued(ws),
    decreases ws.len(),
{
    broadcast use Seq::lemma_flatten_push;

    if ws.len() == 0 {
        assert(Seq::<Seq<R>>::empty().flatten() =~= Seq::<R>::empty());
        assert(Seq::<R>::empty() + m.pending =~= m.pending);
        assert(m.pending + Seq::<R>::empty() =~= m.pending);
    } else {
        let prev = replay(m, ws.drop_last());
        assert(forall|i: int| 0 <= i < ws.drop_last().len() ==> ws.drop_last()[i] == ws[i]);
        lemma_nothing_lost(m, ws.drop_last());
        assert(!is_stop(ws[ws.len() - 1]));
        let f = prev.1.flatten();
        let e = enqueued(ws.drop_last());
        match ws.last() {
            Wakeup::Received(Command::Enqueue(r)) => {
                assert(f + prev.0.pending.push(r) =~= (f + prev.0.pending).push(r));
                assert((m.pending + e).push(r) =~= m.pending + e.push(r));
            },
            _ => {
                if prev.0.pending.len() == 0 {
                    assert(f + prev.0.pending =~= f);
                }
                assert(f + prev.0.pending + Seq::<R>::empty() =~= f + prev.0.pending);
            },
        }
    }
}

/// The first stop drains whatever is pending and terminates: the flushed
/// batches are then exactly the resources enqueued before it, in order.
pub proof fn lemma_stop_drains_all<R>(m: BatcherModel<R>, ws: Seq<Wakeup<R>>)
    requires
        !m.finished,
        m.pending.len() == 0,
        ws.len() > 0,
        is_stop(ws.last()),
        forall|i: int| 0 <= i < ws.len() - 1 ==> !is_stop(#[trigger] ws[i]),
    ensures
        replay(m, ws).0 == (BatcherModel { pending: Seq::<R>::empty(), finished: true }),
        replay(m, ws).1.flatten() == enqueued(ws.drop_last()),
{
    broadcast use Seq::lemma_flatten_push;

    let pre = ws.drop_last();
    assert(forall|i: int| 0 <= i < pre.len() ==> pre[i] == ws[i]);
    lemma_nothing_lost(m, pre);
    let prev = replay(m, pre);
    assert(m.pending + enqueued(pre) =~= enqueued(pre));
    if prev.0.pending.len() == 0 {
        assert(prev.1.flatten() + prev.0.pending =~= prev.1.flatten());
    }
    match ws.last() {
        Wakeup::Received(Command::Enqueue(_)) => {},
        _ => {},
    }
}

/// The first stop is the last wake-up processed: the batcher runs until it,
/// terminates on it, and later wake-ups (a second `Close` among them) have no effect.
pub proof fn lemma_close_is_terminal<R>(m: BatcherModel<R>, ws: Seq<Wakeup<R>>, i: int)
    requires
        !m.finished,
        0 <= i < ws.len(),
        is_stop(ws[i]),
        forall|j: int| 0 <= j < i ==> !is_stop(#[trigger] ws[j]),
    ensures
        forall|j: int| 0 <= j <= i ==> !(#[trigger] replay(m, ws.take(j))).0.finished,
        replay(m, ws.take(i + 1)).0.finished,
        replay(m, ws) == replay(m, ws.take(i + 1)),
{
    assert forall|j: int| 0 <= j <= i implies !(#[trigger] replay(m, ws.take(j))).0.finished by {
        let pre = ws.take(j);
        assert(forall|k: int| 0 <= k < pre.len() ==> pre[k] == ws[k]);
        lemma_nothing_lost(m, pre);
    }
    assert(ws.take(i + 1).drop_last() =~= ws.take(i));
    assert(ws.take(i + 1).last() == ws[i]);
    lemma_finished_absorbs(m, ws, i + 1);
}

} // verus!
