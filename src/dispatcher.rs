use vstd::prelude::*;

use crate::batcher::{
    enqueued, fresh, is_stop, lemma_stop_drains_all, replay, BatcherModel, Command, Wakeup,
};

verus! {

/// A notification from the upstream watch stream.
#[derive(Debug, PartialEq, Eq)]
pub enum ChangeEvent<R> {
    Added(R),
    Modified(R),
    Deleted(R),
    /// The resource was seen again on a resynchronisation of the stream.
    Resynced(R),
    /// A resume marker; it carries a position, not a resource.
    Bookmark(String),
    /// A transient error of the stream, which goes on after it.
    Error(String),
}

/// The resource an event is about, if it carries one.
pub open spec fn resource_of<R>(e: ChangeEvent<R>) -> Option<R> {
    match e {
        ChangeEvent::Added(r) => Some(r),
        ChangeEvent::Modified(r) => Some(r),
        ChangeEvent::Deleted(r) => Some(r),
        ChangeEvent::Resynced(r) => Some(r),
        _ => None,
    }
}

/// The command that an event gives: an `Enqueue` of its resource, or none.
pub open spec fn command_spec<R>(e: ChangeEvent<R>) -> Option<Command<R>> {
    match resource_of(e) {
        Some(r) => Some(Command::Enqueue(r)),
        None => None,
    }
}

/// The commands that a sequence of events gives, in order.
pub open spec fn commands_of<R>(es: Seq<ChangeEvent<R>>) -> Seq<Command<R>>
    decreases es.len(),
{
    if es.len() == 0 {
        Seq::empty()
    } else {
        match command_spec(es.last()) {
            Some(c) => commands_of(es.drop_last()).push(c),
            None => commands_of(es.drop_last()),
        }
    }
}

/// Interprets one event: additions, modifications, deletions and resyncs all
/// enqueue their resource; bookmarks and errors give no command.
pub fn command_for<R>(event: ChangeEvent<R>) -> (c: Option<Command<R>>)
    ensures
        c == command_spec(event),
{
    match event {
        ChangeEvent::Added(r) => Some(Command::Enqueue(r)),
        ChangeEvent::Modified(r) => Some(Command::Enqueue(r)),
        ChangeEvent::Deleted(r) => Some(Command::Enqueue(r)),
        ChangeEvent::Resynced(r) => Some(Command::Enqueue(r)),
        ChangeEvent::Bookmark(_) => None,
        ChangeEvent::Error(_) => None,
    }
}

/// Bridges the event stream into commands, and sends `Close` once it has ended.
pub struct Dispatcher {
    closed: bool,
}

impl Dispatcher {
    pub closed spec fn is_closed_spec(&self) -> bool {
        self.closed
    }

    /// A dispatcher whose stream has not ended.
    pub fn new() -> (d: Self)
        ensures
            !d.is_closed_spec(),
    {
        Dispatcher { closed: false }
    }

    /// Whether `Close` was already given out.
    pub fn is_closed(&self) -> (r: bool)
        ensures
            r == self.is_closed_spec(),
    {
        self.closed
    }

    /// The command to send for one event of a stream that is still open.
    pub fn configure<R>(&self, event: ChangeEvent<R>) -> (c: Option<Command<R>>)
        requires
            !self.is_closed_spec(),
        ensures
            c == command_spec(event),
    {
        command_for(event)
    }

    /// The stream has ended: the one `Close` to send. After it, nothing more
    /// is dispatched.
    pub fn finish<R>(&mut self) -> (c: Command<R>)
        requires
            !old(self).is_closed_spec(),
        ensures
            final(self).is_closed_spec(),
            c == Command::<R>::Close,
    {
        self.closed = true;
        Command::Close
    }
}

/// Dispatches a whole finite stream: the commands of its events in order,
/// then `Close`.
pub fn dispatch_all<R>(events: Vec<ChangeEvent<R>>) -> (cs: Vec<Command<R>>)
    ensures
        cs@ == commands_of(events@).push(Command::Close),
{
    let ghost es = events@;
    let mut dispatcher = Dispatcher::new();
    let mut rest = events;
    let mut cs: Vec<Command<R>> = Vec::new();
    while rest.len() > 0
        invariant
            rest@.len() <= es.len(),
            rest@ == es.subrange(es.len() - rest@.len(), es.len() as int),
            cs@ == commands_of(es.take(es.len() - rest@.len())),
            !dispatcher.is_closed_spec(),
        decreases rest@.len(),
    {
        let ghost k = es.len() - rest@.len();
        let e = rest.remove(0);
        assert(es.take(k + 1).drop_last() =~= es.take(k));
        assert(es.take(k + 1).last() == es[k]);
        assert(rest@ =~= es.subrange(es.len() - rest@.len(), es.len() as int));
        if let Some(c) = dispatcher.configure(e) {
            cs.push(c);
        }
    }
    assert(es.take(es.len() as int) =~= es);
    cs.push(dispatcher.finish());
    cs
}

/// Bookmarks and errors never give a command; every other event gives exactly
/// one `Enqueue` of its own resource.
pub proof fn lemma_event_filtering<R>(e: ChangeEvent<R>)
    ensures
        (e is Bookmark || e is Error) ==> command_spec(e) == Option::<Command<R>>::None,
        !(e is Bookmark || e is Error) ==> command_spec(e) == Some(Command::Enqueue(resource_of(e)->0)),
        !(e is Bookmark || e is Error) ==> resource_of(e) is Some,
{
}

/// Events alone never give `Close`.
pub proof fn lemma_events_never_close<R>(es: Seq<ChangeEvent<R>>)
    ensures
        forall|i: int| 0 <= i < commands_of(es).len() ==> #[trigger] commands_of(es)[i] is Enqueue,
    decreases es.len(),
{
    if es.len() > 0 {
        lemma_events_never_close(es.drop_last());
        let prev = commands_of(es.drop_last());
        if let Some(c) = command_spec(es.last()) {
            assert(forall|i: int| 0 <= i < prev.len() ==> prev.push(c)[i] == prev[i]);
        }
    }
}

/// Over a whole run, exactly one `Close` is sent, and it is the last command.
pub proof fn lemma_single_close<R>(es: Seq<ChangeEvent<R>>)
    ensures
        ({
            let cs = commands_of(es).push(Command::Close);
            &&& cs.last() == Command::<R>::Close
            &&& forall|i: int| 0 <= i < cs.len() - 1 ==> #[trigger] cs[i] is Enqueue
        }),
{
    lemma_events_never_close(es);
    let cs = commands_of(es).push(Command::<R>::Close);
    assert(forall|i: int| 0 <= i < cs.len() - 1 ==> cs[i] == commands_of(es)[i]);
}

/// The resources that a sequence of events carries, in order.
pub open spec fn resources_of<R>(es: Seq<ChangeEvent<R>>) -> Seq<R>
    decreases es.len(),
{
    if es.len() == 0 {
        Seq::empty()
    } else {
        match resource_of(es.last()) {
            Some(r) => resources_of(es.drop_last()).push(r),
            None => resources_of(es.drop_last()),
        }
    }
}

/// The wake-ups of a batcher that receives these commands, with no tick between.
pub open spec fn received<R>(cs: Seq<Command<R>>) -> Seq<Wakeup<R>> {
    cs.map_values(|c: Command<R>| Wakeup::Received(c))
}

proof fn lemma_received_events<R>(es: Seq<ChangeEvent<R>>)
    ensures
        enqueued(received(commands_of(es))) == resources_of(es),
        forall|i: int| 0 <= i < received(commands_of(es)).len() ==> !is_stop(#[trigger] received(commands_of(es))[i]),
    decreases es.len(),
{
    lemma_events_never_close(es);
    if es.len() > 0 {
        lemma_received_events(es.drop_last());
        let prev = commands_of(es.drop_last());
        if let Some(c) = command_spec(es.last()) {
            assert(received(prev.push(c)).drop_last() =~= received(prev));
        }
    } else {
        assert(received(commands_of(es)) =~= Seq::<Wakeup<R>>::empty());
    }
}

/// A whole stream dispatched into a fresh batcher, with no tick on the way:
/// the batcher terminates on the one `Close`, and its flushes carry exactly
/// the resources of the events, in order.
pub proof fn lemma_pipeline_delivers<R>(es: Seq<ChangeEvent<R>>)
    ensures
        ({
            let run = replay(fresh::<R>(), received(commands_of(es).push(Command::Close)));
            &&& run.0 == (BatcherModel { pending: Seq::<R>::empty(), finished: true })
            &&& run.1.flatten() == resources_of(es)
        }),
{
    lemma_received_events(es);
    let ws = received(commands_of(es).push(Command::Close));
    assert(ws.drop_last() =~= received(commands_of(es)));
    assert(forall|i: int| 0 <= i < ws.len() - 1 ==> ws[i] == ws.drop_last()[i]);
    lemma_stop_drains_all(fresh::<R>(), ws);
}

} // verus!
