use teleport_batcher::batcher::{Batcher, Command, Wakeup};
use teleport_batcher::dispatcher::{command_for, dispatch_all, ChangeEvent, Dispatcher};

fn s(v: &str) -> String {
    v.to_string()
}

#[test]
fn resource_events_enqueue() {
    assert_eq!(command_for(ChangeEvent::Added(s("a"))), Some(Command::Enqueue(s("a"))));
    assert_eq!(command_for(ChangeEvent::Modified(s("b"))), Some(Command::Enqueue(s("b"))));
    assert_eq!(command_for(ChangeEvent::Deleted(s("c"))), Some(Command::Enqueue(s("c"))));
    assert_eq!(command_for(ChangeEvent::Resynced(s("d"))), Some(Command::Enqueue(s("d"))));
}

#[test]
fn bookmark_and_error_are_filtered() {
    assert_eq!(command_for(ChangeEvent::<String>::Bookmark(s("rv-12"))), None);
    assert_eq!(command_for(ChangeEvent::<String>::Error(s("gone"))), None);
}

#[test]
fn dispatcher_closes_once() {
    let mut d = Dispatcher::new();
    assert!(!d.is_closed());
    assert_eq!(d.configure(ChangeEvent::Added(1u32)), Some(Command::Enqueue(1)));
    assert_eq!(d.configure(ChangeEvent::<u32>::Bookmark(s("x"))), None);
    assert_eq!(d.finish::<u32>(), Command::Close);
    assert!(d.is_closed());
}

#[test]
fn dispatch_whole_stream() {
    let events = vec![
        ChangeEvent::Added(s("a")),
        ChangeEvent::Bookmark(s("rv")),
        ChangeEvent::Error(s("oops")),
        ChangeEvent::Deleted(s("b")),
        ChangeEvent::Resynced(s("c")),
    ];
    let commands = dispatch_all(events);
    assert_eq!(
        commands,
        vec![
            Command::Enqueue(s("a")),
            Command::Enqueue(s("b")),
            Command::Enqueue(s("c")),
            Command::Close,
        ]
    );
}

#[test]
fn empty_stream_only_closes() {
    let commands = dispatch_all(Vec::<ChangeEvent<u32>>::new());
    assert_eq!(commands, vec![Command::Close]);
}

#[test]
fn pipeline_end_to_end() {
    let events = vec![
        ChangeEvent::Added(1u32),
        ChangeEvent::Error(s("e")),
        ChangeEvent::Modified(2),
        ChangeEvent::Bookmark(s("b")),
    ];
    let wakeups: Vec<Wakeup<u32>> = dispatch_all(events).into_iter().map(Wakeup::Received).collect();
    let mut b = Batcher::new();
    let flushes = b.run(wakeups);
    assert_eq!(flushes, vec![vec![1, 2]]);
    assert!(b.is_finished());
}
