use puck::event::{CombinedSink, Event, Sink};

#[test]
fn an_empty_sink_holds_nothing() {
    let sink: Sink<u8> = Sink::empty();
    assert!(sink.events.is_empty());
}

#[test]
fn a_sink_keeps_every_push_in_order() {
    let mut sink = Sink::empty();
    sink.push(3);
    sink.push(1);
    sink.push(3);
    sink.push(2);
    assert_eq!(sink.events, vec![3, 1, 3, 2]);
}

#[test]
fn push_opt_pushes_what_is_there() {
    let mut sink = Sink::empty();
    sink.push_opt(Some('a'));
    sink.push_opt(None);
    sink.push_opt(Some('b'));
    assert_eq!(sink.events, vec!['a', 'b']);
}

#[test]
fn clear_empties_a_sink() {
    let mut sink = Sink::empty();
    sink.push(1);
    sink.push(2);
    sink.clear();
    assert!(sink.events.is_empty());
    sink.push(9);
    assert_eq!(sink.events, vec![9]);
}

#[test]
fn a_combined_sink_keeps_two_orders_apart() {
    let mut sink: CombinedSink<u8, &str> = CombinedSink::empty();
    assert!(sink.mine.events.is_empty());
    assert!(sink.routed.events.is_empty());
    sink.routed.push("x");
    sink.mine.push(1);
    sink.routed.push("y");
    sink.mine.push(2);
    assert_eq!(sink.mine.events, vec![1, 2]);
    assert_eq!(sink.routed.events, vec!["x", "y"]);
}

#[test]
fn clear_empties_both_channels() {
    let mut sink: CombinedSink<u8, u8> = CombinedSink::empty();
    sink.mine.push(1);
    sink.routed.push(2);
    sink.clear();
    assert!(sink.mine.events.is_empty());
    assert!(sink.routed.events.is_empty());
}

#[test]
fn events_compare_by_kind_and_content() {
    let spawn: Event<u64, u8, u8, u8> = Event::SpawnEvent(1, 2);
    assert_eq!(spawn, Event::SpawnEvent(1, 2));
    assert_ne!(spawn, Event::SpawnEvent(1, 3));
    assert_ne!(spawn, Event::Delete(1));
    let range: Event<u64, u8, u8, u8> = Event::DeleteRange(3, 7);
    assert_eq!(range.clone(), range);
    assert!(matches!(Event::<u64, u8, u8, u8>::Shutdown, Event::Shutdown));
}
