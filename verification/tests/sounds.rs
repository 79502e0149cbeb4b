use puck::audio::load::{channels_supported, load_ogg};
use puck::audio::source::{CombinedSource, SoundSourceLoan, Sources};

#[test]
fn one_and_two_channels_are_supported() {
    assert!(channels_supported(0));
    assert!(channels_supported(1));
    assert!(channels_supported(2));
    assert!(!channels_supported(3));
    assert!(!channels_supported(255));
}

#[test]
fn a_sound_is_its_packets_on_end() {
    let sound = load_ogg(2, 44_100, &vec![vec![1, -2, 3], vec![], vec![4], vec![5, 6]]).unwrap();
    assert_eq!(sound.data, vec![1, -2, 3, 4, 5, 6]);
    assert_eq!(sound.sample_rate, 44_100);
    assert_eq!(sound.channels, 2);
}

#[test]
fn a_stream_without_packets_is_a_sound_without_samples() {
    let sound = load_ogg(1, 8000, &Vec::new()).unwrap();
    assert!(sound.data.is_empty());
    assert_eq!(sound.channels, 1);
}

#[test]
fn more_than_two_channels_are_refused() {
    assert!(load_ogg(3, 44_100, &vec![vec![1, 2, 3]]).is_none());
    assert!(load_ogg(6, 48_000, &Vec::new()).is_none());
}

#[test]
fn a_new_book_has_every_source_free() {
    let book = Sources::create(3, 2);
    assert_eq!(book.next_event, 0);
    assert_eq!(book.sources, vec![None, None, None]);
    assert_eq!(book.streaming, vec![None, None]);
    assert_eq!(book.next_free_static_idx(), Some(0));
}

#[test]
fn event_numbers_count_up_from_one() {
    let mut book = Sources::create(0, 0);
    assert_eq!(book.next_event_id(), 1);
    assert_eq!(book.next_event_id(), 2);
    assert_eq!(book.next_event, 2);
}

#[test]
fn the_first_free_source_is_lent() {
    let mut book = Sources::create(3, 1);
    book.assign_event(CombinedSource::Static(0), 77);
    let loan = book.loan_next_free_static().unwrap();
    assert_eq!(loan.source_id, 1);
    assert_eq!(loan.event_id, 1);
    assert!(!loan.streaming);
    assert_eq!(book.sources, vec![Some(77), None, None]);
}

#[test]
fn a_loan_does_not_bind_the_source() {
    let mut book = Sources::create(2, 0);
    let first = book.loan_next_free_static().unwrap();
    let second = book.loan_next_free_static().unwrap();
    assert_eq!(first.source_id, 0);
    assert_eq!(second.source_id, 0);
    assert_eq!(second.event_id, 2);
}

#[test]
fn no_free_source_still_uses_up_an_event_number() {
    let mut book = Sources::create(1, 1);
    book.assign_event(CombinedSource::Static(0), 5);
    book.assign_event(CombinedSource::Streaming(0), 6);
    assert!(book.loan_next_free_static().is_none());
    assert!(book.loan_next_free_streaming().is_none());
    assert_eq!(book.next_event, 2);
    assert_eq!(book.next_free_static_idx(), None);
}

#[test]
fn streaming_sources_are_lent_from_their_own_list() {
    let mut book = Sources::create(1, 3);
    book.assign_event(CombinedSource::Streaming(0), 9);
    book.assign_event(CombinedSource::Streaming(1), 10);
    let loan = book.loan_next_free_streaming().unwrap();
    assert_eq!(loan.source_id, 2);
    assert!(loan.streaming);
    assert_eq!(loan.event_id, 1);
}

#[test]
fn a_loan_finds_its_source_while_the_binding_lasts() {
    let mut book = Sources::create(2, 2);
    let loan = book.loan_next_free_static().unwrap();
    assert_eq!(book.for_loan(loan), None);
    book.assign_event(CombinedSource::Static(loan.source_id), loan.event_id);
    assert_eq!(book.for_loan(loan), Some(CombinedSource::Static(0)));
    book.assign_event(CombinedSource::Static(loan.source_id), loan.event_id + 1);
    assert_eq!(book.for_loan(loan), None);
}

#[test]
fn a_streaming_loan_is_looked_up_among_the_streaming_sources() {
    let mut book = Sources::create(2, 2);
    book.assign_event(CombinedSource::Static(1), 4);
    book.assign_event(CombinedSource::Streaming(1), 5);
    assert_eq!(
        book.for_loan(SoundSourceLoan { source_id: 1, event_id: 4, streaming: true }),
        None
    );
    assert_eq!(
        book.for_loan(SoundSourceLoan { source_id: 1, event_id: 5, streaming: true }),
        Some(CombinedSource::Streaming(1))
    );
    assert_eq!(
        book.for_loan(SoundSourceLoan { source_id: 1, event_id: 4, streaming: false }),
        Some(CombinedSource::Static(1))
    );
}

#[test]
fn clean_lets_one_source_go() {
    let mut book = Sources::create(2, 1);
    book.assign_event(CombinedSource::Static(0), 1);
    book.assign_event(CombinedSource::Static(1), 2);
    book.assign_event(CombinedSource::Streaming(0), 3);
    book.clean(CombinedSource::Static(0));
    assert_eq!(book.sources, vec![None, Some(2)]);
    assert_eq!(book.streaming, vec![Some(3)]);
    book.clean(CombinedSource::Streaming(0));
    assert_eq!(book.streaming, vec![None]);
}

#[test]
fn purge_lets_every_source_go() {
    let mut book = Sources::create(2, 2);
    book.assign_event(CombinedSource::Static(1), 2);
    book.assign_event(CombinedSource::Streaming(0), 3);
    book.next_event_id();
    book.purge();
    assert_eq!(book.sources, vec![None, None]);
    assert_eq!(book.streaming, vec![None, None]);
    assert_eq!(book.next_event, 1);
}

#[test]
fn stopped_sources_are_let_go_and_the_free_ones_counted() {
    let mut book = Sources::create(4, 3);
    book.assign_event(CombinedSource::Static(0), 1);
    book.assign_event(CombinedSource::Static(1), 2);
    book.assign_event(CombinedSource::Static(3), 3);
    book.assign_event(CombinedSource::Streaming(0), 4);
    book.assign_event(CombinedSource::Streaming(2), 5);
    let available = book.check_bindings(&vec![true, false, true, false], &vec![false, true, true]);
    assert_eq!(available, (2, 2));
    assert_eq!(book.sources, vec![None, Some(2), None, Some(3)]);
    assert_eq!(book.streaming, vec![Some(4), None, None]);
}

#[test]
fn a_book_without_sources_has_none_available() {
    let mut book = Sources::create(0, 0);
    assert_eq!(book.check_bindings(&Vec::new(), &Vec::new()), (0, 0));
}
