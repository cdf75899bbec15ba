use flip_flop::reconcile::{select_reply, ClientState, EventLog, Selection, MAX_EVENTS};
use flip_flop::protocol::{decode_reply, decode_request, encode_reply, encode_request};
use flip_flop::{event_reply, EventOf, EventReply, NoEE};

#[derive(Clone, Copy, Debug, PartialEq)]
enum Event {
    A,
    B,
}

#[derive(Clone, Copy, Debug, PartialEq)]
enum Command {
    Go,
}

#[test]
fn event_reply_with_an_event() {
    let reply = event_reply(Some((EventOf::<_, NoEE>::Logged(Event::B, 9), 0)), |_| 10);
    assert_eq!(
        reply,
        EventReply {
            delta_ticks: 10,
            event: Some(EventOf::Logged(Event::B, 9)),
        }
    );
}

#[test]
fn event_reply_without_an_event() {
    let reply: EventReply<EventOf<Event, NoEE>> = event_reply(None, |_: i32| 10);
    assert_eq!(
        reply,
        EventReply {
            delta_ticks: 0,
            event: None,
        }
    );
}

fn log_5_6_7() -> EventLog<Event> {
    let mut log = EventLog::new(MAX_EVENTS, 5);
    log.append(Event::A, 100);
    log.append(Event::B, 110);
    log.append(Event::A, 120);
    log
}

#[test]
fn server_replies_follow_the_offsets() {
    let log = log_5_6_7();
    assert_eq!(log.select(5), Selection::Entry(1));
    assert_eq!(log.select(6), Selection::Entry(2));
    assert_eq!(log.select(7), Selection::Nothing);
    assert_eq!(log.select(100), Selection::Recovery(5, 7));

    let r: EventReply<EventOf<Event, NoEE>> = log.reply(5, 130);
    assert_eq!(r.event, Some(EventOf::Logged(Event::B, 6)));
    assert_eq!(r.delta_ticks, 20);
    let r: EventReply<EventOf<Event, NoEE>> = log.reply(6, 130);
    assert_eq!(r.event, Some(EventOf::Logged(Event::A, 7)));
    assert_eq!(r.delta_ticks, 10);
    let r: EventReply<EventOf<Event, NoEE>> = log.reply(7, 130);
    assert_eq!(r, EventReply { delta_ticks: 0, event: None });
    let r: EventReply<EventOf<Event, NoEE>> = log.reply(100, 130);
    assert_eq!(r.event, Some(EventOf::Recovery(5, 7)));
}

#[test]
fn full_log_drops_the_oldest() {
    let mut log = EventLog::new(3, 10);
    for t in 0..5u64 {
        log.append(Event::A, t);
    }
    // Offsets 12, 13, 14 remain; 10 and 11 were dropped.
    assert_eq!(log.len(), 3);
    assert_eq!(log.get(0).1, 12);
    assert_eq!(log.select(11), Selection::Recovery(12, 14));
    assert_eq!(log.select(12), Selection::Entry(1));
}

#[test]
fn window_that_wraps() {
    let mut log = EventLog::new(4, u32::MAX - 1);
    for t in 0..4u64 {
        log.append(Event::A, t);
    }
    // Offsets MAX-1, MAX, 0, 1.
    assert_eq!(log.select(u32::MAX), Selection::Entry(2));
    assert_eq!(log.select(0), Selection::Entry(3));
    assert_eq!(log.select(1), Selection::Nothing);
    assert_eq!(log.select(2), Selection::Recovery(u32::MAX - 1, 1));
}

#[test]
fn empty_log_replies_nothing() {
    let mut log = log_5_6_7();
    log.reset(42);
    assert_eq!(log.len(), 0);
    assert_eq!(log.select(7), Selection::Nothing);
    log.append(Event::B, 0);
    assert_eq!(log.get(0).1, 42);
}

#[test]
fn client_follows_the_server() {
    let log = log_5_6_7();
    let mut client = ClientState::new();
    assert_eq!(client.request(Command::Go).command, None);

    // Offset 0 is outside the log: recovery to its start.
    let r: EventReply<EventOf<Event, NoEE>> = log.reply(client.last_event_offset, 200);
    client.on_event(&r.event);
    assert_eq!(client, ClientState { last_event_offset: 5, init_mode: true, event_count: 0 });

    for expected in [6u32, 7] {
        let r: EventReply<EventOf<Event, NoEE>> = log.reply(client.last_event_offset, 200);
        client.on_event(&r.event);
        assert_eq!(client.last_event_offset, expected);
    }
    assert_eq!(client.event_count, 2);
    assert!(client.init_mode);

    let r: EventReply<EventOf<Event, NoEE>> = log.reply(client.last_event_offset, 200);
    client.on_event(&r.event);
    assert!(!client.init_mode);
    assert_eq!(client.request(Command::Go).command, Some(Command::Go));
    assert_eq!(client.request(Command::Go).last_event_offset, 7);
}

#[test]
fn unexpected_offset_resets_the_client() {
    let mut client = ClientState { last_event_offset: 7, init_mode: false, event_count: 3 };
    client.on_event(&Some(EventOf::<Event, NoEE>::Logged(Event::A, 20)));
    assert_eq!(client, ClientState { last_event_offset: 20, init_mode: true, event_count: 0 });
    client.on_event(&Some(EventOf::<Event, NoEE>::Logged(Event::A, 21)));
    assert_eq!(client, ClientState { last_event_offset: 21, init_mode: true, event_count: 1 });
    client.on_event(&Some(EventOf::<Event, u8>::Ephemeral(1)));
    assert_eq!(client, ClientState { last_event_offset: 21, init_mode: true, event_count: 1 });
}

#[test]
fn server_restart_resets_once() {
    let mut log = log_5_6_7();
    let mut client = ClientState { last_event_offset: 7, init_mode: false, event_count: 2 };
    log.reset(1000);
    log.append(Event::A, 0);
    log.append(Event::B, 1);
    log.append(Event::A, 2);
    let mut resets = 0;
    for _ in 0..4 {
        let before = client;
        let r: EventReply<EventOf<Event, NoEE>> = log.reply(client.last_event_offset, 5);
        client.on_event(&r.event);
        if client.init_mode && client.event_count == 0 && before.event_count != 0 {
            resets += 1;
        }
    }
    assert_eq!(resets, 1);
    assert_eq!(client.last_event_offset, 1002);
    assert_eq!(client.event_count, 2);
    assert!(!client.init_mode);
}

#[test]
fn offsets_and_counts_wrap() {
    let mut client = ClientState { last_event_offset: u32::MAX, init_mode: false, event_count: u32::MAX };
    client.on_event(&Some(EventOf::<Event, NoEE>::Logged(Event::A, 0)));
    assert_eq!(client, ClientState { last_event_offset: 0, init_mode: false, event_count: 0 });
}

#[test]
fn stale_offset_inside_the_window_gets_the_oldest() {
    // Offsets with a gap: 6 lies inside the window but neither 6 nor 7 is
    // held, so the oldest entry is sent.
    assert_eq!(select_reply(&[5, 8, 9], 6), Selection::Entry(0));
    // The client's offset is held but the next one is not: caught up.
    assert_eq!(select_reply(&[5, 8, 10], 8), Selection::Nothing);
    // Both are held: the next one wins.
    assert_eq!(select_reply(&[5, 6, 7], 5), Selection::Entry(1));
    assert_eq!(select_reply(&[], 5), Selection::Nothing);
    assert_eq!(select_reply(&[5, 6, 7], 4), Selection::Recovery(5, 7));
}

#[test]
fn request_layout() {
    // A command whose encoding is the single byte 2, e.g. the third unit
    // variant of an enum.
    assert_eq!(encode_request(9, Some(&[2])), vec![9, 2]);
    assert_eq!(encode_request(0, None), vec![0]);
    assert_eq!(encode_request(300, None), vec![0xAC, 0x02]);
    assert_eq!(decode_request(&[9, 2]), Some((9, &[2u8][..])));
    assert_eq!(decode_request(&[0]), Some((0, &[][..])));
    assert_eq!(decode_request(&[]), None);
    assert_eq!(decode_request(&[0x80]), None);
    assert_eq!(decode_request(&[0xFF, 0xFF, 0xFF, 0xFF, 0x0F]), Some((u32::MAX, &[][..])));
    assert_eq!(decode_request(&[0xFF, 0xFF, 0xFF, 0xFF, 0x10]), None);
    assert_eq!(decode_request(&[0x80, 0x80, 0x80, 0x80, 0x80, 0x00]), None);
}

#[test]
fn reply_layout() {
    // A logged event whose encoding is [1, 9], and one whose encoding is
    // [0, 1, 9]: tag 0 for logged, variant 1, offset 9.
    assert_eq!(encode_reply(10, Some(&[1, 9])), vec![10, 1, 9]);
    assert_eq!(encode_reply(10, Some(&[0, 1, 9])), vec![10, 0, 1, 9]);
    assert_eq!(encode_reply(0, None), vec![0]);
    assert_eq!(decode_reply(&[10, 0, 1, 9]), Some((10, &[0u8, 1, 9][..])));
    assert_eq!(decode_reply(&[0]), Some((0, &[][..])));
    let max = encode_reply(u64::MAX, None);
    assert_eq!(max.len(), 10);
    assert_eq!(decode_reply(&max), Some((u64::MAX, &[][..])));
    let mut too_big = max.clone();
    too_big[9] = 2;
    assert_eq!(decode_reply(&too_big), None);
}
