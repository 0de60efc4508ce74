use quic_events::events::{CloseError, ConnectionEvent, ConnectionEvents, StreamType};

#[test]
fn empty_drain() {
    let mut events = ConnectionEvents::default();
    let drained = events.events();
    assert_eq!(drained, vec![]);
}

#[test]
fn drain_empties() {
    let mut events = ConnectionEvents::default();
    events.recv_stream_readable(1);
    events.send_stream_writable(2);
    let first = events.events();
    assert_eq!(first.len(), 2);
    let second = events.events();
    assert_eq!(second, vec![]);
}

#[test]
fn dedup_same_event_once() {
    let mut events = ConnectionEvents::default();
    events.recv_stream_readable(7);
    events.recv_stream_readable(7);
    let drained = events.events();
    assert_eq!(drained, vec![ConnectionEvent::RecvStreamReadable { stream_id: 7 }]);
}

#[test]
fn distinct_by_field() {
    let mut events = ConnectionEvents::default();
    events.recv_stream_readable(1);
    events.recv_stream_readable(2);
    let drained = events.events();
    assert_eq!(
        drained,
        vec![
            ConnectionEvent::RecvStreamReadable { stream_id: 1 },
            ConnectionEvent::RecvStreamReadable { stream_id: 2 },
        ]
    );
}

#[test]
fn deterministic_order() {
    let mut events = ConnectionEvents::default();
    events.send_stream_complete(4);
    events.new_stream(4, StreamType::UniDi);
    events.recv_stream_readable(4);
    let drained = events.events();
    assert_eq!(
        drained,
        vec![
            ConnectionEvent::NewStream { stream_id: 4, stream_type: StreamType::UniDi },
            ConnectionEvent::RecvStreamReadable { stream_id: 4 },
            ConnectionEvent::SendStreamComplete { stream_id: 4 },
        ]
    );
}

#[test]
fn order_is_independent_of_insertion_order() {
    let mut forward = ConnectionEvents::default();
    forward.new_stream(4, StreamType::BiDi);
    forward.recv_stream_readable(4);
    forward.send_stream_complete(4);
    let mut backward = ConnectionEvents::default();
    backward.send_stream_complete(4);
    backward.recv_stream_readable(4);
    backward.new_stream(4, StreamType::BiDi);
    assert_eq!(forward.events(), backward.events());
}

#[test]
fn order_by_variant_rank() {
    let mut events = ConnectionEvents::default();
    events.client_0rtt_rejected();
    events.connection_closed(CloseError::Transport(0), 0, "ok");
    events.send_stream_creatable(StreamType::UniDi);
    events.send_stream_complete(3);
    events.send_stream_stop_sending(3, 9);
    events.recv_stream_reset(3, 9);
    events.recv_stream_readable(3);
    events.send_stream_writable(3);
    events.new_stream(3, StreamType::BiDi);
    let drained = events.events();
    assert_eq!(
        drained,
        vec![
            ConnectionEvent::NewStream { stream_id: 3, stream_type: StreamType::BiDi },
            ConnectionEvent::SendStreamWritable { stream_id: 3 },
            ConnectionEvent::RecvStreamReadable { stream_id: 3 },
            ConnectionEvent::RecvStreamReset { stream_id: 3, app_error: 9 },
            ConnectionEvent::SendStreamStopSending { stream_id: 3, app_error: 9 },
            ConnectionEvent::SendStreamComplete { stream_id: 3 },
            ConnectionEvent::SendStreamCreatable { stream_type: StreamType::UniDi },
            ConnectionEvent::ConnectionClosed {
                error_code: CloseError::Transport(0),
                frame_type: 0,
                reason_phrase: String::from("ok"),
            },
            ConnectionEvent::ZeroRttRejected,
        ]
    );
}

#[test]
fn order_by_field_tuple() {
    let mut events = ConnectionEvents::default();
    events.recv_stream_reset(5, 2);
    events.recv_stream_reset(5, 1);
    events.recv_stream_reset(4, 3);
    let drained = events.events();
    assert_eq!(
        drained,
        vec![
            ConnectionEvent::RecvStreamReset { stream_id: 4, app_error: 3 },
            ConnectionEvent::RecvStreamReset { stream_id: 5, app_error: 1 },
            ConnectionEvent::RecvStreamReset { stream_id: 5, app_error: 2 },
        ]
    );
}

#[test]
fn order_of_stream_types() {
    let mut events = ConnectionEvents::default();
    events.send_stream_creatable(StreamType::BiDi);
    events.send_stream_creatable(StreamType::UniDi);
    events.new_stream(1, StreamType::BiDi);
    events.new_stream(1, StreamType::UniDi);
    let drained = events.events();
    assert_eq!(
        drained,
        vec![
            ConnectionEvent::NewStream { stream_id: 1, stream_type: StreamType::UniDi },
            ConnectionEvent::NewStream { stream_id: 1, stream_type: StreamType::BiDi },
            ConnectionEvent::SendStreamCreatable { stream_type: StreamType::UniDi },
            ConnectionEvent::SendStreamCreatable { stream_type: StreamType::BiDi },
        ]
    );
}

#[test]
fn order_of_close_errors_and_reasons() {
    let mut events = ConnectionEvents::default();
    events.connection_closed(CloseError::Application(1), 0, "a");
    events.connection_closed(CloseError::Transport(9), 0, "b");
    events.connection_closed(CloseError::Transport(9), 0, "ab");
    events.connection_closed(CloseError::Transport(9), 0, "aa");
    let drained = events.events();
    assert_eq!(
        drained,
        vec![
            ConnectionEvent::ConnectionClosed {
                error_code: CloseError::Transport(9),
                frame_type: 0,
                reason_phrase: String::from("aa"),
            },
            ConnectionEvent::ConnectionClosed {
                error_code: CloseError::Transport(9),
                frame_type: 0,
                reason_phrase: String::from("ab"),
            },
            ConnectionEvent::ConnectionClosed {
                error_code: CloseError::Transport(9),
                frame_type: 0,
                reason_phrase: String::from("b"),
            },
            ConnectionEvent::ConnectionClosed {
                error_code: CloseError::Application(1),
                frame_type: 0,
                reason_phrase: String::from("a"),
            },
        ]
    );
}

#[test]
fn reason_prefix_orders_first() {
    let mut events = ConnectionEvents::default();
    events.connection_closed(CloseError::Transport(0), 7, "abc");
    events.connection_closed(CloseError::Transport(0), 7, "ab");
    events.connection_closed(CloseError::Transport(0), 7, "");
    let drained = events.events();
    assert_eq!(
        drained,
        vec![
            ConnectionEvent::ConnectionClosed {
                error_code: CloseError::Transport(0),
                frame_type: 7,
                reason_phrase: String::new(),
            },
            ConnectionEvent::ConnectionClosed {
                error_code: CloseError::Transport(0),
                frame_type: 7,
                reason_phrase: String::from("ab"),
            },
            ConnectionEvent::ConnectionClosed {
                error_code: CloseError::Transport(0),
                frame_type: 7,
                reason_phrase: String::from("abc"),
            },
        ]
    );
}

#[test]
fn connection_closed_dedups_on_full_value() {
    let mut events = ConnectionEvents::default();
    events.connection_closed(CloseError::Application(3), 2, "done");
    events.connection_closed(CloseError::Application(3), 2, "done");
    events.connection_closed(CloseError::Application(3), 2, "gone");
    let drained = events.events();
    assert_eq!(drained.len(), 2);
}

#[test]
fn zero_rtt_supersedes() {
    let mut events = ConnectionEvents::default();
    events.recv_stream_readable(1);
    events.send_stream_writable(2);
    events.client_0rtt_rejected();
    let drained = events.events();
    assert_eq!(drained, vec![ConnectionEvent::ZeroRttRejected]);
}

#[test]
fn zero_rtt_on_empty_mailbox() {
    let mut events = ConnectionEvents::default();
    events.client_0rtt_rejected();
    let drained = events.events();
    assert_eq!(drained, vec![ConnectionEvent::ZeroRttRejected]);
}

#[test]
fn inserts_after_zero_rtt_accumulate_again() {
    let mut events = ConnectionEvents::default();
    events.recv_stream_readable(1);
    events.client_0rtt_rejected();
    events.new_stream(8, StreamType::UniDi);
    let drained = events.events();
    assert_eq!(
        drained,
        vec![
            ConnectionEvent::NewStream { stream_id: 8, stream_type: StreamType::UniDi },
            ConnectionEvent::ZeroRttRejected,
        ]
    );
}
