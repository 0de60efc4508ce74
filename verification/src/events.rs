//! The events a connection reports to its consumer, and the mailbox that
//! collects them: a deduplicating set delivered in one total order.

use vstd::prelude::*;
use crate::order::{
    event_lt, event_lt_exec, lemma_event_lt_connected, lemma_event_lt_transitive,
    lemma_sorted_events_unique, sorted_events,
};

verus! {

/// An application-defined numeric code attached to stream termination events.
pub type AppError = u64;

/// Whether a stream carries data in one direction or both.
/// Declaration order fixes the order between the two kinds.
#[derive(Debug, Clone, Copy, PartialEq, Eq, Structural)]
pub enum StreamType {
    UniDi,
    BiDi,
}

/// Why a connection closed: an error of the transport itself, or one raised
/// by the application. Declaration order fixes the order between the kinds;
/// within a kind, codes order numerically.
#[derive(Debug, Clone, Copy, PartialEq, Eq, Structural)]
pub enum CloseError {
    Transport(u64),
    Application(u64),
}

/// A discrete, externally observable state change of one connection.
/// Declaration order is the variant rank of the total order over events.
#[derive(Debug, PartialEq, Eq)]
pub enum ConnectionEvent {
    /// A new uni (read) or bidi stream has been opened by the peer.
    NewStream { stream_id: u64, stream_type: StreamType },
    /// Space available in the buffer for an application write to succeed.
    SendStreamWritable { stream_id: u64 },
    /// New bytes available for reading.
    RecvStreamReadable { stream_id: u64 },
    /// Peer reset the stream.
    RecvStreamReset { stream_id: u64, app_error: AppError },
    /// Peer has sent STOP_SENDING.
    SendStreamStopSending { stream_id: u64, app_error: AppError },
    /// Peer has acked everything sent on the stream.
    SendStreamComplete { stream_id: u64 },
    /// Peer increased MAX_STREAMS.
    SendStreamCreatable { stream_type: StreamType },
    /// Connection closed.
    ConnectionClosed { error_code: CloseError, frame_type: u64, reason_phrase: String },
    /// The server rejected 0-RTT.
    /// This event invalidates all state in streams that has been created.
    /// Any data written to streams needs to be written again.
    ZeroRttRejected,
}

/// The mathematical content of an event: the same variants and fields as
/// `ConnectionEvent`, with the reason phrase as its character sequence.
pub enum EventView {
    NewStream { stream_id: u64, stream_type: StreamType },
    SendStreamWritable { stream_id: u64 },
    RecvStreamReadable { stream_id: u64 },
    RecvStreamReset { stream_id: u64, app_error: AppError },
    SendStreamStopSending { stream_id: u64, app_error: AppError },
    SendStreamComplete { stream_id: u64 },
    SendStreamCreatable { stream_type: StreamType },
    ConnectionClosed { error_code: CloseError, frame_type: u64, reason_phrase: Seq<char> },
    ZeroRttRejected,
}

impl View for ConnectionEvent {
    type V = EventView;

    open spec fn view(&self) -> EventView {
        match self {
            ConnectionEvent::NewStream { stream_id, stream_type } => (EventView::NewStream {
                stream_id: *stream_id,
                stream_type: *stream_type,
            }),
            ConnectionEvent::SendStreamWritable { stream_id } => (EventView::SendStreamWritable {
                stream_id: *stream_id,
            }),
            ConnectionEvent::RecvStreamReadable { stream_id } => (EventView::RecvStreamReadable {
                stream_id: *stream_id,
            }),
            ConnectionEvent::RecvStreamReset { stream_id, app_error } => (EventView::RecvStreamReset {
                stream_id: *stream_id,
                app_error: *app_error,
            }),
            ConnectionEvent::SendStreamStopSending { stream_id, app_error } => (EventView::SendStreamStopSending {
                stream_id: *stream_id,
                app_error: *app_error,
            }),
            ConnectionEvent::SendStreamComplete { stream_id } => (EventView::SendStreamComplete {
                stream_id: *stream_id,
            }),
            ConnectionEvent::SendStreamCreatable { stream_type } => (EventView::SendStreamCreatable {
                stream_type: *stream_type,
            }),
            ConnectionEvent::ConnectionClosed { error_code, frame_type, reason_phrase } => (EventView::ConnectionClosed {
                error_code: *error_code,
                frame_type: *frame_type,
                reason_phrase: reason_phrase@,
            }),
            ConnectionEvent::ZeroRttRejected => EventView::ZeroRttRejected,
        }
    }
}

/// The views of a sequence of events, element by element.
pub open spec fn views_of(s: Seq<ConnectionEvent>) -> Seq<EventView> {
    s.map_values(|e: ConnectionEvent| e@)
}

/// Taking views commutes with inserting one event at a position.
proof fn lemma_views_of_insert(s: Seq<ConnectionEvent>, i: int, e: ConnectionEvent)
    requires
        0 <= i <= s.len(),
    ensures
        views_of(s.insert(i, e)) == views_of(s).insert(i, e@),
{
    s.insert_ensures(i, e);
    views_of(s).insert_ensures(i, e@);
    assert(views_of(s.insert(i, e)) =~= views_of(s).insert(i, e@)) by {
        assert forall|j: int| 0 <= j < s.len() + 1 implies views_of(s.insert(i, e))[j] == views_of(
            s,
        ).insert(i, e@)[j] by {
            if j > i {
                assert(s.insert(i, e)[(j - 1) + 1] == s[j - 1]);
                assert(views_of(s).insert(i, e@)[(j - 1) + 1] == views_of(s)[j - 1]);
            }
        }
    }
}

/// Deduplication across calls: filing an event in a pending set that already
/// holds it leaves the set unchanged, so filing the same event twice leaves
/// exactly what filing it once leaves.
pub proof fn lemma_insert_twice(s: Set<EventView>, e: EventView)
    ensures
        s.insert(e).insert(e) == s.insert(e),
{
    assert(s.insert(e).insert(e) =~= s.insert(e));
}

/// The mailbox of pending events for one connection: the single point of
/// truth for what has changed since the consumer last drained it. Events are
/// unique under full structural equality and held in the total order of
/// `crate::order::event_lt`, whatever the insertion order was.
#[derive(Debug)]
pub struct ConnectionEvents {
    events: Vec<ConnectionEvent>,
}

impl View for ConnectionEvents {
    type V = Seq<EventView>;

    closed spec fn view(&self) -> Seq<EventView> {
        views_of(self.events@)
    }
}

impl Default for ConnectionEvents {
    /// An empty mailbox, as each connection starts with.
    fn default() -> (r: Self)
        ensures
            r.wf(),
            r@ == Seq::<EventView>::empty(),
    {
        let r = ConnectionEvents { events: Vec::new() };
        proof {
            assert(r@ =~= Seq::<EventView>::empty());
        }
        r
    }
}

/// The first position in `v` whose event is not below `event`; the length of
/// `v` if every event is below it.
fn lower_bound(v: &Vec<ConnectionEvent>, event: &ConnectionEvent) -> (r: usize)
    ensures
        r <= v@.len(),
        forall|k: int| 0 <= k < r ==> event_lt(views_of(v@)[k], event@),
        r < v@.len() ==> !event_lt(views_of(v@)[r as int], event@),
{
    let mut i: usize = 0;
    while i < v.len()
        invariant
            i <= v@.len(),
            forall|k: int| 0 <= k < i ==> event_lt(views_of(v@)[k], event@),
        decreases v@.len() - i,
    {
        if !event_lt_exec(&v[i], event) {
            return i;
        }
        i = i + 1;
    }
    i
}

impl ConnectionEvents {
    /// The mailbox invariant: the pending events stand in delivery order
    /// (strictly ascending, hence free of duplicates).
    pub open spec fn wf(&self) -> bool {
        sorted_events(self@)
    }

    /// A new uni (read) or bidi stream has been opened by the peer.
    pub fn new_stream(&mut self, stream_id: u64, stream_type: StreamType)
        requires
            old(self).wf(),
        ensures
            final(self).wf(),
            final(self)@.to_set() == old(self)@.to_set().insert(
                (EventView::NewStream { stream_id, stream_type }),
            ),
    {
        self.insert(ConnectionEvent::NewStream { stream_id, stream_type });
    }

    /// Space available in the buffer for an application write to succeed.
    pub fn send_stream_writable(&mut self, stream_id: u64)
        requires
            old(self).wf(),
        ensures
            final(self).wf(),
            final(self)@.to_set() == old(self)@.to_set().insert(
                (EventView::SendStreamWritable { stream_id }),
            ),
    {
        self.insert(ConnectionEvent::SendStreamWritable { stream_id });
    }

    /// New bytes available for reading.
    pub fn recv_stream_readable(&mut self, stream_id: u64)
        requires
            old(self).wf(),
        ensures
            final(self).wf(),
            final(self)@.to_set() == old(self)@.to_set().insert(
                (EventView::RecvStreamReadable { stream_id }),
            ),
    {
        self.insert(ConnectionEvent::RecvStreamReadable { stream_id });
    }

    /// Peer reset the stream.
    pub fn recv_stream_reset(&mut self, stream_id: u64, app_error: AppError)
        requires
            old(self).wf(),
        ensures
            final(self).wf(),
            final(self)@.to_set() == old(self)@.to_set().insert(
                (EventView::RecvStreamReset { stream_id, app_error }),
            ),
    {
        self.insert(ConnectionEvent::RecvStreamReset { stream_id, app_error });
    }

    /// Peer has sent STOP_SENDING.
    pub fn send_stream_stop_sending(&mut self, stream_id: u64, app_error: AppError)
        requires
            old(self).wf(),
        ensures
            final(self).wf(),
            final(self)@.to_set() == old(self)@.to_set().insert(
                (EventView::SendStreamStopSending { stream_id, app_error }),
            ),
    {
        self.insert(ConnectionEvent::SendStreamStopSending { stream_id, app_error });
    }

    /// Peer has acked everything sent on the stream.
    pub fn send_stream_complete(&mut self, stream_id: u64)
        requires
            old(self).wf(),
        ensures
            final(self).wf(),
            final(self)@.to_set() == old(self)@.to_set().insert(
                (EventView::SendStreamComplete { stream_id }),
            ),
    {
        self.insert(ConnectionEvent::SendStreamComplete { stream_id });
    }

    /// Peer increased MAX_STREAMS.
    pub fn send_stream_creatable(&mut self, stream_type: StreamType)
        requires
            old(self).wf(),
        ensures
            final(self).wf(),
            final(self)@.to_set() == old(self)@.to_set().insert(
                (EventView::SendStreamCreatable { stream_type }),
            ),
    {
        self.insert(ConnectionEvent::SendStreamCreatable { stream_type });
    }

    /// Connection closed.
    pub fn connection_closed(
        &mut self,
        error_code: CloseError,
        frame_type: u64,
        reason_phrase: &str,
    )
        requires
            old(self).wf(),
        ensures
            final(self).wf(),
            final(self)@.to_set() == old(self)@.to_set().insert(
                (EventView::ConnectionClosed {
                    error_code,
                    frame_type,
                    reason_phrase: reason_phrase@,
                }),
            ),
    {
        self.insert(
            ConnectionEvent::ConnectionClosed {
                error_code,
                frame_type,
                reason_phrase: reason_phrase.to_owned(),
            },
        );
    }

    /// The server rejected 0-RTT: every event queued so far spoke of stream
    /// state about to be discarded, so the whole backlog is superseded. The
    /// pending set is cleared and then holds exactly `ZeroRttRejected`,
    /// whatever it held before, in one indivisible step.
    pub fn client_0rtt_rejected(&mut self)
        requires
            old(self).wf(),
        ensures
            final(self).wf(),
            final(self)@ == seq![EventView::ZeroRttRejected],
    {
        self.events.clear();
        proof {
            assert(self@ =~= Seq::<EventView>::empty());
        }
        self.insert(ConnectionEvent::ZeroRttRejected);
        proof {
            let one = seq![EventView::ZeroRttRejected];
            assert(one[0] == EventView::ZeroRttRejected);
            assert(sorted_events(one));
            assert(self@.to_set() =~= one.to_set()) by {
                assert(Seq::<EventView>::empty().to_set().insert(
                    EventView::ZeroRttRejected,
                ).contains(EventView::ZeroRttRejected));
                assert(one.to_set().contains(EventView::ZeroRttRejected));
                assert forall|x: EventView| one.to_set().contains(x) implies x
                    == EventView::ZeroRttRejected by {
                    let j = choose|j: int| 0 <= j < one.len() && one[j] == x;
                }
                assert forall|x: EventView|
                    Seq::<EventView>::empty().to_set().insert(EventView::ZeroRttRejected).contains(
                        x,
                    ) implies x == EventView::ZeroRttRejected by {
                    if x != EventView::ZeroRttRejected {
                        let j = choose|j: int|
                            0 <= j < Seq::<EventView>::empty().len() && Seq::<
                                EventView,
                            >::empty()[j] == x;
                    }
                }
            }
            lemma_sorted_events_unique(self@, one);
        }
    }

    /// Drains the mailbox: atomically empties it and returns its former
    /// contents in delivery order. Safe on an empty mailbox, where it returns
    /// an empty sequence; a second drain with no intervening insert always
    /// returns an empty sequence.
    pub fn events(&mut self) -> (r: Vec<ConnectionEvent>)
        requires
            old(self).wf(),
        ensures
            final(self).wf(),
            final(self)@ == Seq::<EventView>::empty(),
            views_of(r@) == old(self)@,
            sorted_events(views_of(r@)),
    {
        let r = self.events.split_off(0);
        proof {
            assert(r@ =~= old(self).events@);
            assert(self@ =~= Seq::<EventView>::empty());
        }
        r
    }

    /// Files one event: a no-op when an equal event is already pending,
    /// otherwise the event enters at its place in the order. The pending set
    /// afterwards is the old set with the event added.
    fn insert(&mut self, event: ConnectionEvent)
        requires
            old(self).wf(),
        ensures
            final(self).wf(),
            final(self)@.to_set() == old(self)@.to_set().insert(event@),
    {
        let i = lower_bound(&self.events, &event);
        if i < self.events.len() && !event_lt_exec(&event, &self.events[i]) {
            proof {
                lemma_event_lt_connected(event@, self@[i as int]);
                assert(self@.to_set().contains(event@));
                assert(self@.to_set() =~= self@.to_set().insert(event@));
            }
            return;
        }
        let ghost s0 = self@;
        let ghost pos = i as int;
        self.events.insert(i, event);
        proof {
            lemma_views_of_insert(old(self).events@, pos, event);
            let s1 = self@;
            assert(s1 == s0.insert(pos, event@));
            s0.insert_ensures(pos, event@);
            assert forall|p: int, q: int| 0 <= p < q < s1.len() implies event_lt(
                s1[p],
                s1[q],
            ) by {
                if q < pos {
                    assert(event_lt(s0[p], s0[q]));
                } else if p < pos && q == pos {
                    assert(s1[q] == event@);
                    assert(event_lt(s0[p], event@));
                } else if p < pos && q > pos {
                    assert(s1[q] == s0[q - 1]);
                    assert(event_lt(s0[p], s0[q - 1]));
                } else if p == pos && q > pos {
                    assert(s1[p] == event@);
                    assert(s1[q] == s0[q - 1]);
                    assert(event_lt(event@, s0[pos]));
                    if q - 1 > pos {
                        lemma_event_lt_transitive(event@, s0[pos], s0[q - 1]);
                    }
                } else {
                    assert(p > pos);
                    assert(s1[p] == s0[p - 1]);
                    assert(s1[q] == s0[q - 1]);
                    assert(event_lt(s0[p - 1], s0[q - 1]));
                }
            }
            assert(s1.to_set() =~= s0.to_set().insert(event@)) by {
                assert forall|x: EventView| s1.to_set().contains(x) implies s0.to_set().insert(
                    event@,
                ).contains(x) by {
                    let j = choose|j: int| 0 <= j < s1.len() && s1[j] == x;
                    if j < pos {
                        assert(s0[j] == x);
                    } else if j > pos {
                        assert(s0[j - 1] == x);
                    }
                }
                assert forall|x: EventView| s0.to_set().insert(event@).contains(x) implies s1.to_set().contains(x) by {
                    if x == event@ {
                        assert(s1[pos] == x);
                    } else {
                        let k = choose|k: int| 0 <= k < s0.len() && s0[k] == x;
                        if k < pos {
                            assert(s1[k] == x);
                        } else {
                            assert(s1[k + 1] == x);
                        }
                    }
                }
            }
        }
    }
}

} // verus!
