//! The total order over events: primary key the variant rank (declaration
//! order), secondary key the field tuple in declared field order, numeric
//! fields ascending and reason phrases lexical by character.

use vstd::prelude::*;
use vstd::string::StrSliceExecFns;
use crate::events::{CloseError, ConnectionEvent, EventView, StreamType};

verus! {

/// The rank of a stream kind: its declaration position.
pub open spec fn stream_type_rank(t: StreamType) -> int {
    match t {
        StreamType::UniDi => 0,
        StreamType::BiDi => 1,
    }
}

/// Strict order on stream kinds, by declaration position.
pub open spec fn stream_type_lt(a: StreamType, b: StreamType) -> bool {
    stream_type_rank(a) < stream_type_rank(b)
}

/// Strict order on close errors: transport errors before application errors,
/// and codes ascending within a kind.
pub open spec fn close_error_lt(a: CloseError, b: CloseError) -> bool {
    match (a, b) {
        (CloseError::Transport(x), CloseError::Transport(y)) => x < y,
        (CloseError::Transport(_), CloseError::Application(_)) => true,
        (CloseError::Application(_), CloseError::Transport(_)) => false,
        (CloseError::Application(x), CloseError::Application(y)) => x < y,
    }
}

/// Strict order on characters, by code point.
pub open spec fn char_lt(a: char, b: char) -> bool {
    a < b
}

/// Strict lexicographic order on character sequences: a proper prefix comes
/// first, otherwise the first differing character decides.
pub open spec fn seq_char_lt(a: Seq<char>, b: Seq<char>) -> bool
    decreases a.len(),
{
    if b.len() == 0 {
        false
    } else if a.len() == 0 {
        true
    } else if char_lt(a[0], b[0]) {
        true
    } else if a[0] == b[0] {
        seq_char_lt(a.skip(1), b.skip(1))
    } else {
        false
    }
}

/// The rank of an event: its variant's declaration position.
pub open spec fn event_rank(e: EventView) -> int {
    match e {
        EventView::NewStream { .. } => 0,
        EventView::SendStreamWritable { .. } => 1,
        EventView::RecvStreamReadable { .. } => 2,
        EventView::RecvStreamReset { .. } => 3,
        EventView::SendStreamStopSending { .. } => 4,
        EventView::SendStreamComplete { .. } => 5,
        EventView::SendStreamCreatable { .. } => 6,
        EventView::ConnectionClosed { .. } => 7,
        EventView::ZeroRttRejected => 8,
    }
}

/// The strict total order over events: variant rank first, then the field
/// tuple in declared field order.
pub open spec fn event_lt(a: EventView, b: EventView) -> bool {
    if event_rank(a) != event_rank(b) {
        event_rank(a) < event_rank(b)
    } else {
        match (a, b) {
            (
                EventView::NewStream { stream_id: i1, stream_type: t1 },
                EventView::NewStream { stream_id: i2, stream_type: t2 },
            ) => i1 < i2 || (i1 == i2 && stream_type_lt(t1, t2)),
            (
                EventView::SendStreamWritable { stream_id: i1 },
                EventView::SendStreamWritable { stream_id: i2 },
            ) => i1 < i2,
            (
                EventView::RecvStreamReadable { stream_id: i1 },
                EventView::RecvStreamReadable { stream_id: i2 },
            ) => i1 < i2,
            (
                EventView::RecvStreamReset { stream_id: i1, app_error: e1 },
                EventView::RecvStreamReset { stream_id: i2, app_error: e2 },
            ) => i1 < i2 || (i1 == i2 && e1 < e2),
            (
                EventView::SendStreamStopSending { stream_id: i1, app_error: e1 },
                EventView::SendStreamStopSending { stream_id: i2, app_error: e2 },
            ) => i1 < i2 || (i1 == i2 && e1 < e2),
            (
                EventView::SendStreamComplete { stream_id: i1 },
                EventView::SendStreamComplete { stream_id: i2 },
            ) => i1 < i2,
            (
                EventView::SendStreamCreatable { stream_type: t1 },
                EventView::SendStreamCreatable { stream_type: t2 },
            ) => stream_type_lt(t1, t2),
            (
                EventView::ConnectionClosed { error_code: c1, frame_type: f1, reason_phrase: r1 },
                EventView::ConnectionClosed { error_code: c2, frame_type: f2, reason_phrase: r2 },
            ) => close_error_lt(c1, c2) || (c1 == c2 && (f1 < f2 || (f1 == f2 && seq_char_lt(
                r1,
                r2,
            )))),
            _ => false,
        }
    }
}

/// A sequence of events stands in delivery order: strictly ascending, so
/// also free of duplicates.
pub open spec fn sorted_events(s: Seq<EventView>) -> bool {
    forall|i: int, j: int| 0 <= i < j < s.len() ==> #[trigger] event_lt(s[i], s[j])
}

// ---------------------------------------------------------------------------
// The order is a strict total order.
// ---------------------------------------------------------------------------

/// No character sequence is lexically below itself.
pub proof fn lemma_seq_char_lt_irreflexive(a: Seq<char>)
    ensures
        !seq_char_lt(a, a),
    decreases a.len(),
{
    if a.len() > 0 {
        lemma_seq_char_lt_irreflexive(a.skip(1));
    }
}

/// Any two character sequences are equal or lexically ordered one way.
pub proof fn lemma_seq_char_lt_connected(a: Seq<char>, b: Seq<char>)
    ensures
        a == b || seq_char_lt(a, b) || seq_char_lt(b, a),
    decreases a.len(),
{
    if a.len() == 0 && b.len() == 0 {
        assert(a =~= b);
    } else if a.len() == 0 {
        assert(seq_char_lt(a, b));
    } else if b.len() == 0 {
        assert(seq_char_lt(b, a));
    } else if a[0] == b[0] {
        lemma_seq_char_lt_connected(a.skip(1), b.skip(1));
        assert(a.skip(1).len() == a.len() - 1);
        assert(b.skip(1).len() == b.len() - 1);
        if a.skip(1) == b.skip(1) {
            assert(a =~= b) by {
                assert(a.len() == b.len());
                assert forall|k: int| 0 <= k < a.len() implies a[k] == b[k] by {
                    if k > 0 {
                        assert(a[k] == a.skip(1)[k - 1]);
                        assert(b[k] == b.skip(1)[k - 1]);
                    }
                }
            }
        }
    } else if char_lt(a[0], b[0]) {
        assert(seq_char_lt(a, b));
    } else {
        assert(char_lt(b[0], a[0]));
        assert(seq_char_lt(b, a));
    }
}

/// Lexicographic order is transitive.
pub proof fn lemma_seq_char_lt_transitive(a: Seq<char>, b: Seq<char>, c: Seq<char>)
    requires
        seq_char_lt(a, b),
        seq_char_lt(b, c),
    ensures
        seq_char_lt(a, c),
    decreases a.len(),
{
    if a.len() > 0 && b.len() > 0 && c.len() > 0 && a[0] == b[0] && b[0] == c[0] {
        lemma_seq_char_lt_transitive(a.skip(1), b.skip(1), c.skip(1));
    }
}

/// No event is below itself.
pub proof fn lemma_event_lt_irreflexive(a: EventView)
    ensures
        !event_lt(a, a),
{
    if let EventView::ConnectionClosed { reason_phrase, .. } = a {
        lemma_seq_char_lt_irreflexive(reason_phrase);
    }
}

/// Any two events are equal or ordered one way: the order is total.
pub proof fn lemma_event_lt_connected(a: EventView, b: EventView)
    ensures
        a == b || event_lt(a, b) || event_lt(b, a),
{
    if let (
        EventView::ConnectionClosed { error_code: c1, frame_type: f1, reason_phrase: r1 },
        EventView::ConnectionClosed { error_code: c2, frame_type: f2, reason_phrase: r2 },
    ) = (a, b) {
        if c1 == c2 && f1 == f2 {
            lemma_seq_char_lt_connected(r1, r2);
        }
    }
}

/// The order over events is transitive.
pub proof fn lemma_event_lt_transitive(a: EventView, b: EventView, c: EventView)
    requires
        event_lt(a, b),
        event_lt(b, c),
    ensures
        event_lt(a, c),
{
    if let (
        EventView::ConnectionClosed { error_code: c1, frame_type: f1, reason_phrase: r1 },
        EventView::ConnectionClosed { error_code: c2, frame_type: f2, reason_phrase: r2 },
        EventView::ConnectionClosed { error_code: c3, frame_type: f3, reason_phrase: r3 },
    ) = (a, b, c) {
        if c1 == c2 && c2 == c3 && f1 == f2 && f2 == f3 && seq_char_lt(r1, r2) && seq_char_lt(
            r2,
            r3,
        ) {
            lemma_seq_char_lt_transitive(r1, r2, r3);
        }
    }
}

/// Deduplication: a sequence in delivery order holds no event twice, so a
/// mailbox holds at most one entry equal to any given event.
pub proof fn lemma_sorted_events_distinct(s: Seq<EventView>)
    requires
        sorted_events(s),
    ensures
        forall|i: int, j: int| 0 <= i < j < s.len() ==> s[i] != s[j],
{
    assert forall|i: int, j: int| 0 <= i < j < s.len() implies s[i] != s[j] by {
        lemma_event_lt_irreflexive(s[i]);
    }
}

/// One direction of `lemma_sorted_events_unique`: with equal heads and equal
/// content sets, everything after the head of `a` is after the head of `b`.
proof fn lemma_tail_set_subset(a: Seq<EventView>, b: Seq<EventView>)
    requires
        sorted_events(a),
        sorted_events(b),
        a.to_set() == b.to_set(),
        a.len() > 0,
        b.len() > 0,
        a[0] == b[0],
    ensures
        forall|x: EventView|
            a.skip(1).to_set().contains(x) ==> #[trigger] b.skip(1).to_set().contains(x),
{
    assert forall|x: EventView|
        a.skip(1).to_set().contains(x) implies #[trigger] b.skip(1).to_set().contains(x) by {
        let j = choose|j: int| 0 <= j < a.skip(1).len() && a.skip(1)[j] == x;
        assert(a[j + 1] == x);
        assert(a.to_set().contains(x));
        assert(b.to_set().contains(x));
        let k = choose|k: int| 0 <= k < b.len() && b[k] == x;
        if k == 0 {
            assert(event_lt(a[0], a[j + 1]));
            lemma_event_lt_irreflexive(a[0]);
            assert(false);
        } else {
            assert(b.skip(1)[k - 1] == x);
        }
    }
}

/// Deterministic order: two sequences in delivery order that hold the same
/// set of events are the same sequence. So what a drain returns depends only
/// on which events were filed, never on the order they were filed in.
pub proof fn lemma_sorted_events_unique(a: Seq<EventView>, b: Seq<EventView>)
    requires
        sorted_events(a),
        sorted_events(b),
        a.to_set() == b.to_set(),
    ensures
        a == b,
    decreases a.len(),
{
    if a.len() == 0 {
        if b.len() > 0 {
            assert(b.to_set().contains(b[0]));
            assert(a.to_set().contains(b[0]));
            assert(false);
        }
        assert(a =~= b);
    } else {
        assert(a.to_set().contains(a[0]));
        assert(b.to_set().contains(a[0]));
        let m = choose|m: int| 0 <= m < b.len() && b[m] == a[0];
        assert(b.to_set().contains(b[0]));
        assert(a.to_set().contains(b[0]));
        let n = choose|n: int| 0 <= n < a.len() && a[n] == b[0];
        if a[0] != b[0] {
            assert(m != 0 && n != 0);
            assert(event_lt(b[0], b[m]));
            assert(event_lt(a[0], a[n]));
            lemma_event_lt_transitive(a[0], b[0], a[0]);
            lemma_event_lt_irreflexive(a[0]);
            assert(false);
        }
        let at = a.skip(1);
        let bt = b.skip(1);
        assert(sorted_events(at)) by {
            assert forall|i: int, j: int| 0 <= i < j < at.len() implies event_lt(
                at[i],
                at[j],
            ) by {
                assert(at[i] == a[i + 1]);
                assert(at[j] == a[j + 1]);
                assert(event_lt(a[i + 1], a[j + 1]));
            }
        }
        assert(sorted_events(bt)) by {
            assert forall|i: int, j: int| 0 <= i < j < bt.len() implies event_lt(
                bt[i],
                bt[j],
            ) by {
                assert(bt[i] == b[i + 1]);
                assert(bt[j] == b[j + 1]);
                assert(event_lt(b[i + 1], b[j + 1]));
            }
        }
        lemma_tail_set_subset(a, b);
        lemma_tail_set_subset(b, a);
        assert(at.to_set() =~= bt.to_set());
        lemma_sorted_events_unique(at, bt);
        assert(a =~= b) by {
            assert(at.len() == a.len() - 1);
            assert(bt.len() == b.len() - 1);
            assert forall|k: int| 0 <= k < a.len() implies a[k] == b[k] by {
                if k > 0 {
                    assert(a[k] == at[k - 1]);
                    assert(b[k] == bt[k - 1]);
                }
            }
        }
    }
}

// ---------------------------------------------------------------------------
// Executable comparison, verified against the order above.
// ---------------------------------------------------------------------------

/// Decides `stream_type_lt` on concrete stream kinds.
fn stream_type_lt_exec(a: StreamType, b: StreamType) -> (r: bool)
    ensures
        r == stream_type_lt(a, b),
{
    match (a, b) {
        (StreamType::UniDi, StreamType::BiDi) => true,
        _ => false,
    }
}

/// Decides `close_error_lt` on concrete close errors.
fn close_error_lt_exec(a: CloseError, b: CloseError) -> (r: bool)
    ensures
        r == close_error_lt(a, b),
{
    match (a, b) {
        (CloseError::Transport(x), CloseError::Transport(y)) => x < y,
        (CloseError::Transport(_), CloseError::Application(_)) => true,
        (CloseError::Application(_), CloseError::Transport(_)) => false,
        (CloseError::Application(x), CloseError::Application(y)) => x < y,
    }
}

/// Decides lexicographic order on concrete strings, character by character.
fn str_lt(a: &str, b: &str) -> (r: bool)
    ensures
        r == seq_char_lt(a@, b@),
{
    let alen = a.unicode_len();
    let blen = b.unicode_len();
    proof {
        assert(a@.skip(0) =~= a@);
        assert(b@.skip(0) =~= b@);
    }
    let mut i: usize = 0;
    while i < alen && i < blen
        invariant
            alen == a@.len(),
            blen == b@.len(),
            i <= alen,
            i <= blen,
            seq_char_lt(a@, b@) == seq_char_lt(a@.skip(i as int), b@.skip(i as int)),
        decreases alen - i,
    {
        let ca = a.get_char(i);
        let cb = b.get_char(i);
        if ca == cb {
            proof {
                lemma_seq_char_lt_skip_step(a@, b@, i as int);
            }
            i = i + 1;
        } else {
            proof {
                assert(a@.skip(i as int)[0] == a@[i as int]);
                assert(b@.skip(i as int)[0] == b@[i as int]);
                assert(a@.skip(i as int).len() > 0);
                assert(b@.skip(i as int).len() > 0);
            }
            return ca < cb;
        }
    }
    proof {
        assert(a@.skip(i as int).len() == alen - i);
        assert(b@.skip(i as int).len() == blen - i);
    }
    i < blen
}

/// One step of `str_lt`: equal characters at the front leave the comparison
/// of the remainders unchanged.
proof fn lemma_seq_char_lt_skip_step(a: Seq<char>, b: Seq<char>, i: int)
    requires
        0 <= i < a.len(),
        0 <= i < b.len(),
        a[i] == b[i],
    ensures
        seq_char_lt(a.skip(i), b.skip(i)) == seq_char_lt(a.skip(i + 1), b.skip(i + 1)),
{
    let x = a.skip(i);
    let y = b.skip(i);
    assert(x[0] == a[i]);
    assert(y[0] == b[i]);
    assert(x.skip(1) =~= a.skip(i + 1));
    assert(y.skip(1) =~= b.skip(i + 1));
    assert(seq_char_lt(x, y) == seq_char_lt(x.skip(1), y.skip(1)));
}

/// The rank of a concrete event, equal to `event_rank` of its view.
fn event_rank_exec(e: &ConnectionEvent) -> (r: u8)
    ensures
        r as int == event_rank(e@),
{
    match e {
        ConnectionEvent::NewStream { .. } => 0,
        ConnectionEvent::SendStreamWritable { .. } => 1,
        ConnectionEvent::RecvStreamReadable { .. } => 2,
        ConnectionEvent::RecvStreamReset { .. } => 3,
        ConnectionEvent::SendStreamStopSending { .. } => 4,
        ConnectionEvent::SendStreamComplete { .. } => 5,
        ConnectionEvent::SendStreamCreatable { .. } => 6,
        ConnectionEvent::ConnectionClosed { .. } => 7,
        ConnectionEvent::ZeroRttRejected => 8,
    }
}

/// Decides the total order on concrete events.
pub(crate) fn event_lt_exec(a: &ConnectionEvent, b: &ConnectionEvent) -> (r: bool)
    ensures
        r == event_lt(a@, b@),
{
    let ra = event_rank_exec(a);
    let rb = event_rank_exec(b);
    if ra != rb {
        return ra < rb;
    }
    match (a, b) {
        (
            ConnectionEvent::NewStream { stream_id: i1, stream_type: t1 },
            ConnectionEvent::NewStream { stream_id: i2, stream_type: t2 },
        ) => *i1 < *i2 || (*i1 == *i2 && stream_type_lt_exec(*t1, *t2)),
        (
            ConnectionEvent::SendStreamWritable { stream_id: i1 },
            ConnectionEvent::SendStreamWritable { stream_id: i2 },
        ) => *i1 < *i2,
        (
            ConnectionEvent::RecvStreamReadable { stream_id: i1 },
            ConnectionEvent::RecvStreamReadable { stream_id: i2 },
        ) => *i1 < *i2,
        (
            ConnectionEvent::RecvStreamReset { stream_id: i1, app_error: e1 },
            ConnectionEvent::RecvStreamReset { stream_id: i2, app_error: e2 },
        ) => *i1 < *i2 || (*i1 == *i2 && *e1 < *e2),
        (
            ConnectionEvent::SendStreamStopSending { stream_id: i1, app_error: e1 },
            ConnectionEvent::SendStreamStopSending { stream_id: i2, app_error: e2 },
        ) => *i1 < *i2 || (*i1 == *i2 && *e1 < *e2),
        (
            ConnectionEvent::SendStreamComplete { stream_id: i1 },
            ConnectionEvent::SendStreamComplete { stream_id: i2 },
        ) => *i1 < *i2,
        (
            ConnectionEvent::SendStreamCreatable { stream_type: t1 },
            ConnectionEvent::SendStreamCreatable { stream_type: t2 },
        ) => stream_type_lt_exec(*t1, *t2),
        (
            ConnectionEvent::ConnectionClosed { error_code: c1, frame_type: f1, reason_phrase: r1 },
            ConnectionEvent::ConnectionClosed { error_code: c2, frame_type: f2, reason_phrase: r2 },
        ) => close_error_lt_exec(*c1, *c2) || (*c1 == *c2 && (*f1 < *f2 || (*f1 == *f2 && str_lt(
            r1.as_str(),
            r2.as_str(),
        )))),
        (ConnectionEvent::ZeroRttRejected, ConnectionEvent::ZeroRttRejected) => false,
        _ => false,
    }
}

} // verus!
