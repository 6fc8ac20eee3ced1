//! The reading side of the relay: when it reads, hands packets on, reconnects
//! and gives up.
//!
//! The producer does no work of its own on the network or the queue. It asks for
//! one thing at a time with a [`ProducerAction`] and is told how that went with
//! a [`ProducerEvent`].

use crate::clock::{elapsed, elapsed_us, micros, us};
use crate::disc::TsEvent;
use crate::framing::is_packet_row;
use crate::ts::{
    lemma_chunking, lemma_fed_valid, lemma_feed_append, lemma_feed_nothing, lemma_output_row, TsOp,
    TsProc, TsState,
};
use vstd::prelude::*;

verus! {

/// How long a read may stay without data before the source counts as stalled.
pub const SRC_STALL_RECONNECT_MS: u64 = 5_000;

/// The pause between two attempts to reconnect.
pub const SRC_RECONNECT_BACKOFF_MS: u64 = 2_000;

/// How long the source may stay without data before the producer gives up.
pub const MAX_UNHEALTHY_NS: u128 = 15_000_000_000;

/// The most bytes that one read takes.
pub const CHUNK: usize = 32 * 1024;

/// The most chunks that wait between the producer and the consumer.
pub const QUEUE_DEPTH: usize = 2;

/// How a request of the producer went.
pub enum ProducerEvent {
    /// The read returned `data`; none at the end of the stream.
    Read { data: Vec<u8>, now_ns: u128 },
    /// The read timed out or failed.
    ReadFailed { now_ns: u128 },
    /// The queue took what was to be sent, or there was nothing to settle.
    Sent { now_ns: u128 },
    /// The queue is closed.
    SendFailed,
    /// The connection was closed.
    Closed,
    /// The source was connected anew, with `leftover` behind its headers.
    Connected { leftover: Vec<u8>, now_ns: u128 },
    /// The source could not be connected.
    ConnectFailed,
    /// The pause is over.
    Woke { now_ns: u128 },
}

/// What the producer asks for.
#[derive(Debug, PartialEq, Eq)]
pub enum ProducerAction {
    /// Read up to `max` bytes, waiting at most `timeout_ms`.
    Read { max: usize, timeout_ms: u64 },
    /// Put the bytes into the queue.
    Send(Vec<u8>),
    /// Nothing is to be sent; tell the time.
    Settle,
    /// Close the connection to the source.
    Close,
    /// Connect to the source anew.
    Connect,
    /// Pause.
    Sleep { ms: u64 },
    /// Close the queue and end.
    Stop,
}

/// What the producer waits for.
#[derive(Clone, Copy, Debug, PartialEq, Eq)]
pub enum ProducerPhase {
    /// For a read.
    Reading,
    /// For the queue, with data that was read at `since_ns` where a read brought it.
    Delivering { since_ns: Option<u128> },
    /// For the connection to be closed.
    Closing,
    /// For a connection.
    Connecting,
    /// For the end of a pause.
    Pausing,
    /// For nothing any more.
    Done,
}

/// A [`ProducerAction`] with the bytes as a sequence.
pub enum ProducerMove {
    Read { max: usize, timeout_ms: u64 },
    Send(Seq<u8>),
    Settle,
    Close,
    Connect,
    Sleep { ms: u64 },
    Stop,
}

impl View for ProducerAction {
    type V = ProducerMove;

    open spec fn view(&self) -> ProducerMove {
        match self {
            ProducerAction::Read { max, timeout_ms } => ProducerMove::Read {
                max: *max,
                timeout_ms: *timeout_ms,
            },
            ProducerAction::Send(bytes) => ProducerMove::Send(bytes@),
            ProducerAction::Settle => ProducerMove::Settle,
            ProducerAction::Close => ProducerMove::Close,
            ProducerAction::Connect => ProducerMove::Connect,
            ProducerAction::Sleep { ms } => ProducerMove::Sleep { ms: *ms },
            ProducerAction::Stop => ProducerMove::Stop,
        }
    }
}

/// What a producer remembers between events.
#[verifier::ext_equal]
pub struct ProducerState {
    /// The state of the transport stream processor.
    pub ts: TsState,
    /// When the source last brought data, or when the producer began.
    pub last_real_ns: u128,
    /// When the source last brought data, in microseconds; 0 before any.
    pub last_data_us: u64,
    /// The bytes read, modulo 2 to the 64.
    pub bytes_read: u64,
    /// The microseconds spent on processing and on the queue, modulo 2 to the 64.
    pub blocked_us: u64,
    /// What is waited for.
    pub phase: ProducerPhase,
}

impl ProducerState {
    /// A producer that has seen nothing yet.
    pub open spec fn fresh(now_ns: u128) -> ProducerState {
        ProducerState {
            ts: TsState::fresh(),
            last_real_ns: now_ns,
            last_data_us: 0,
            bytes_read: 0,
            blocked_us: 0,
            phase: ProducerPhase::Reading,
        }
    }

    /// Whether the source has been without data for too long.
    pub open spec fn exhausted(self, now_ns: u128) -> bool {
        elapsed(self.last_real_ns, now_ns) > MAX_UNHEALTHY_NS
    }

    /// Reads on, unless the source has been without data for too long.
    pub open spec fn resume(self, now_ns: u128) -> (ProducerState, ProducerMove) {
        if self.exhausted(now_ns) {
            self.stop()
        } else {
            (
                ProducerState { phase: ProducerPhase::Reading, ..self },
                ProducerMove::Read { max: CHUNK, timeout_ms: SRC_STALL_RECONNECT_MS },
            )
        }
    }

    /// Closes the connection, unless the source has been without data for too
    /// long.
    pub open spec fn hang_up(self, now_ns: u128) -> (ProducerState, ProducerMove) {
        if self.exhausted(now_ns) {
            self.stop()
        } else {
            (ProducerState { phase: ProducerPhase::Closing, ..self }, ProducerMove::Close)
        }
    }

    /// Reconnects, unless the source has been without data for too long.
    pub open spec fn reconnect(self, now_ns: u128) -> (ProducerState, ProducerMove) {
        if self.exhausted(now_ns) {
            self.stop()
        } else {
            (ProducerState { phase: ProducerPhase::Connecting, ..self }, ProducerMove::Connect)
        }
    }

    /// Ends.
    pub open spec fn stop(self) -> (ProducerState, ProducerMove) {
        (ProducerState { phase: ProducerPhase::Done, ..self }, ProducerMove::Stop)
    }

    /// Processes `data` and sends what comes out of it, if anything does.
    pub open spec fn deliver(self, data: Seq<u8>, since_ns: Option<u128>) -> (
        ProducerState,
        ProducerMove,
    ) {
        (
            ProducerState {
                ts: self.ts.fed(data),
                phase: ProducerPhase::Delivering { since_ns },
                ..self
            },
            if self.ts.output(data).len() > 0 {
                ProducerMove::Send(self.ts.output(data))
            } else {
                ProducerMove::Settle
            },
        )
    }

    /// How a producer begins with the bytes that came behind the headers.
    pub open spec fn begin(leftover: Seq<u8>, now_ns: u128) -> (ProducerState, ProducerMove) {
        let s = ProducerState::fresh(now_ns);
        if leftover.len() > 0 {
            ProducerState {
                last_data_us: micros(now_ns as int),
                bytes_read: leftover.len() as u64,
                ..s
            }.deliver(leftover, None)
        } else {
            s.resume(now_ns)
        }
    }

    /// Whether `e` answers what is waited for.
    pub open spec fn awaits(self, e: ProducerEvent) -> bool {
        match e {
            ProducerEvent::Read { .. } => self.phase is Reading,
            ProducerEvent::ReadFailed { .. } => self.phase is Reading,
            ProducerEvent::Sent { .. } => self.phase is Delivering,
            ProducerEvent::SendFailed => self.phase is Delivering,
            ProducerEvent::Closed => self.phase is Closing,
            ProducerEvent::Connected { .. } => self.phase is Connecting,
            ProducerEvent::ConnectFailed => self.phase is Connecting,
            ProducerEvent::Woke { .. } => self.phase is Pausing,
        }
    }

    /// What `e` leads to.
    pub open spec fn next(self, e: ProducerEvent) -> (ProducerState, ProducerMove) {
        match e {
            ProducerEvent::Read { data, now_ns } => if data@.len() > 0 {
                ProducerState {
                    last_real_ns: now_ns,
                    last_data_us: micros(now_ns as int),
                    bytes_read: self.bytes_read.wrapping_add(data@.len() as u64),
                    ..self
                }.deliver(data@, Some(now_ns))
            } else {
                self.hang_up(now_ns)
            },
            ProducerEvent::ReadFailed { now_ns } => self.hang_up(now_ns),
            ProducerEvent::Sent { now_ns } => {
                let spent = match self.phase {
                    ProducerPhase::Delivering { since_ns: Some(since_ns) } => micros(
                        elapsed(since_ns, now_ns),
                    ),
                    _ => 0,
                };
                ProducerState {
                    blocked_us: self.blocked_us.wrapping_add(spent),
                    ..self
                }.resume(now_ns)
            },
            ProducerEvent::SendFailed => self.stop(),
            ProducerEvent::Closed => (
                ProducerState { phase: ProducerPhase::Connecting, ..self },
                ProducerMove::Connect,
            ),
            ProducerEvent::Connected { leftover, now_ns } => {
                let s = ProducerState { ts: self.ts.marked(), ..self };
                if leftover@.len() > 0 {
                    ProducerState {
                        last_real_ns: now_ns,
                        last_data_us: micros(now_ns as int),
                        ..s
                    }.deliver(leftover@, None)
                } else {
                    s.resume(now_ns)
                }
            },
            ProducerEvent::ConnectFailed => (
                ProducerState { phase: ProducerPhase::Pausing, ..self },
                ProducerMove::Sleep { ms: SRC_RECONNECT_BACKOFF_MS },
            ),
            ProducerEvent::Woke { now_ns } => self.reconnect(now_ns),
        }
    }

    /// What is noticed in the transport stream at `e`.
    pub open spec fn notes(self, e: ProducerEvent) -> Seq<TsEvent> {
        match e {
            ProducerEvent::Read { data, .. } => if data@.len() > 0 {
                self.ts.notes(data@)
            } else {
                Seq::empty()
            },
            ProducerEvent::Connected { leftover, .. } => if leftover@.len() > 0 {
                self.ts.marked().notes(leftover@)
            } else {
                Seq::empty()
            },
            _ => Seq::empty(),
        }
    }
}

/// Whether `e` brings data of the source: by a read, or behind the headers of a
/// new connection.
pub open spec fn brings_data(e: ProducerEvent) -> bool {
    match e {
        ProducerEvent::Read { data, .. } => data@.len() > 0,
        ProducerEvent::Connected { leftover, .. } => leftover@.len() > 0,
        _ => false,
    }
}

/// When `e` happened, if it tells.
pub open spec fn time_of(e: ProducerEvent) -> Option<u128> {
    match e {
        ProducerEvent::Read { now_ns, .. } => Some(now_ns),
        ProducerEvent::ReadFailed { now_ns } => Some(now_ns),
        ProducerEvent::Sent { now_ns } => Some(now_ns),
        ProducerEvent::Connected { now_ns, .. } => Some(now_ns),
        ProducerEvent::Woke { now_ns } => Some(now_ns),
        _ => None,
    }
}

/// The state once the events `es` happened.
pub open spec fn run(s: ProducerState, es: Seq<ProducerEvent>) -> ProducerState
    decreases es.len(),
{
    if es.len() == 0 {
        s
    } else {
        run(s, es.drop_last()).next(es.last()).0
    }
}

/// Whether each of the events `es` answers what is waited for by then.
pub open spec fn is_history(s: ProducerState, es: Seq<ProducerEvent>) -> bool
    decreases es.len(),
{
    es.len() > 0 ==> {
        &&& is_history(s, es.drop_last())
        &&& run(s, es.drop_last()).awaits(es.last())
    }
}

/// Whether a connection that stood before the events `es` was closed in them,
/// and no new one stands behind them.
pub open spec fn is_closed(es: Seq<ProducerEvent>) -> bool
    decreases es.len(),
{
    es.len() > 0 && match es.last() {
        ProducerEvent::Closed => true,
        ProducerEvent::Connected { .. } => false,
        _ => is_closed(es.drop_last()),
    }
}

/// The bytes read in the events `es`.
pub open spec fn received(es: Seq<ProducerEvent>) -> Seq<u8>
    decreases es.len(),
{
    if es.len() == 0 {
        Seq::empty()
    } else {
        match es.last() {
            ProducerEvent::Read { data, .. } => received(es.drop_last()) + data@,
            _ => received(es.drop_last()),
        }
    }
}

/// What the events `es` have done to the transport stream: every read goes in, and
/// every new connection is a discontinuity before its leftover goes in.
pub open spec fn inputs(es: Seq<ProducerEvent>) -> Seq<TsOp>
    decreases es.len(),
{
    if es.len() == 0 {
        Seq::empty()
    } else {
        let front = inputs(es.drop_last());
        match es.last() {
            ProducerEvent::Read { data, .. } => front.push(TsOp::Process(data@)),
            ProducerEvent::Connected { leftover, .. } => front.push(TsOp::Mark).push(
                TsOp::Process(leftover@),
            ),
            _ => front,
        }
    }
}

/// The bytes sent on in answer to the events `es`.
pub open spec fn sent(s: ProducerState, es: Seq<ProducerEvent>) -> Seq<u8>
    decreases es.len(),
{
    if es.len() == 0 {
        Seq::empty()
    } else {
        match run(s, es.drop_last()).next(es.last()).1 {
            ProducerMove::Send(bytes) => sent(s, es.drop_last()) + bytes,
            _ => sent(s, es.drop_last()),
        }
    }
}

/// The reading side of the relay.
pub struct Producer {
    tsp: TsProc,
    last_real_ns: u128,
    last_data_us: u64,
    bytes_read: u64,
    blocked_us: u64,
    phase: ProducerPhase,
}

impl View for Producer {
    type V = ProducerState;

    closed spec fn view(&self) -> ProducerState {
        ProducerState {
            ts: self.tsp@,
            last_real_ns: self.last_real_ns,
            last_data_us: self.last_data_us,
            bytes_read: self.bytes_read,
            blocked_us: self.blocked_us,
            phase: self.phase,
        }
    }
}

impl Producer {
    /// The invariant: that of the transport stream processor.
    pub closed spec fn wf(&self) -> bool {
        self.tsp.wf()
    }

    /// What the latest event made the transport stream processor notice.
    pub closed spec fn noted(&self) -> Seq<TsEvent> {
        self.tsp.noted()
    }

    fn is_exhausted(&self, now_ns: u128) -> (r: bool)
        ensures
            r == self@.exhausted(now_ns),
    {
        now_ns.saturating_sub(self.last_real_ns) > MAX_UNHEALTHY_NS
    }

    fn resume(&mut self, now_ns: u128) -> (action: ProducerAction)
        requires
            old(self).wf(),
        ensures
            final(self).wf(),
            final(self)@ == old(self)@.resume(now_ns).0,
            action@ == old(self)@.resume(now_ns).1,
            final(self).noted() == old(self).noted(),
    {
        if self.is_exhausted(now_ns) {
            self.phase = ProducerPhase::Done;
            return ProducerAction::Stop;
        }
        self.phase = ProducerPhase::Reading;
        ProducerAction::Read { max: CHUNK, timeout_ms: SRC_STALL_RECONNECT_MS }
    }

    fn hang_up(&mut self, now_ns: u128) -> (action: ProducerAction)
        requires
            old(self).wf(),
        ensures
            final(self).wf(),
            final(self)@ == old(self)@.hang_up(now_ns).0,
            action@ == old(self)@.hang_up(now_ns).1,
            final(self).noted() == old(self).noted(),
    {
        if self.is_exhausted(now_ns) {
            self.phase = ProducerPhase::Done;
            return ProducerAction::Stop;
        }
        self.phase = ProducerPhase::Closing;
        ProducerAction::Close
    }

    fn reconnect(&mut self, now_ns: u128) -> (action: ProducerAction)
        requires
            old(self).wf(),
        ensures
            final(self).wf(),
            final(self)@ == old(self)@.reconnect(now_ns).0,
            action@ == old(self)@.reconnect(now_ns).1,
            final(self).noted() == old(self).noted(),
    {
        if self.is_exhausted(now_ns) {
            self.phase = ProducerPhase::Done;
            return ProducerAction::Stop;
        }
        self.phase = ProducerPhase::Connecting;
        ProducerAction::Connect
    }

    fn deliver(&mut self, data: &[u8], since_ns: Option<u128>) -> (action: ProducerAction)
        requires
            old(self).wf(),
        ensures
            final(self).wf(),
            final(self)@ == old(self)@.deliver(data@, since_ns).0,
            action@ == old(self)@.deliver(data@, since_ns).1,
            final(self).noted() == old(self)@.ts.notes(data@),
    {
        let processed = self.tsp.process(data);
        self.phase = ProducerPhase::Delivering { since_ns };
        if processed.is_empty() {
            ProducerAction::Settle
        } else {
            ProducerAction::Send(processed)
        }
    }

    /// Begins with the bytes that came behind the headers of the first answer.
    pub fn start(leftover: &[u8], now_ns: u128) -> (r: (Producer, ProducerAction))
        ensures
            r.0.wf(),
            r.0@ == ProducerState::begin(leftover@, now_ns).0,
            r.1@ == ProducerState::begin(leftover@, now_ns).1,
            r.0.noted() == TsState::fresh().notes(leftover@),
    {
        let mut producer = Producer {
            tsp: TsProc::new(),
            last_real_ns: now_ns,
            last_data_us: 0,
            bytes_read: 0,
            blocked_us: 0,
            phase: ProducerPhase::Reading,
        };
        if leftover.is_empty() {
            assert(Seq::<u8>::empty() + leftover@ =~= Seq::<u8>::empty());
            let action = producer.resume(now_ns);
            return (producer, action);
        }
        producer.bytes_read = leftover.len() as u64;
        producer.last_data_us = us(now_ns);
        let action = producer.deliver(leftover, None);
        (producer, action)
    }

    /// Whether `event` answers what is waited for.
    pub fn awaits(&self, event: &ProducerEvent) -> (r: bool)
        ensures
            r == self@.awaits(*event),
    {
        match event {
            ProducerEvent::Read { .. } => matches!(self.phase, ProducerPhase::Reading),
            ProducerEvent::ReadFailed { .. } => matches!(self.phase, ProducerPhase::Reading),
            ProducerEvent::Sent { .. } => matches!(self.phase, ProducerPhase::Delivering { .. }),
            ProducerEvent::SendFailed => matches!(self.phase, ProducerPhase::Delivering { .. }),
            ProducerEvent::Closed => matches!(self.phase, ProducerPhase::Closing),
            ProducerEvent::Connected { .. } => matches!(self.phase, ProducerPhase::Connecting),
            ProducerEvent::ConnectFailed => matches!(self.phase, ProducerPhase::Connecting),
            ProducerEvent::Woke { .. } => matches!(self.phase, ProducerPhase::Pausing),
        }
    }

    /// Takes the answer to the latest request and says what to do next.
    pub fn step(&mut self, event: ProducerEvent) -> (action: ProducerAction)
        requires
            old(self).wf(),
            old(self)@.awaits(event),
        ensures
            final(self).wf(),
            final(self)@ == old(self)@.next(event).0,
            action@ == old(self)@.next(event).1,
            final(self).noted() == old(self)@.notes(event),
    {
        self.tsp.clear_events();
        match event {
            ProducerEvent::Read { data, now_ns } => {
                if data.is_empty() {
                    return self.hang_up(now_ns);
                }
                self.bytes_read = self.bytes_read.wrapping_add(data.len() as u64);
                self.last_real_ns = now_ns;
                self.last_data_us = us(now_ns);
                self.deliver(data.as_slice(), Some(now_ns))
            },
            ProducerEvent::ReadFailed { now_ns } => self.hang_up(now_ns),
            ProducerEvent::Sent { now_ns } => {
                if let ProducerPhase::Delivering { since_ns: Some(since_ns) } = self.phase {
                    self.blocked_us = self.blocked_us.wrapping_add(elapsed_us(since_ns, now_ns));
                }
                self.resume(now_ns)
            },
            ProducerEvent::SendFailed => {
                self.phase = ProducerPhase::Done;
                ProducerAction::Stop
            },
            ProducerEvent::Closed => {
                self.phase = ProducerPhase::Connecting;
                ProducerAction::Connect
            },
            ProducerEvent::Connected { leftover, now_ns } => {
                self.tsp.mark_discontinuity();
                if leftover.is_empty() {
                    return self.resume(now_ns);
                }
                self.last_real_ns = now_ns;
                self.last_data_us = us(now_ns);
                self.deliver(leftover.as_slice(), None)
            },
            ProducerEvent::ConnectFailed => {
                self.phase = ProducerPhase::Pausing;
                ProducerAction::Sleep { ms: SRC_RECONNECT_BACKOFF_MS }
            },
            ProducerEvent::Woke { now_ns } => self.reconnect(now_ns),
        }
    }

    /// What the latest event made the transport stream processor notice.
    pub fn events(&self) -> (r: &Vec<TsEvent>)
        ensures
            r@ == self.noted(),
    {
        self.tsp.events()
    }

    /// When the source last brought data, in microseconds; 0 before any.
    pub fn last_data_us(&self) -> (r: u64)
        ensures
            r == self@.last_data_us,
    {
        self.last_data_us
    }

    /// The bytes read, modulo 2 to the 64.
    pub fn bytes_read(&self) -> (r: u64)
        ensures
            r == self@.bytes_read,
    {
        self.bytes_read
    }

    /// The microseconds spent on processing and on the queue, modulo 2 to the 64.
    pub fn blocked_us(&self) -> (r: u64)
        ensures
            r == self@.blocked_us,
    {
        self.blocked_us
    }
}

/// The producer ends only when the queue is closed or when the source brought no
/// data for more than the time allowed.
pub proof fn lemma_stop_reason(s: ProducerState, e: ProducerEvent)
    requires
        s.next(e).1 is Stop,
    ensures
        e is SendFailed || {
            &&& time_of(e) is Some
            &&& s.exhausted(time_of(e)->0)
            &&& !brings_data(e)
        },
{
}

/// Once the source brought no data for more than the time allowed, the producer
/// ends at the next event that tells the time without bringing data.
pub proof fn lemma_gives_up(s: ProducerState, e: ProducerEvent)
    requires
        time_of(e) is Some,
        s.exhausted(time_of(e)->0),
        !brings_data(e),
    ensures
        s.next(e).1 is Stop,
        s.next(e).0.phase is Done,
{
}

/// Only data of the source extends the time allowed, and only data of the source
/// ends its silence: stalls, failed connections and connections that bring nothing
/// do neither.
pub proof fn lemma_silence(s: ProducerState, es: Seq<ProducerEvent>)
    requires
        forall|i: int| 0 <= i < es.len() ==> !brings_data(#[trigger] es[i]),
    ensures
        run(s, es).last_real_ns == s.last_real_ns,
        run(s, es).last_data_us == s.last_data_us,
    decreases es.len(),
{
    if es.len() > 0 {
        let front = es.drop_last();
        assert forall|i: int| 0 <= i < front.len() implies !brings_data(#[trigger] front[i]) by {
            assert(front[i] == es[i]);
        }
        lemma_silence(s, front);
        assert(!brings_data(es[es.len() - 1]));
    }
}

/// The time allowed starts anew with all data of the source, whether a read or a
/// new connection brought it, and runs from the latest such data on.
pub proof fn lemma_budget(
    s: ProducerState,
    e: ProducerEvent,
    es: Seq<ProducerEvent>,
    now_ns: u128,
)
    requires
        brings_data(e),
        forall|i: int| 0 <= i < es.len() ==> !brings_data(#[trigger] es[i]),
    ensures
        run(s.next(e).0, es).exhausted(now_ns) <==> now_ns - time_of(e)->0 > MAX_UNHEALTHY_NS,
{
    lemma_silence(s.next(e).0, es);
}

/// A read without data and a failed read close the connection; then comes a new
/// connection, and another at the end of each pause; a failed connection leads
/// to a pause. So it goes as long as time is left.
pub proof fn lemma_reconnects(s: ProducerState, now_ns: u128, data: Vec<u8>)
    requires
        !s.exhausted(now_ns),
        data@.len() == 0,
    ensures
        s.next(ProducerEvent::Read { data, now_ns }).1 is Close,
        s.next(ProducerEvent::ReadFailed { now_ns }).1 is Close,
        s.next(ProducerEvent::Closed).1 is Connect,
        s.next(ProducerEvent::Woke { now_ns }).1 is Connect,
        s.next(ProducerEvent::ConnectFailed).1 == (ProducerMove::Sleep {
            ms: SRC_RECONNECT_BACKOFF_MS,
        }),
{
}

/// Whenever a new connection is asked for, the one before is closed.
pub proof fn lemma_closed_before_connecting(s: ProducerState, es: Seq<ProducerEvent>)
    requires
        s.phase is Reading || s.phase is Delivering,
        is_history(s, es),
    ensures
        run(s, es).phase is Connecting ==> is_closed(es),
        es.len() > 0 && run(s, es.drop_last()).next(es.last()).1 is Connect ==> is_closed(es),
{
    lemma_open_while_in_use(s, es);
}

proof fn lemma_open_while_in_use(s: ProducerState, es: Seq<ProducerEvent>)
    requires
        s.phase is Reading || s.phase is Delivering,
        is_history(s, es),
    ensures
        run(s, es).phase is Connecting || run(s, es).phase is Pausing ==> is_closed(es),
    decreases es.len(),
{
    if es.len() > 0 {
        lemma_open_while_in_use(s, es.drop_last());
    }
}

/// A new connection is a discontinuity of the stream: what came behind its
/// headers is processed as such.
pub proof fn lemma_connected_marks(s: ProducerState, leftover: Vec<u8>, now_ns: u128)
    ensures
        ({
            let n = s.next(ProducerEvent::Connected { leftover, now_ns });
            &&& leftover@.len() == 0 ==> n.0.ts == s.ts.marked()
            &&& leftover@.len() > 0 ==> n.0.ts == s.ts.marked().fed(leftover@)
            &&& n.1 matches ProducerMove::Send(b) ==> b == s.ts.marked().output(leftover@)
            &&& leftover@.len() > 0 && s.ts.marked().output(leftover@).len() > 0 ==> n.1
                == ProducerMove::Send(s.ts.marked().output(leftover@))
        }),
{
}

/// Whatever is sent is a row of whole packets, and never empty.
pub proof fn lemma_sends_row(s: ProducerState, e: ProducerEvent)
    ensures
        s.next(e).1 matches ProducerMove::Send(b) ==> b.len() > 0 && is_packet_row(b),
{
    match e {
        ProducerEvent::Read { data, .. } => lemma_output_row(s.ts, data@),
        ProducerEvent::Connected { leftover, .. } => lemma_output_row(s.ts.marked(), leftover@),
        _ => {},
    }
}

/// What a producer begins with is a row of whole packets, and never empty.
pub proof fn lemma_begins_row(l: Seq<u8>, now_ns: u128)
    ensures
        ProducerState::begin(l, now_ns).1 matches ProducerMove::Send(b) ==> b.len() > 0
            && is_packet_row(b),
{
    lemma_output_row(TsState::fresh(), l);
}

/// Between two connections, what is sent is what the processor makes of the
/// bytes read, whatever the sizes of the reads were.
pub proof fn lemma_sent_is_processed(s: ProducerState, es: Seq<ProducerEvent>)
    requires
        s.ts.valid(),
        forall|i: int| 0 <= i < es.len() ==> !(#[trigger] es[i] is Connected),
    ensures
        run(s, es).ts == s.ts.fed(received(es)),
        sent(s, es) == s.ts.output(received(es)),
    decreases es.len(),
{
    if es.len() == 0 {
        lemma_chunking(s.ts, Seq::empty());
    } else {
        let front = es.drop_last();
        assert forall|i: int| 0 <= i < front.len() implies !(#[trigger] front[i] is Connected) by {
            assert(front[i] == es[i]);
        }
        lemma_sent_is_processed(s, front);
        assert(!(es[es.len() - 1] is Connected));
        match es.last() {
            ProducerEvent::Read { data, .. } => {
                if data@.len() > 0 {
                    lemma_feed_append(s.ts, received(front), data@);
                    assert(sent(s, front) + Seq::<u8>::empty() =~= sent(s, front));
                } else {
                    assert(received(front) + data@ =~= received(front));
                }
            },
            _ => {},
        }
    }
}

/// With what it began with, a producer sends what a new processor makes of all
/// the bytes from behind the headers on, until the first new connection.
pub proof fn lemma_first_connection(l: Seq<u8>, now_ns: u128, es: Seq<ProducerEvent>)
    requires
        forall|i: int| 0 <= i < es.len() ==> !(#[trigger] es[i] is Connected),
    ensures
        ({
            let begin = ProducerState::begin(l, now_ns);
            let first = match begin.1 {
                ProducerMove::Send(bytes) => bytes,
                _ => Seq::empty(),
            };
            first + sent(begin.0, es) == TsState::fresh().output(l + received(es))
        }),
{
    let begin = ProducerState::begin(l, now_ns);
    if l.len() > 0 {
        lemma_fed_valid(TsState::fresh(), l);
        lemma_feed_append(TsState::fresh(), l, received(es));
        if TsState::fresh().output(l).len() == 0 {
            assert(TsState::fresh().output(l) =~= Seq::<u8>::empty());
        }
    } else {
        assert(l + received(es) =~= received(es));
        assert(Seq::<u8>::empty() + sent(begin.0, es) =~= sent(begin.0, es));
    }
    lemma_sent_is_processed(begin.0, es);
}

/// The bytes counted as read are those that reads brought, modulo 2 to the 64.
pub proof fn lemma_bytes_read(s: ProducerState, es: Seq<ProducerEvent>)
    ensures
        run(s, es).bytes_read == (s.bytes_read + received(es).len()) % 0x1_0000_0000_0000_0000,
    decreases es.len(),
{
    if es.len() > 0 {
        lemma_bytes_read(s, es.drop_last());
        if let ProducerEvent::Read { data, .. } = es.last() {
            assert(data@.len() == data.len());
        }
    }
}

/// Events that happen in two batches lead to the same state, and make the same
/// bytes be sent, as in one.
pub proof fn lemma_run_append(s: ProducerState, a: Seq<ProducerEvent>, b: Seq<ProducerEvent>)
    ensures
        run(s, a + b) == run(run(s, a), b),
        sent(s, a + b) == sent(s, a) + sent(run(s, a), b),
    decreases b.len(),
{
    if b.len() == 0 {
        assert(a + b =~= a);
        assert(sent(s, a) + Seq::<u8>::empty() =~= sent(s, a));
    } else {
        let front = b.drop_last();
        assert((a + b).drop_last() =~= a + front);
        lemma_run_append(s, a, front);
        if let ProducerMove::Send(bytes) = run(s, a + front).next(b.last()).1 {
            assert(sent(s, a) + sent(run(s, a), front) + bytes =~= sent(s, a) + (sent(
                run(s, a),
                front,
            ) + bytes));
        }
    }
}

/// Over any number of connections, everything that the processor puts out for the
/// bytes of the source is sent, in order, and nothing else; each new connection is
/// marked before its first byte.
pub proof fn lemma_sent_over_connections(s: ProducerState, es: Seq<ProducerEvent>)
    requires
        s.ts.valid(),
    ensures
        run(s, es).ts.valid(),
        run(s, es).ts == s.ts.done_all(inputs(es)),
        sent(s, es) == s.ts.put_out_all(inputs(es)),
    decreases es.len(),
{
    if es.len() > 0 {
        let front = es.drop_last();
        let ops = inputs(front);
        lemma_sent_over_connections(s, front);
        let ts = run(s, front).ts;
        let before = sent(s, front);
        assert(before + Seq::<u8>::empty() =~= before);
        match es.last() {
            ProducerEvent::Read { data, .. } => {
                let op = TsOp::Process(data@);
                assert(ops.push(op).drop_last() =~= ops);
                lemma_fed_valid(ts, data@);
                if data@.len() == 0 {
                    assert(data@ =~= Seq::<u8>::empty());
                    lemma_feed_nothing(ts);
                } else if ts.output(data@).len() == 0 {
                    assert(ts.output(data@) =~= Seq::<u8>::empty());
                }
            },
            ProducerEvent::Connected { leftover, .. } => {
                let op = TsOp::Process(leftover@);
                let marked = ops.push(TsOp::Mark);
                assert(marked.drop_last() =~= ops);
                assert(marked.push(op).drop_last() =~= marked);
                assert(s.ts.done_all(marked) == ts.marked());
                assert(s.ts.put_out_all(marked) =~= before);
                lemma_fed_valid(ts.marked(), leftover@);
                if leftover@.len() == 0 {
                    assert(leftover@ =~= Seq::<u8>::empty());
                    lemma_feed_nothing(ts.marked());
                } else if ts.marked().output(leftover@).len() == 0 {
                    assert(ts.marked().output(leftover@) =~= Seq::<u8>::empty());
                }
            },
            _ => {},
        }
    }
}

/// An action and what is said of it name the same request with the same figures.
pub proof fn lemma_action(max: usize, timeout_ms: u64, ms: u64, bytes: Vec<u8>)
    ensures
        (ProducerAction::Read { max, timeout_ms })@ == (ProducerMove::Read { max, timeout_ms }),
        ProducerAction::Send(bytes)@ == ProducerMove::Send(bytes@),
        ProducerAction::Settle@ == ProducerMove::Settle,
        ProducerAction::Close@ == ProducerMove::Close,
        ProducerAction::Connect@ == ProducerMove::Connect,
        (ProducerAction::Sleep { ms })@ == (ProducerMove::Sleep { ms }),
        ProducerAction::Stop@ == ProducerMove::Stop,
{
}

/// Each event answers the one request that it belongs to.
pub proof fn lemma_awaits(s: ProducerState, e: ProducerEvent)
    ensures
        s.awaits(e) <==> match s.phase {
            ProducerPhase::Reading => e is Read || e is ReadFailed,
            ProducerPhase::Delivering { .. } => e is Sent || e is SendFailed,
            ProducerPhase::Closing => e is Closed,
            ProducerPhase::Connecting => e is Connected || e is ConnectFailed,
            ProducerPhase::Pausing => e is Woke,
            ProducerPhase::Done => false,
        },
{
}

/// The time allowed is over once more than 15 000 000 000 nanoseconds have passed
/// since the source last brought data, and not before.
pub proof fn lemma_exhausted(s: ProducerState, now_ns: u128)
    ensures
        s.exhausted(now_ns) <==> now_ns > s.last_real_ns + 15_000_000_000,
{
}

/// How a producer begins: the leftover of the first connection, if there is any,
/// is counted, goes into a new processor, and all that comes out is sent; without
/// one, or once it was dealt with, up to 32 768 bytes are read within 5 seconds.
pub proof fn lemma_on_start(leftover: Seq<u8>, now_ns: u128)
    ensures
        ({
            let (n, action) = ProducerState::begin(leftover, now_ns);
            let out = TsState::fresh().output(leftover);
            &&& n.last_real_ns == now_ns
            &&& n.blocked_us == 0
            &&& n.bytes_read == leftover.len() as u64
            &&& n.ts == TsState::fresh().fed(leftover)
            &&& leftover.len() == 0 ==> {
                &&& action == ProducerMove::Read { max: 32_768, timeout_ms: 5_000 }
                &&& n.phase is Reading
                &&& n.last_data_us == 0
            }
            &&& leftover.len() > 0 ==> {
                &&& action == if out.len() > 0 {
                    ProducerMove::Send(out)
                } else {
                    ProducerMove::Settle
                }
                &&& n.phase == ProducerPhase::Delivering { since_ns: None }
                &&& n.last_data_us == micros(now_ns as int)
            }
        }),
{
    if leftover.len() == 0 {
        assert(leftover =~= Seq::<u8>::empty());
        lemma_feed_nothing(TsState::fresh());
    }
}

/// What data that was read does: it is counted, ends the silence, goes into the
/// processor, and all that comes out is sent; if nothing does, nothing is.
pub proof fn lemma_on_data(s: ProducerState, data: Vec<u8>, now_ns: u128)
    requires
        data@.len() > 0,
    ensures
        ({
            let (n, action) = s.next(ProducerEvent::Read { data, now_ns });
            let out = s.ts.output(data@);
            &&& out.len() > 0 ==> action == ProducerMove::Send(out)
            &&& out.len() == 0 ==> action == ProducerMove::Settle
            &&& n.ts == s.ts.fed(data@)
            &&& n.phase == ProducerPhase::Delivering { since_ns: Some(now_ns) }
            &&& n.last_real_ns == now_ns
            &&& n.last_data_us == micros(now_ns as int)
            &&& n.bytes_read == (s.bytes_read + data@.len()) % 0x1_0000_0000_0000_0000
            &&& n.blocked_us == s.blocked_us
        }),
{
    assert(data@.len() == data.len());
}

/// What the end of the stream and a failed read do: within 15 seconds of the last
/// data the connection is closed, later the producer ends. Nothing else changes.
pub proof fn lemma_on_stall(s: ProducerState, data: Vec<u8>, now_ns: u128)
    requires
        data@.len() == 0,
    ensures
        ({
            let n = s.next(ProducerEvent::ReadFailed { now_ns });
            &&& n == s.next(ProducerEvent::Read { data, now_ns })
            &&& now_ns > s.last_real_ns + 15_000_000_000 ==> n == (
                ProducerState { phase: ProducerPhase::Done, ..s },
                ProducerMove::Stop,
            )
            &&& now_ns <= s.last_real_ns + 15_000_000_000 ==> n == (
                ProducerState { phase: ProducerPhase::Closing, ..s },
                ProducerMove::Close,
            )
        }),
{
}

/// What a send that succeeds does: where a read had brought the data, the whole
/// microseconds since then are counted; then, within 15 seconds of the last data,
/// up to 32 768 bytes are read within 5 seconds, and later the producer ends. A
/// send that fails ends it at once.
pub proof fn lemma_on_sent(s: ProducerState, now_ns: u128)
    ensures
        ({
            let (n, action) = s.next(ProducerEvent::Sent { now_ns });
            &&& n.ts == s.ts
            &&& n.last_real_ns == s.last_real_ns
            &&& n.last_data_us == s.last_data_us
            &&& n.bytes_read == s.bytes_read
            &&& match s.phase {
                ProducerPhase::Delivering { since_ns: Some(since_ns) } => n.blocked_us == (
                s.blocked_us + micros(elapsed(since_ns, now_ns))) % 0x1_0000_0000_0000_0000,
                _ => n.blocked_us == s.blocked_us,
            }
            &&& now_ns > s.last_real_ns + 15_000_000_000 ==> action is Stop && n.phase is Done
            &&& now_ns <= s.last_real_ns + 15_000_000_000 ==> {
                &&& action == ProducerMove::Read { max: 32_768, timeout_ms: 5_000 }
                &&& n.phase is Reading
            }
        }),
        s.next(ProducerEvent::SendFailed) == (
            ProducerState { phase: ProducerPhase::Done, ..s },
            ProducerMove::Stop,
        ),
{
}

/// What a closed connection, a failed connection and the end of a pause do: a new
/// connection, a pause of 2 seconds, and a new connection again unless more than
/// 15 seconds have passed since the last data. Nothing else changes.
pub proof fn lemma_on_retry(s: ProducerState, now_ns: u128)
    ensures
        s.next(ProducerEvent::Closed) == (
            ProducerState { phase: ProducerPhase::Connecting, ..s },
            ProducerMove::Connect,
        ),
        s.next(ProducerEvent::ConnectFailed) == (
            ProducerState { phase: ProducerPhase::Pausing, ..s },
            ProducerMove::Sleep { ms: 2_000 },
        ),
        s.next(ProducerEvent::Woke { now_ns }) == if now_ns > s.last_real_ns + 15_000_000_000 {
            (ProducerState { phase: ProducerPhase::Done, ..s }, ProducerMove::Stop)
        } else {
            (ProducerState { phase: ProducerPhase::Connecting, ..s }, ProducerMove::Connect)
        },
{
}

/// What a new connection does: it is a discontinuity. Its leftover, if there is
/// any, ends the silence, goes into the processor behind the mark, and all that
/// comes out is sent, whatever its length; if nothing does, nothing is. Without a
/// leftover the source is read, unless more than 15 seconds have passed since the
/// last data. The bytes read and the time blocked are not counted up.
pub proof fn lemma_on_connected(s: ProducerState, leftover: Vec<u8>, now_ns: u128)
    ensures
        ({
            let (n, action) = s.next(ProducerEvent::Connected { leftover, now_ns });
            let out = s.ts.marked().output(leftover@);
            &&& n.bytes_read == s.bytes_read
            &&& n.blocked_us == s.blocked_us
            &&& leftover@.len() > 0 ==> {
                &&& out.len() > 0 ==> action == ProducerMove::Send(out)
                &&& out.len() == 0 ==> action == ProducerMove::Settle
                &&& n.ts == s.ts.marked().fed(leftover@)
                &&& n.phase == ProducerPhase::Delivering { since_ns: None }
                &&& n.last_real_ns == now_ns
                &&& n.last_data_us == micros(now_ns as int)
            }
            &&& leftover@.len() == 0 ==> {
                &&& n.ts == s.ts.marked()
                &&& n.last_real_ns == s.last_real_ns
                &&& n.last_data_us == s.last_data_us
                &&& now_ns > s.last_real_ns + 15_000_000_000 ==> action is Stop && n.phase is Done
                &&& now_ns <= s.last_real_ns + 15_000_000_000 ==> {
                    &&& action == ProducerMove::Read { max: 32_768, timeout_ms: 5_000 }
                    &&& n.phase is Reading
                }
            }
        }),
{
}

/// What is noticed is what the processor notices in the bytes of a read, or in the
/// leftover of a new connection behind its mark; other events bring nothing.
pub proof fn lemma_on_notes(s: ProducerState, e: ProducerEvent)
    requires
        s.ts.valid(),
    ensures
        s.notes(e) == match e {
            ProducerEvent::Read { data, .. } => s.ts.notes(data@),
            ProducerEvent::Connected { leftover, .. } => s.ts.marked().notes(leftover@),
            _ => Seq::empty(),
        },
{
    match e {
        ProducerEvent::Read { data, .. } => {
            if data@.len() == 0 {
                assert(data@ =~= Seq::<u8>::empty());
                lemma_feed_nothing(s.ts);
            }
        },
        ProducerEvent::Connected { leftover, .. } => {
            if leftover@.len() == 0 {
                assert(leftover@ =~= Seq::<u8>::empty());
                lemma_feed_nothing(s.ts.marked());
            }
        },
        _ => {},
    }
}

/// Two chunks at most wait between the producer and the consumer.
pub proof fn lemma_queue_depth()
    ensures
        QUEUE_DEPTH == 2,
{
}

} // verus!
