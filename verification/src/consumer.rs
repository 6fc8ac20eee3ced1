//! The writing side of the relay: what goes to the output and when it is padded.
//!
//! The consumer asks for one thing at a time with a [`ConsumerAction`] and is
//! told how that went with a [`ConsumerEvent`].

use crate::framing::{is_packet_row, lemma_row_append, lemma_row_single};
use crate::packet::{lemma_null_packet, make_null, null_packet, PACKET_LEN};
use crate::producer;
use vstd::prelude::*;

verus! {

/// How long the queue may stay empty before the consumer looks at the source.
pub const STALL_READ_GAP_MS: u64 = 500;

/// How long the source may stay silent before the output is padded.
pub const STALE_DATA_MS: u64 = 1500;

/// The largest output pipe that is asked for, in bytes.
pub const LARGEST_PIPE: u32 = 8 * 1024 * 1024;

/// The smallest output pipe that is asked for, in bytes.
pub const SMALLEST_PIPE: u32 = 1024 * 1024;

/// How a request of the consumer went.
pub enum ConsumerEvent {
    /// The output pipe was resized.
    PipeGranted,
    /// The output pipe was not resized.
    PipeDenied,
    /// A chunk came out of the queue.
    Data(Vec<u8>),
    /// The queue stayed empty; the source last brought data at `last_data_us`.
    Timeout { now_us: u64, last_data_us: u64 },
    /// The queue is empty and closed.
    Disconnected,
    /// The bytes were written.
    Written,
    /// The output is closed.
    WriteFailed,
}

/// What the consumer asks for.
#[derive(Debug, PartialEq, Eq)]
pub enum ConsumerAction {
    /// Resize the output pipe.
    ResizePipe { bytes: u32 },
    /// Take the next chunk from the queue, waiting at most `timeout_ms`.
    Receive { timeout_ms: u64 },
    /// Write all of the bytes.
    Write(Vec<u8>),
    /// End.
    Stop,
}

/// What the consumer waits for.
#[derive(Clone, Copy, Debug, PartialEq, Eq)]
pub enum ConsumerPhase {
    /// For the output pipe to be resized to `bytes`.
    Sizing { bytes: u32 },
    /// For a chunk.
    Receiving,
    /// For `len` bytes of a chunk to be written.
    Forwarding { len: u64 },
    /// For a NULL packet to be written.
    Padding,
    /// For nothing any more.
    Done,
}

/// A [`ConsumerAction`] with the bytes as a sequence.
pub enum ConsumerMove {
    ResizePipe { bytes: u32 },
    Receive { timeout_ms: u64 },
    Write(Seq<u8>),
    Stop,
}

impl View for ConsumerAction {
    type V = ConsumerMove;

    open spec fn view(&self) -> ConsumerMove {
        match self {
            ConsumerAction::ResizePipe { bytes } => ConsumerMove::ResizePipe { bytes: *bytes },
            ConsumerAction::Receive { timeout_ms } => ConsumerMove::Receive {
                timeout_ms: *timeout_ms,
            },
            ConsumerAction::Write(bytes) => ConsumerMove::Write(bytes@),
            ConsumerAction::Stop => ConsumerMove::Stop,
        }
    }
}

/// The whole milliseconds for which the source has been silent.
pub open spec fn silent_ms(now_us: u64, last_data_us: u64) -> int {
    if now_us > last_data_us {
        (now_us - last_data_us) / 1000
    } else {
        0
    }
}

/// The whole milliseconds for which the source has been silent, if that is long
/// enough for the output to be padded.
pub fn stale_ms(now_us: u64, last_data_us: u64) -> (r: Option<u64>)
    ensures
        r == (if silent_ms(now_us, last_data_us) > STALE_DATA_MS {
            Some(silent_ms(now_us, last_data_us) as u64)
        } else {
            None
        }),
        r is Some <==> now_us >= last_data_us + 1_501_000,
{
    let gap_ms: u64 = now_us.saturating_sub(last_data_us) / 1000;
    if gap_ms > STALE_DATA_MS {
        Some(gap_ms)
    } else {
        None
    }
}

/// What a consumer remembers between events.
pub struct ConsumerState {
    /// The bytes of chunks written, modulo 2 to the 64.
    pub bytes_written: u64,
    /// What is waited for.
    pub phase: ConsumerPhase,
}

impl ConsumerState {
    /// A consumer begins by asking for the largest output pipe.
    pub open spec fn begin() -> (ConsumerState, ConsumerMove) {
        ConsumerState { bytes_written: 0, phase: ConsumerPhase::Done }.size(LARGEST_PIPE)
    }

    /// Asks for an output pipe.
    pub open spec fn size(self, bytes: u32) -> (ConsumerState, ConsumerMove) {
        (
            ConsumerState { phase: ConsumerPhase::Sizing { bytes }, ..self },
            ConsumerMove::ResizePipe { bytes },
        )
    }

    /// Waits for the next chunk.
    pub open spec fn receive(self) -> (ConsumerState, ConsumerMove) {
        (
            ConsumerState { phase: ConsumerPhase::Receiving, ..self },
            ConsumerMove::Receive { timeout_ms: STALL_READ_GAP_MS },
        )
    }

    /// Ends.
    pub open spec fn stop(self) -> (ConsumerState, ConsumerMove) {
        (ConsumerState { phase: ConsumerPhase::Done, ..self }, ConsumerMove::Stop)
    }

    /// Whether `e` answers what is waited for.
    pub open spec fn awaits(self, e: ConsumerEvent) -> bool {
        match e {
            ConsumerEvent::PipeGranted => self.phase is Sizing,
            ConsumerEvent::PipeDenied => self.phase is Sizing,
            ConsumerEvent::Data(_) => self.phase is Receiving,
            ConsumerEvent::Timeout { .. } => self.phase is Receiving,
            ConsumerEvent::Disconnected => self.phase is Receiving,
            ConsumerEvent::Written => self.phase is Forwarding || self.phase is Padding,
            ConsumerEvent::WriteFailed => self.phase is Forwarding || self.phase is Padding,
        }
    }

    /// What `e` leads to.
    pub open spec fn next(self, e: ConsumerEvent) -> (ConsumerState, ConsumerMove) {
        match e {
            ConsumerEvent::PipeGranted => self.receive(),
            ConsumerEvent::PipeDenied => match self.phase {
                ConsumerPhase::Sizing { bytes } => if bytes / 2 >= SMALLEST_PIPE {
                    self.size((bytes / 2) as u32)
                } else {
                    self.receive()
                },
                _ => self.receive(),
            },
            ConsumerEvent::Data(bytes) => (
                ConsumerState {
                    phase: ConsumerPhase::Forwarding { len: bytes@.len() as u64 },
                    ..self
                },
                ConsumerMove::Write(bytes@),
            ),
            ConsumerEvent::Timeout { now_us, last_data_us } => if silent_ms(now_us, last_data_us)
                > STALE_DATA_MS {
                (
                    ConsumerState { phase: ConsumerPhase::Padding, ..self },
                    ConsumerMove::Write(null_packet()),
                )
            } else {
                self.receive()
            },
            ConsumerEvent::Disconnected => self.stop(),
            ConsumerEvent::Written => match self.phase {
                ConsumerPhase::Forwarding { len } => ConsumerState {
                    bytes_written: self.bytes_written.wrapping_add(len),
                    ..self
                }.receive(),
                _ => self.receive(),
            },
            ConsumerEvent::WriteFailed => self.stop(),
        }
    }
}

/// The state once the events `es` happened.
pub open spec fn run(s: ConsumerState, es: Seq<ConsumerEvent>) -> ConsumerState
    decreases es.len(),
{
    if es.len() == 0 {
        s
    } else {
        run(s, es.drop_last()).next(es.last()).0
    }
}

/// What goes to the output in answer to the events `es`.
pub open spec fn written(s: ConsumerState, es: Seq<ConsumerEvent>) -> Seq<u8>
    decreases es.len(),
{
    if es.len() == 0 {
        Seq::empty()
    } else {
        match run(s, es.drop_last()).next(es.last()).1 {
            ConsumerMove::Write(bytes) => written(s, es.drop_last()) + bytes,
            _ => written(s, es.drop_last()),
        }
    }
}

/// The chunks in the events `es`, joined.
pub open spec fn payload(es: Seq<ConsumerEvent>) -> Seq<u8>
    decreases es.len(),
{
    if es.len() == 0 {
        Seq::empty()
    } else {
        match es.last() {
            ConsumerEvent::Data(bytes) => payload(es.drop_last()) + bytes@,
            _ => payload(es.drop_last()),
        }
    }
}

/// Whether each of the events `es` answers what is waited for by then.
pub open spec fn is_history(s: ConsumerState, es: Seq<ConsumerEvent>) -> bool
    decreases es.len(),
{
    es.len() > 0 ==> {
        &&& is_history(s, es.drop_last())
        &&& run(s, es.drop_last()).awaits(es.last())
    }
}

/// Whether `e` finds the source silent for too long.
pub open spec fn is_stale(e: ConsumerEvent) -> bool {
    e matches ConsumerEvent::Timeout { now_us, last_data_us } && silent_ms(now_us, last_data_us)
        > STALE_DATA_MS
}

/// Whether `bytes` was sent by a producer that began at `start_ns` with
/// `leftover`: at once, or in answer to one of the events `pes`.
pub open spec fn was_sent(
    leftover: Seq<u8>,
    start_ns: u128,
    pes: Seq<producer::ProducerEvent>,
    bytes: Seq<u8>,
) -> bool {
    let begin = producer::ProducerState::begin(leftover, start_ns);
    ||| begin.1 == producer::ProducerMove::Send(bytes)
    ||| exists|j: int|
        0 <= j < pes.len() && #[trigger] producer::run(begin.0, pes.take(j)).next(pes[j]).1
            == producer::ProducerMove::Send(bytes)
}

/// What goes to the output in answer to the events `es`, but for what answers a
/// timeout.
pub open spec fn unpadded(s: ConsumerState, es: Seq<ConsumerEvent>) -> Seq<u8>
    decreases es.len(),
{
    if es.len() == 0 {
        Seq::empty()
    } else {
        let front = unpadded(s, es.drop_last());
        match run(s, es.drop_last()).next(es.last()).1 {
            ConsumerMove::Write(bytes) => if es.last() is Timeout {
                front
            } else {
                front + bytes
            },
            _ => front,
        }
    }
}

/// How many of the events `es` find the source silent for too long.
pub open spec fn stale_count(es: Seq<ConsumerEvent>) -> nat
    decreases es.len(),
{
    if es.len() == 0 {
        0
    } else if is_stale(es.last()) {
        stale_count(es.drop_last()) + 1
    } else {
        stale_count(es.drop_last())
    }
}

/// The writing side of the relay.
pub struct Consumer {
    bytes_written: u64,
    phase: ConsumerPhase,
}

impl View for Consumer {
    type V = ConsumerState;

    closed spec fn view(&self) -> ConsumerState {
        ConsumerState { bytes_written: self.bytes_written, phase: self.phase }
    }
}

impl Consumer {
    fn receive(&mut self) -> (action: ConsumerAction)
        ensures
            final(self)@ == old(self)@.receive().0,
            action@ == old(self)@.receive().1,
    {
        self.phase = ConsumerPhase::Receiving;
        ConsumerAction::Receive { timeout_ms: STALL_READ_GAP_MS }
    }

    /// Begins.
    pub fn start() -> (r: (Consumer, ConsumerAction))
        ensures
            r.0@ == ConsumerState::begin().0,
            r.1@ == ConsumerState::begin().1,
    {
        (
            Consumer { bytes_written: 0, phase: ConsumerPhase::Sizing { bytes: LARGEST_PIPE } },
            ConsumerAction::ResizePipe { bytes: LARGEST_PIPE },
        )
    }

    /// Whether `event` answers what is waited for.
    pub fn awaits(&self, event: &ConsumerEvent) -> (r: bool)
        ensures
            r == self@.awaits(*event),
    {
        match event {
            ConsumerEvent::PipeGranted => matches!(self.phase, ConsumerPhase::Sizing { .. }),
            ConsumerEvent::PipeDenied => matches!(self.phase, ConsumerPhase::Sizing { .. }),
            ConsumerEvent::Data(_) => matches!(self.phase, ConsumerPhase::Receiving),
            ConsumerEvent::Timeout { .. } => matches!(self.phase, ConsumerPhase::Receiving),
            ConsumerEvent::Disconnected => matches!(self.phase, ConsumerPhase::Receiving),
            ConsumerEvent::Written | ConsumerEvent::WriteFailed => match self.phase {
                ConsumerPhase::Forwarding { .. } => true,
                ConsumerPhase::Padding => true,
                _ => false,
            },
        }
    }

    /// Takes the answer to the latest request and says what to do next.
    pub fn step(&mut self, event: ConsumerEvent) -> (action: ConsumerAction)
        requires
            old(self)@.awaits(event),
        ensures
            final(self)@ == old(self)@.next(event).0,
            action@ == old(self)@.next(event).1,
    {
        match event {
            ConsumerEvent::PipeGranted => self.receive(),
            ConsumerEvent::PipeDenied => {
                if let ConsumerPhase::Sizing { bytes } = self.phase {
                    if bytes / 2 >= SMALLEST_PIPE {
                        self.phase = ConsumerPhase::Sizing { bytes: bytes / 2 };
                        return ConsumerAction::ResizePipe { bytes: bytes / 2 };
                    }
                }
                self.receive()
            },
            ConsumerEvent::Data(bytes) => {
                self.phase = ConsumerPhase::Forwarding { len: bytes.len() as u64 };
                ConsumerAction::Write(bytes)
            },
            ConsumerEvent::Timeout { now_us, last_data_us } => {
                if stale_ms(now_us, last_data_us).is_some() {
                    self.phase = ConsumerPhase::Padding;
                    ConsumerAction::Write(make_null())
                } else {
                    self.receive()
                }
            },
            ConsumerEvent::Disconnected | ConsumerEvent::WriteFailed => {
                self.phase = ConsumerPhase::Done;
                ConsumerAction::Stop
            },
            ConsumerEvent::Written => {
                if let ConsumerPhase::Forwarding { len } = self.phase {
                    self.bytes_written = self.bytes_written.wrapping_add(len);
                }
                self.receive()
            },
        }
    }

    /// The bytes of chunks written, modulo 2 to the 64. NULL packets do not count.
    pub fn bytes_written(&self) -> (r: u64)
        ensures
            r == self@.bytes_written,
    {
        self.bytes_written
    }
}

/// The output is padded exactly when the queue stayed empty and the silence of
/// the source, in whole milliseconds, is over the threshold; and then with one
/// NULL packet.
pub proof fn lemma_padding(s: ConsumerState, now_us: u64, last_data_us: u64)
    ensures
        ({
            let n = s.next(ConsumerEvent::Timeout { now_us, last_data_us });
            if now_us - last_data_us >= (STALE_DATA_MS + 1) * 1000 {
                n.1 == ConsumerMove::Write(null_packet())
            } else {
                n == s.receive()
            }
        }),
{
}

/// The output is padded all the while that the source is silent: whatever the
/// producer does in between, stalled, reconnecting or connected without data, each
/// timeout past the threshold writes a NULL packet.
pub proof fn lemma_padded_while_silent(
    p: producer::ProducerState,
    pes: Seq<producer::ProducerEvent>,
    s: ConsumerState,
    now_us: u64,
)
    requires
        forall|i: int| 0 <= i < pes.len() ==> !producer::brings_data(#[trigger] pes[i]),
        now_us - p.last_data_us >= (STALE_DATA_MS + 1) * 1000,
    ensures
        s.next(
            ConsumerEvent::Timeout { now_us, last_data_us: producer::run(p, pes).last_data_us },
        ).1 == ConsumerMove::Write(null_packet()),
{
    producer::lemma_silence(p, pes);
    lemma_padding(s, now_us, p.last_data_us);
}

/// The consumer ends only when the queue is closed or the output is.
pub proof fn lemma_stop_reason(s: ConsumerState, e: ConsumerEvent)
    ensures
        s.next(e).1 is Stop <==> e is Disconnected || e is WriteFailed,
{
}

/// As long as every chunk is a row of whole packets, so is everything that went
/// to the output: NULL packets stand between packets, never inside one.
pub proof fn lemma_output_row(s: ConsumerState, es: Seq<ConsumerEvent>)
    requires
        forall|i: int|
            0 <= i < es.len() ==> (#[trigger] es[i] matches ConsumerEvent::Data(bytes)
                ==> is_packet_row(bytes@)),
    ensures
        is_packet_row(written(s, es)),
    decreases es.len(),
{
    if es.len() > 0 {
        let front = es.drop_last();
        assert forall|i: int| 0 <= i < front.len() implies (#[trigger] front[i] matches
            ConsumerEvent::Data(bytes) ==> is_packet_row(bytes@)) by {
            assert(front[i] == es[i]);
        }
        lemma_output_row(s, front);
        lemma_null_packet();
        lemma_row_single(null_packet());
        let last = es[es.len() - 1];
        if let ConsumerMove::Write(bytes) = run(s, front).next(last).1 {
            lemma_row_append(written(s, front), bytes);
        }
    }
}

/// As long as the source is not silent for too long, exactly the chunks go to
/// the output, in order and unchanged.
pub proof fn lemma_healthy_output(s: ConsumerState, es: Seq<ConsumerEvent>)
    requires
        forall|i: int| 0 <= i < es.len() ==> !is_stale(#[trigger] es[i]),
    ensures
        written(s, es) == payload(es),
    decreases es.len(),
{
    if es.len() > 0 {
        let front = es.drop_last();
        assert forall|i: int| 0 <= i < front.len() implies !is_stale(#[trigger] front[i]) by {
            assert(front[i] == es[i]);
        }
        lemma_healthy_output(s, front);
        assert(!is_stale(es[es.len() - 1]));
    }
}

/// Each write is one whole chunk just as it came, or one NULL packet on a
/// timeout that finds the source silent for too long.
pub proof fn lemma_writes(s: ConsumerState, e: ConsumerEvent)
    ensures
        s.next(e).1 is Write <==> e is Data || is_stale(e),
        e matches ConsumerEvent::Data(bytes) ==> s.next(e).1 == ConsumerMove::Write(bytes@),
        is_stale(e) ==> s.next(e).1 == ConsumerMove::Write(null_packet()),
{
}

/// Whatever happens, the output without the NULL packets written on timeouts is
/// the chunks, in order and unchanged; and there is one NULL packet for each
/// timeout that finds the source silent for too long.
pub proof fn lemma_unpadded_output(s: ConsumerState, es: Seq<ConsumerEvent>)
    ensures
        unpadded(s, es) == payload(es),
        written(s, es).len() == payload(es).len() + stale_count(es) * PACKET_LEN,
    decreases es.len(),
{
    if es.len() > 0 {
        lemma_unpadded_output(s, es.drop_last());
        lemma_writes(run(s, es.drop_last()), es.last());
        lemma_null_packet();
    }
}

/// With a producer on the other end of the queue, everything that goes to the
/// output is a row of whole packets.
pub proof fn lemma_relay_row(
    leftover: Seq<u8>,
    start_ns: u128,
    pes: Seq<producer::ProducerEvent>,
    s: ConsumerState,
    es: Seq<ConsumerEvent>,
)
    requires
        forall|i: int|
            0 <= i < es.len() ==> (#[trigger] es[i] matches ConsumerEvent::Data(bytes) ==> was_sent(
                leftover,
                start_ns,
                pes,
                bytes@,
            )),
    ensures
        is_packet_row(written(s, es)),
{
    assert forall|i: int| 0 <= i < es.len() implies (#[trigger] es[i] matches ConsumerEvent::Data(
        bytes,
    ) ==> is_packet_row(bytes@)) by {
        if let ConsumerEvent::Data(bytes) = es[i] {
            let begin = producer::ProducerState::begin(leftover, start_ns);
            if begin.1 == producer::ProducerMove::Send(bytes@) {
                producer::lemma_begins_row(leftover, start_ns);
            } else {
                let j = choose|j: int|
                    0 <= j < pes.len() && #[trigger] producer::run(begin.0, pes.take(j)).next(
                        pes[j],
                    ).1 == producer::ProducerMove::Send(bytes@);
                producer::lemma_sends_row(producer::run(begin.0, pes.take(j)), pes[j]);
            }
        }
    }
    lemma_output_row(s, es);
}

/// The bytes counted as written are those of the chunks, without NULL packets
/// and without a chunk that is still being written, modulo 2 to the 64.
pub proof fn lemma_bytes_written(s: ConsumerState, es: Seq<ConsumerEvent>)
    requires
        !(s.phase is Forwarding),
        is_history(s, es),
        forall|i: int| 0 <= i < es.len() ==> !(#[trigger] es[i] is WriteFailed),
    ensures
        ({
            let n = run(s, es);
            let open = match n.phase {
                ConsumerPhase::Forwarding { len } => len as int,
                _ => 0,
            };
            (n.bytes_written + open) % 0x1_0000_0000_0000_0000 == (s.bytes_written + payload(
                es,
            ).len()) % 0x1_0000_0000_0000_0000
        }),
    decreases es.len(),
{
    if es.len() > 0 {
        let front = es.drop_last();
        assert forall|i: int| 0 <= i < front.len() implies !(#[trigger] front[i] is WriteFailed) by {
            assert(front[i] == es[i]);
        }
        lemma_bytes_written(s, front);
        assert(!(es[es.len() - 1] is WriteFailed));
        if let ConsumerEvent::Data(bytes) = es.last() {
            assert(bytes@.len() == bytes.len());
        }
    }
}

/// A denied output pipe is asked for again at half the size, as long as that is
/// not less than the smallest; nothing else makes the consumer ask for one.
pub proof fn lemma_pipe_sizes(s: ConsumerState, e: ConsumerEvent)
    ensures
        s.next(e).1 is ResizePipe <==> {
            &&& e is PipeDenied
            &&& s.phase matches ConsumerPhase::Sizing { bytes } && bytes / 2 >= SMALLEST_PIPE
        },
        s.next(e).1 matches ConsumerMove::ResizePipe { bytes } ==> {
            &&& s.phase matches ConsumerPhase::Sizing { bytes: denied } && bytes == denied / 2
            &&& s.next(e).0.phase == ConsumerPhase::Sizing { bytes }
        },
{
}

/// An action and what is said of it name the same request with the same figures.
pub proof fn lemma_action(size: u32, timeout_ms: u64, bytes: Vec<u8>)
    ensures
        (ConsumerAction::ResizePipe { bytes: size })@ == (ConsumerMove::ResizePipe { bytes: size }),
        (ConsumerAction::Receive { timeout_ms })@ == (ConsumerMove::Receive { timeout_ms }),
        ConsumerAction::Write(bytes)@ == ConsumerMove::Write(bytes@),
        ConsumerAction::Stop@ == ConsumerMove::Stop,
{
}

/// Each event answers the one request that it belongs to.
pub proof fn lemma_awaits(s: ConsumerState, e: ConsumerEvent)
    ensures
        s.awaits(e) <==> match s.phase {
            ConsumerPhase::Sizing { .. } => e is PipeGranted || e is PipeDenied,
            ConsumerPhase::Receiving => e is Data || e is Timeout || e is Disconnected,
            ConsumerPhase::Forwarding { .. } => e is Written || e is WriteFailed,
            ConsumerPhase::Padding => e is Written || e is WriteFailed,
            ConsumerPhase::Done => false,
        },
{
}

/// The silence of a source is what passed since it last brought data, in whole
/// milliseconds; there is none if that is yet to come.
pub proof fn lemma_silent_ms(now_us: u64, last_data_us: u64)
    ensures
        now_us >= last_data_us ==> last_data_us + silent_ms(now_us, last_data_us) * 1000 <= now_us
            < last_data_us + silent_ms(now_us, last_data_us) * 1000 + 1000,
        now_us <= last_data_us ==> silent_ms(now_us, last_data_us) == 0,
{
}

/// Whatever was written before, the consumer never waits for a chunk other than 500
/// milliseconds long, so that an empty queue is noticed by then; and after all but
/// a write, a resize and its end, it waits for one.
pub proof fn lemma_wait(s: ConsumerState, e: ConsumerEvent)
    ensures
        s.next(e).1 matches ConsumerMove::Receive { timeout_ms } ==> timeout_ms == 500,
        s.next(e).1 is Receive <==> s.next(e).0.phase is Receiving,
        e is Written || e is PipeGranted ==> s.next(e).1 is Receive,
{
}

/// How a consumer begins: nothing is written yet, and an output pipe of 8 MiB is
/// asked for.
pub proof fn lemma_on_start()
    ensures
        ConsumerState::begin().0 == (ConsumerState {
            bytes_written: 0,
            phase: ConsumerPhase::Sizing { bytes: 8_388_608 },
        }),
        ConsumerState::begin().1 == (ConsumerMove::ResizePipe { bytes: 8_388_608 }),
{
}

/// What the answer to a resize does: a granted pipe, and a denied one of less than
/// 2 MiB, are followed by the wait for a chunk; a larger denied one by a request
/// for half of it. Nothing else changes.
pub proof fn lemma_on_resize(s: ConsumerState, bytes: u32)
    requires
        s.phase == (ConsumerPhase::Sizing { bytes }),
    ensures
        s.next(ConsumerEvent::PipeGranted) == (
            ConsumerState { phase: ConsumerPhase::Receiving, ..s },
            ConsumerMove::Receive { timeout_ms: 500 },
        ),
        bytes < 2_097_152 ==> s.next(ConsumerEvent::PipeDenied) == s.next(
            ConsumerEvent::PipeGranted,
        ),
        bytes >= 2_097_152 ==> {
            let half = (bytes / 2) as u32;
            s.next(ConsumerEvent::PipeDenied) == (
                ConsumerState { phase: ConsumerPhase::Sizing { bytes: half }, ..s },
                ConsumerMove::ResizePipe { bytes: half },
            )
        },
{
}

/// What a chunk does: all of it is written, just as it came, whatever it holds; its
/// bytes are counted once that succeeded, and then the next chunk is waited for.
pub proof fn lemma_on_data(s: ConsumerState, bytes: Vec<u8>)
    ensures
        ({
            let (n, action) = s.next(ConsumerEvent::Data(bytes));
            let (m, then) = n.next(ConsumerEvent::Written);
            &&& action == ConsumerMove::Write(bytes@)
            &&& n.bytes_written == s.bytes_written
            &&& m.bytes_written == (s.bytes_written + bytes@.len()) % 0x1_0000_0000_0000_0000
            &&& m.phase is Receiving
            &&& then == ConsumerMove::Receive { timeout_ms: 500 }
        }),
{
    assert(bytes@.len() == bytes.len());
}

/// What a timeout does: at 1501 milliseconds of silence or more a NULL packet is
/// written, which is not counted, and then the next chunk is waited for; at less it
/// is waited for at once.
pub proof fn lemma_on_timeout(s: ConsumerState, now_us: u64, last_data_us: u64)
    ensures
        ({
            let (n, action) = s.next(ConsumerEvent::Timeout { now_us, last_data_us });
            let (m, then) = n.next(ConsumerEvent::Written);
            &&& now_us >= last_data_us + 1_501_000 ==> {
                &&& action == ConsumerMove::Write(null_packet())
                &&& n.phase is Padding
                &&& then == ConsumerMove::Receive { timeout_ms: 500 }
                &&& m.phase is Receiving
                &&& m.bytes_written == s.bytes_written
            }
            &&& now_us < last_data_us + 1_501_000 ==> {
                &&& action == ConsumerMove::Receive { timeout_ms: 500 }
                &&& n.phase is Receiving
            }
            &&& n.bytes_written == s.bytes_written
        }),
{
}

/// What the end of the queue or of the output does: the consumer ends, and what was
/// counted stays.
pub proof fn lemma_on_end(s: ConsumerState)
    ensures
        s.next(ConsumerEvent::Disconnected) == (
            ConsumerState { phase: ConsumerPhase::Done, ..s },
            ConsumerMove::Stop,
        ),
        s.next(ConsumerEvent::WriteFailed) == s.next(ConsumerEvent::Disconnected),
{
}

/// What a write that succeeds does: the bytes of a chunk are counted, those of a
/// NULL packet are not, and the next chunk is waited for.
pub proof fn lemma_on_written(s: ConsumerState)
    ensures
        ({
            let (n, action) = s.next(ConsumerEvent::Written);
            &&& action == ConsumerMove::Receive { timeout_ms: 500 }
            &&& n.phase is Receiving
            &&& match s.phase {
                ConsumerPhase::Forwarding { len } => n.bytes_written == (s.bytes_written + len)
                    % 0x1_0000_0000_0000_0000,
                _ => n.bytes_written == s.bytes_written,
            }
        }),
{
}

} // verus!
