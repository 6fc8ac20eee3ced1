//! When a discontinuity is noticed and in front of which packets it is announced.

use crate::framing::{is_packet_row, lemma_row_append, lemma_row_single};
use crate::packet::{
    disc_packet, is_packet, lemma_disc_packet, pcr_of, pid_of, NULL_PID, PAT_PID,
};
use vstd::prelude::*;

verus! {

/// The largest step forward of a program clock reference on one PID that still
/// counts as continuous: half a second of 27 MHz ticks.
pub const PCR_JUMP_FORWARD_TICKS: u64 = 13_500_000;

/// What was noticed while packets went through.
#[derive(Clone, Copy, Debug, PartialEq, Eq, Structural)]
pub enum TsEvent {
    /// The clock of `pid` went from `prev` to `pcr`, which is not continuous.
    PcrJump { pid: u16, prev: u64, pcr: u64 },
    /// A discontinuity packet was put in front of a packet of `pid`.
    Announced { pid: u16 },
}

/// Whether a clock that stood at `prev` and now stands at `pcr` went backward,
/// or forward by more than half a second.
pub open spec fn is_jump(prev: u64, pcr: u64) -> bool {
    pcr < prev || pcr - prev > PCR_JUMP_FORWARD_TICKS
}

/// Discontinuities are announced on every PID but those of NULL packets and of
/// the program association table, which has a version number of its own.
pub open spec fn is_announceable(pid: u16) -> bool {
    pid != NULL_PID && pid != PAT_PID
}

/// The memory that decides where a discontinuity is announced.
#[verifier::ext_equal]
pub struct DiscState {
    /// A discontinuity was noticed at some time.
    pub pending: bool,
    /// The PIDs on which the latest discontinuity was announced already.
    pub flagged: Set<u16>,
    /// The latest clock reference of each PID since the latest discontinuity.
    pub last_pcr: Map<u16, u64>,
}

impl DiscState {
    /// Nothing seen yet.
    pub open spec fn fresh() -> DiscState {
        DiscState { pending: false, flagged: Set::empty(), last_pcr: Map::empty() }
    }

    /// A discontinuity was just noticed: it is to be announced on every PID
    /// anew, and clocks are compared only with what comes after it.
    pub open spec fn triggered(self) -> DiscState {
        DiscState { pending: true, flagged: Set::empty(), last_pcr: Map::empty() }
    }

    /// Only announceable PIDs are flagged, and only once a discontinuity was
    /// noticed.
    pub open spec fn valid(self) -> bool {
        forall|pid: u16| #[trigger]
            self.flagged.contains(pid) ==> is_announceable(pid) && self.pending
    }

    /// Whether packet `p` carries a clock reference that jumped.
    pub open spec fn jumps_at(self, p: Seq<u8>) -> bool {
        &&& pcr_of(p) is Some
        &&& self.last_pcr.contains_key(pid_of(p))
        &&& is_jump(self.last_pcr[pid_of(p)], pcr_of(p)->0)
    }

    /// The memory once the clock reference of packet `p`, if any, was looked at.
    pub open spec fn clocked(self, p: Seq<u8>) -> DiscState {
        match pcr_of(p) {
            Some(pcr) => {
                let d = if self.jumps_at(p) {
                    self.triggered()
                } else {
                    self
                };
                DiscState { last_pcr: d.last_pcr.insert(pid_of(p), pcr), ..d }
            },
            None => self,
        }
    }

    /// Whether the next packet of `pid` gets an announcement in front of it.
    pub open spec fn announces(self, pid: u16) -> bool {
        self.pending && is_announceable(pid) && !self.flagged.contains(pid)
    }

    /// The memory once a packet of `pid` went out.
    pub open spec fn announced(self, pid: u16) -> DiscState {
        if self.announces(pid) {
            DiscState { flagged: self.flagged.insert(pid), ..self }
        } else {
            self
        }
    }

    /// What goes out in front of the next packet of `pid`.
    pub open spec fn announcement(self, pid: u16) -> Seq<u8> {
        if self.announces(pid) {
            disc_packet(pid)
        } else {
            Seq::empty()
        }
    }

    /// Whether packet `p` gets an announcement in front of it.
    pub open spec fn marks(self, p: Seq<u8>) -> bool {
        self.clocked(p).announces(pid_of(p))
    }

    /// The memory once packet `p` went through.
    pub open spec fn after(self, p: Seq<u8>) -> DiscState {
        self.clocked(p).announced(pid_of(p))
    }

    /// The bytes that go out for packet `p`.
    pub open spec fn emit(self, p: Seq<u8>) -> Seq<u8> {
        self.clocked(p).announcement(pid_of(p)) + p
    }

    /// What is noticed at packet `p`.
    pub open spec fn notes(self, p: Seq<u8>) -> Seq<TsEvent> {
        let jump = if self.jumps_at(p) {
            seq![TsEvent::PcrJump {
                pid: pid_of(p),
                prev: self.last_pcr[pid_of(p)],
                pcr: pcr_of(p)->0,
            }]
        } else {
            Seq::empty()
        };
        let announced = if self.marks(p) {
            seq![TsEvent::Announced { pid: pid_of(p) }]
        } else {
            Seq::empty()
        };
        jump + announced
    }

    /// The memory once the packets `ps` went through.
    pub open spec fn after_all(self, ps: Seq<Seq<u8>>) -> DiscState
        decreases ps.len(),
    {
        if ps.len() == 0 {
            self
        } else {
            self.after_all(ps.drop_last()).after(ps.last())
        }
    }

    /// The bytes that go out for the packets `ps`.
    pub open spec fn emit_all(self, ps: Seq<Seq<u8>>) -> Seq<u8>
        decreases ps.len(),
    {
        if ps.len() == 0 {
            Seq::empty()
        } else {
            self.emit_all(ps.drop_last()) + self.after_all(ps.drop_last()).emit(ps.last())
        }
    }

    /// What is noticed at the packets `ps`.
    pub open spec fn notes_all(self, ps: Seq<Seq<u8>>) -> Seq<TsEvent>
        decreases ps.len(),
    {
        if ps.len() == 0 {
            Seq::empty()
        } else {
            self.notes_all(ps.drop_last()) + self.after_all(ps.drop_last()).notes(ps.last())
        }
    }

    /// Whether packet `i` of `ps` gets an announcement in front of it.
    pub open spec fn marks_at(self, ps: Seq<Seq<u8>>, i: int) -> bool {
        self.after_all(ps.take(i)).marks(ps[i])
    }

    /// Whether no clock reference in `ps` jumps.
    pub open spec fn is_continuous(self, ps: Seq<Seq<u8>>) -> bool {
        forall|i: int|
            0 <= i < ps.len() ==> !(#[trigger] self.after_all(ps.take(i))).jumps_at(ps[i])
    }
}

/// The packets `ps` in order, packet `i` with an announcement of its own PID in
/// front of it where `marks[i]` holds.
pub open spec fn interleave(ps: Seq<Seq<u8>>, marks: Seq<bool>) -> Seq<u8>
    decreases ps.len(),
{
    if ps.len() == 0 {
        Seq::empty()
    } else {
        let front = if marks.last() {
            disc_packet(pid_of(ps.last()))
        } else {
            Seq::empty()
        };
        interleave(ps.drop_last(), marks.drop_last()) + (front + ps.last())
    }
}

/// Packets that go through in two batches leave the same memory, bytes and
/// notes as in one.
pub proof fn lemma_batches(d: DiscState, a: Seq<Seq<u8>>, b: Seq<Seq<u8>>)
    ensures
        d.after_all(a + b) == d.after_all(a).after_all(b),
        d.emit_all(a + b) == d.emit_all(a) + d.after_all(a).emit_all(b),
        d.notes_all(a + b) == d.notes_all(a) + d.after_all(a).notes_all(b),
    decreases b.len(),
{
    if b.len() == 0 {
        assert(a + b =~= a);
        assert(d.emit_all(a) + Seq::<u8>::empty() =~= d.emit_all(a));
        assert(d.notes_all(a) + Seq::<TsEvent>::empty() =~= d.notes_all(a));
    } else {
        assert((a + b).drop_last() =~= a + b.drop_last());
        lemma_batches(d, a, b.drop_last());
        let m = d.after_all(a);
        let e = m.after_all(b.drop_last());
        assert(d.emit_all(a) + m.emit_all(b.drop_last()) + e.emit(b.last()) =~= d.emit_all(a) + (
        m.emit_all(b.drop_last()) + e.emit(b.last())));
        assert(d.notes_all(a) + m.notes_all(b.drop_last()) + e.notes(b.last()) =~= d.notes_all(a)
            + (m.notes_all(b.drop_last()) + e.notes(b.last())));
    }
}

/// What goes out is a row of whole packets.
pub proof fn lemma_emit_row(d: DiscState, ps: Seq<Seq<u8>>)
    requires
        forall|i: int| 0 <= i < ps.len() ==> is_packet(#[trigger] ps[i]),
    ensures
        is_packet_row(d.emit_all(ps)),
    decreases ps.len(),
{
    if ps.len() > 0 {
        let p = ps.last();
        lemma_emit_row(d, ps.drop_last());
        let c = d.after_all(ps.drop_last()).clocked(p);
        let front = c.announcement(pid_of(p));
        lemma_disc_packet(pid_of(p));
        lemma_row_single(p);
        if c.announces(pid_of(p)) {
            lemma_row_single(front);
        }
        lemma_row_append(front, p);
        lemma_row_append(d.emit_all(ps.drop_last()), front + p);
    }
}

/// Every packet goes out unchanged and in order; all that is added are
/// announcements, at most one in front of a packet and of that packet's PID.
pub proof fn lemma_packets_kept(d: DiscState, ps: Seq<Seq<u8>>)
    ensures
        d.emit_all(ps) == interleave(ps, Seq::new(ps.len(), |i: int| d.marks_at(ps, i))),
    decreases ps.len(),
{
    if ps.len() > 0 {
        let qs = ps.drop_last();
        let marks = Seq::new(ps.len(), |i: int| d.marks_at(ps, i));
        lemma_packets_kept(d, qs);
        assert(marks.drop_last() =~= Seq::new(qs.len(), |i: int| d.marks_at(qs, i))) by {
            assert forall|i: int| 0 <= i < qs.len() implies marks[i] == d.marks_at(qs, i) by {
                assert(ps.take(i) =~= qs.take(i));
            }
        }
        assert(ps.take(ps.len() - 1) =~= qs);
        assert(marks.last() == d.marks_at(ps, ps.len() - 1));
    }
}

/// A PID that was just looked at gets no announcement when it is looked at
/// again, and that second look changes nothing: there is at most one
/// announcement for each PID and discontinuity.
pub proof fn lemma_announced_twice(d: DiscState, pid: u16)
    ensures
        d.announced(pid).announced(pid) == d.announced(pid),
        !d.announced(pid).announces(pid),
        d.announced(pid).announcement(pid) == Seq::<u8>::empty(),
{
}

/// Every discontinuity is announced on every announceable PID anew, also where
/// an earlier one was announced already.
pub proof fn lemma_rearmed(d: DiscState, pid: u16)
    requires
        is_announceable(pid),
    ensures
        d.triggered().announces(pid),
        d.triggered().announcement(pid) == disc_packet(pid),
{
}

/// Whatever goes through, only announceable PIDs are flagged, and only once a
/// discontinuity was noticed.
pub proof fn lemma_flags(d: DiscState, ps: Seq<Seq<u8>>)
    requires
        d.valid(),
    ensures
        d.after_all(ps).valid(),
    decreases ps.len(),
{
    if ps.len() > 0 {
        lemma_flags(d, ps.drop_last());
    }
}

/// NULL packets and packets of the program association table never get an
/// announcement.
pub proof fn lemma_never_announced(d: DiscState, p: Seq<u8>)
    requires
        pid_of(p) == NULL_PID || pid_of(p) == PAT_PID,
    ensures
        d.emit(p) == p,
{
    assert(d.emit(p) =~= p);
}

/// Until a discontinuity is noticed, packets go out just as they came in.
pub proof fn lemma_passthrough(d: DiscState, ps: Seq<Seq<u8>>)
    requires
        !d.pending,
        d.is_continuous(ps),
    ensures
        !d.after_all(ps).pending,
        d.emit_all(ps) == ps.flatten(),
    decreases ps.len(),
{
    if ps.len() > 0 {
        let qs = ps.drop_last();
        lemma_continuous_prefix(d, ps);
        lemma_passthrough(d, qs);
        assert(qs.push(ps.last()) =~= ps);
        qs.lemma_flatten_push(ps.last());
        assert(d.after_all(qs).emit(ps.last()) =~= ps.last());
    }
}

proof fn lemma_continuous_prefix(d: DiscState, ps: Seq<Seq<u8>>)
    requires
        ps.len() > 0,
        d.is_continuous(ps),
    ensures
        d.is_continuous(ps.drop_last()),
        !d.after_all(ps.drop_last()).jumps_at(ps.last()),
{
    let qs = ps.drop_last();
    assert forall|i: int| 0 <= i < qs.len() implies !(#[trigger] d.after_all(
        qs.take(i),
    )).jumps_at(qs[i]) by {
        assert(ps.take(i) =~= qs.take(i));
    }
    assert(ps.take(ps.len() - 1) =~= qs);
    assert(!d.after_all(ps.take(ps.len() - 1)).jumps_at(ps[ps.len() - 1]));
}

/// Once a discontinuity was noticed, it stays on record.
pub proof fn lemma_stays_pending(d: DiscState, ps: Seq<Seq<u8>>)
    requires
        d.pending,
    ensures
        d.after_all(ps).pending,
    decreases ps.len(),
{
    if ps.len() > 0 {
        lemma_stays_pending(d, ps.drop_last());
    }
}

proof fn lemma_flagged(d: DiscState, ps: Seq<Seq<u8>>, pid: u16)
    requires
        d.pending,
        d.is_continuous(ps),
    ensures
        d.after_all(ps).flagged.contains(pid) <==> d.flagged.contains(pid) || (is_announceable(pid)
            && exists|j: int| 0 <= j < ps.len() && #[trigger] pid_of(ps[j]) == pid),
    decreases ps.len(),
{
    if ps.len() > 0 {
        let qs = ps.drop_last();
        lemma_continuous_prefix(d, ps);
        lemma_flagged(d, qs, pid);
        lemma_stays_pending(d, qs);
        if exists|j: int| 0 <= j < ps.len() && #[trigger] pid_of(ps[j]) == pid {
            let j = choose|j: int| 0 <= j < ps.len() && #[trigger] pid_of(ps[j]) == pid;
            if j < qs.len() {
                assert(pid_of(qs[j]) == pid);
            }
        }
        if exists|j: int| 0 <= j < qs.len() && #[trigger] pid_of(qs[j]) == pid {
            let j = choose|j: int| 0 <= j < qs.len() && #[trigger] pid_of(qs[j]) == pid;
            assert(pid_of(ps[j]) == pid);
        }
        if pid_of(ps.last()) == pid {
            assert(pid_of(ps[ps.len() - 1]) == pid);
        }
    }
}

/// Until the next discontinuity, a pending one is announced exactly once on each
/// announceable PID: in front of the first packet of that PID.
pub proof fn lemma_announced_once(d: DiscState, ps: Seq<Seq<u8>>, i: int)
    requires
        d.pending,
        d.is_continuous(ps),
        0 <= i < ps.len(),
    ensures
        d.marks_at(ps, i) <==> {
            &&& is_announceable(pid_of(ps[i]))
            &&& !d.flagged.contains(pid_of(ps[i]))
            &&& forall|j: int| 0 <= j < i ==> #[trigger] pid_of(ps[j]) != pid_of(ps[i])
        },
{
    let qs = ps.take(i);
    assert(d.is_continuous(qs)) by {
        assert forall|k: int| 0 <= k < qs.len() implies !(#[trigger] d.after_all(
            qs.take(k),
        )).jumps_at(qs[k]) by {
            assert(qs.take(k) =~= ps.take(k));
        }
    }
    assert(!d.after_all(ps.take(i)).jumps_at(ps[i]));
    lemma_stays_pending(d, qs);
    lemma_flagged(d, qs, pid_of(ps[i]));
    if exists|j: int| 0 <= j < i && #[trigger] pid_of(ps[j]) == pid_of(ps[i]) {
        let j = choose|j: int| 0 <= j < i && #[trigger] pid_of(ps[j]) == pid_of(ps[i]);
        assert(pid_of(qs[j]) == pid_of(ps[i]));
    }
    if exists|j: int| 0 <= j < qs.len() && #[trigger] pid_of(qs[j]) == pid_of(ps[i]) {
        let j = choose|j: int| 0 <= j < qs.len() && #[trigger] pid_of(qs[j]) == pid_of(ps[i]);
        assert(pid_of(ps[j]) == pid_of(ps[i]));
    }
}

/// Whatever the clocks do, a pending discontinuity that was not announced on a PID
/// yet is announced in front of the first packet of that PID.
pub proof fn lemma_first_announced(d: DiscState, ps: Seq<Seq<u8>>, i: int)
    requires
        0 <= i < ps.len(),
        d.announces(pid_of(ps[i])),
        forall|j: int| 0 <= j < i ==> #[trigger] pid_of(ps[j]) != pid_of(ps[i]),
    ensures
        d.marks_at(ps, i),
{
    let qs = ps.take(i);
    assert forall|j: int| 0 <= j < qs.len() implies #[trigger] pid_of(qs[j]) != pid_of(ps[i]) by {
        assert(pid_of(ps[j]) != pid_of(ps[i]));
    }
    lemma_still_due(d, qs, pid_of(ps[i]));
}

proof fn lemma_still_due(d: DiscState, ps: Seq<Seq<u8>>, pid: u16)
    requires
        d.announces(pid),
        forall|j: int| 0 <= j < ps.len() ==> #[trigger] pid_of(ps[j]) != pid,
    ensures
        d.after_all(ps).announces(pid),
    decreases ps.len(),
{
    if ps.len() > 0 {
        let qs = ps.drop_last();
        assert forall|j: int| 0 <= j < qs.len() implies #[trigger] pid_of(qs[j]) != pid by {
            assert(pid_of(ps[j]) != pid);
        }
        lemma_still_due(d, qs, pid);
        assert(pid_of(ps[ps.len() - 1]) != pid);
    }
}

/// From a jump at packet `j` on, until the next jump, exactly the first packet of
/// each announceable PID gets an announcement, the packet that jumped among them.
pub proof fn lemma_announced_from_jump(d: DiscState, ps: Seq<Seq<u8>>, j: int, i: int)
    requires
        0 <= j <= i < ps.len(),
        d.after_all(ps.take(j)).jumps_at(ps[j]),
        forall|k: int|
            j < k <= i ==> !(#[trigger] d.after_all(ps.take(k))).jumps_at(ps[k]),
    ensures
        d.marks_at(ps, i) <==> {
            &&& is_announceable(pid_of(ps[i]))
            &&& forall|k: int| j <= k < i ==> #[trigger] pid_of(ps[k]) != pid_of(ps[i])
        },
{
    if j < i {
        let front = ps.take(j + 1);
        let rest = ps.subrange(j + 1, i + 1);
        let e = d.after_all(front);
        assert(front.drop_last() =~= ps.take(j));
        lemma_jump(d.after_all(ps.take(j)), ps[j]);
        assert forall|k: int| 0 <= k <= rest.len() implies d.after_all(ps.take(j + 1 + k))
            == #[trigger] e.after_all(rest.take(k)) by {
            lemma_batches(d, front, rest.take(k));
            assert(front + rest.take(k) =~= ps.take(j + 1 + k));
        }
        assert(e.is_continuous(rest)) by {
            assert forall|k: int| 0 <= k < rest.len() implies !(#[trigger] e.after_all(
                rest.take(k),
            )).jumps_at(rest[k]) by {
                assert(!d.after_all(ps.take(j + 1 + k)).jumps_at(ps[j + 1 + k]));
            }
        }
        let m = i - j - 1;
        lemma_announced_once(e, rest, m);
        assert(e.after_all(rest.take(m)) == d.after_all(ps.take(i)));
        assert(e.announces(pid_of(ps[i])) <==> is_announceable(pid_of(ps[i])) && pid_of(ps[i])
            != pid_of(ps[j]));
        if forall|k: int| j <= k < i ==> #[trigger] pid_of(ps[k]) != pid_of(ps[i]) {
            assert forall|k: int| 0 <= k < m implies #[trigger] pid_of(rest[k]) != pid_of(
                rest[m],
            ) by {
                assert(pid_of(ps[j + 1 + k]) != pid_of(ps[i]));
            }
            assert(pid_of(ps[j]) != pid_of(ps[i]));
        }
        if d.marks_at(ps, i) {
            assert forall|k: int| j <= k < i implies #[trigger] pid_of(ps[k]) != pid_of(ps[i]) by {
                if k > j {
                    assert(pid_of(rest[k - j - 1]) != pid_of(rest[m]));
                }
            }
        }
    }
}

/// A jump is announced in front of the very packet that jumped, is to be
/// announced on every other PID again, and leaves that packet's clock reference
/// as the only one remembered.
pub proof fn lemma_jump(d: DiscState, p: Seq<u8>)
    requires
        d.jumps_at(p),
    ensures
        is_announceable(pid_of(p)) ==> d.emit(p) == disc_packet(pid_of(p)) + p,
        d.after(p).pending,
        forall|pid: u16| #[trigger]
            d.after(p).announces(pid) <==> is_announceable(pid) && pid != pid_of(p),
        d.after(p).last_pcr == Map::<u16, u64>::empty().insert(pid_of(p), pcr_of(p)->0),
{
}

/// The clock reference that the next one of a PID is compared with is that of
/// the latest packet of the PID that carried one, as long as nothing jumped.
pub proof fn lemma_clock_memory(d: DiscState, ps: Seq<Seq<u8>>, i: int)
    requires
        d.is_continuous(ps),
        0 <= i < ps.len(),
        pcr_of(ps[i]) is Some,
        forall|j: int|
            i < j < ps.len() ==> #[trigger] pid_of(ps[j]) != pid_of(ps[i]) || pcr_of(ps[j]) is None,
    ensures
        d.after_all(ps).last_pcr.contains_key(pid_of(ps[i])),
        d.after_all(ps).last_pcr[pid_of(ps[i])] == pcr_of(ps[i])->0,
    decreases ps.len(),
{
    lemma_continuous_prefix(d, ps);
    if i < ps.len() - 1 {
        let qs = ps.drop_last();
        assert forall|j: int| i < j < qs.len() implies #[trigger] pid_of(qs[j]) != pid_of(qs[i])
            || pcr_of(qs[j]) is None by {
            assert(pid_of(ps[j]) != pid_of(ps[i]) || pcr_of(ps[j]) is None);
        }
        lemma_clock_memory(d, qs, i);
        assert(pid_of(ps[ps.len() - 1]) != pid_of(ps[i]) || pcr_of(ps[ps.len() - 1]) is None);
    }
}

/// A clock jumps exactly if it goes backward, by however much, or forward by more
/// than 13 500 000 ticks.
pub proof fn lemma_is_jump(prev: u64, pcr: u64)
    ensures
        is_jump(prev, pcr) <==> pcr < prev || pcr > prev + 13_500_000,
{
}

/// A packet with clock reference `pcr` on a PID that last showed `prev` jumps
/// exactly if the clock went backward or forward by more than 13 500 000 ticks. A
/// packet without one, or on a PID that showed none, never does.
pub proof fn lemma_jumps_at(d: DiscState, p: Seq<u8>, prev: u64, pcr: u64)
    ensures
        pcr_of(p) == Some(pcr) && d.last_pcr.contains_key(pid_of(p)) && d.last_pcr[pid_of(p)]
            == prev ==> (d.jumps_at(p) <==> pcr < prev || pcr > prev + 13_500_000),
        pcr_of(p) is None || !d.last_pcr.contains_key(pid_of(p)) ==> !d.jumps_at(p),
{
}

/// In the beginning nothing is pending, nothing was announced and no clock is
/// known.
pub proof fn lemma_fresh()
    ensures
        !DiscState::fresh().pending,
        forall|pid: u16| !(#[trigger] DiscState::fresh().flagged.contains(pid)),
        forall|pid: u16| !(#[trigger] DiscState::fresh().last_pcr.contains_key(pid)),
{
}

/// A discontinuity is due on every PID but 0 and 0x1FFF from then on, and makes
/// every clock forgotten.
pub proof fn lemma_triggered(d: DiscState, pid: u16)
    ensures
        d.triggered().pending,
        d.triggered().announces(pid) <==> pid != 0 && pid != 0x1FFF,
        !d.triggered().flagged.contains(pid),
        !d.triggered().last_pcr.contains_key(pid),
{
}

/// What one packet does. It is a discontinuity if its clock went backward or more
/// than 13 500 000 ticks forward from the last one of its PID. It gets a
/// discontinuity packet of its own PID in front if that is neither 0 nor 0x1FFF
/// and either the packet is a discontinuity or an earlier one was not announced on
/// the PID yet. It goes out itself, unchanged, in any case. A discontinuity makes
/// all earlier announcements and clocks void.
pub proof fn lemma_step(d: DiscState, p: Seq<u8>)
    ensures
        ({
            let pid = pid_of(p);
            let jumped = match pcr_of(p) {
                Some(pcr) => d.last_pcr.contains_key(pid) && (pcr < d.last_pcr[pid] || pcr
                    > d.last_pcr[pid] + 13_500_000),
                None => false,
            };
            let announced = pid != 0 && pid != 0x1FFF && (jumped || d.pending
                && !d.flagged.contains(pid));
            let e = d.after(p);
            &&& d.emit(p) == if announced {
                disc_packet(pid) + p
            } else {
                p
            }
            &&& d.marks(p) == announced
            &&& e.pending == (d.pending || jumped)
            &&& forall|q: u16| #[trigger]
                e.flagged.contains(q) <==> q == pid && announced || !jumped && d.flagged.contains(q)
            &&& forall|q: u16| #[trigger]
                e.last_pcr.contains_key(q) <==> q == pid && pcr_of(p) is Some || !jumped
                    && d.last_pcr.contains_key(q)
            &&& forall|q: u16|
                e.last_pcr.contains_key(q) ==> #[trigger] e.last_pcr[q] == if q == pid && pcr_of(
                    p,
                ) is Some {
                    pcr_of(p)->0
                } else {
                    d.last_pcr[q]
                }
            &&& d.notes(p).len() == (if jumped { 1int } else { 0 }) + (if announced {
                1int
            } else {
                0
            })
            &&& jumped ==> d.notes(p)[0] == (TsEvent::PcrJump {
                pid,
                prev: d.last_pcr[pid],
                pcr: pcr_of(p)->0,
            })
            &&& announced ==> d.notes(p).last() == (TsEvent::Announced { pid })
        }),
{
    let c = d.clocked(p).announcement(pid_of(p)) + p;
    if !d.marks(p) {
        assert(c =~= p);
    }
}

/// What an announcement does: a discontinuity packet goes out if a discontinuity is
/// pending that was not announced on the PID yet, and the PID is neither 0 nor
/// 0x1FFF; then the PID, and no other, is flagged, and nothing else changes.
pub proof fn lemma_announce_step(d: DiscState, pid: u16)
    ensures
        ({
            let due = d.pending && !d.flagged.contains(pid) && pid != 0 && pid != 0x1FFF;
            let e = d.announced(pid);
            &&& d.announces(pid) == due
            &&& d.announcement(pid) == if due {
                disc_packet(pid)
            } else {
                Seq::empty()
            }
            &&& forall|q: u16| #[trigger]
                e.flagged.contains(q) <==> d.flagged.contains(q) || q == pid && due
            &&& e.pending == d.pending
            &&& e.last_pcr == d.last_pcr
        }),
{
}

/// No packet does nothing, and one packet does what it does by itself. With what
/// is known of two batches, this says what any number of packets does.
pub proof fn lemma_one_packet(d: DiscState, p: Seq<u8>)
    ensures
        d.after_all(Seq::empty()) == d,
        d.emit_all(Seq::empty()) == Seq::<u8>::empty(),
        d.notes_all(Seq::empty()) == Seq::<TsEvent>::empty(),
        d.after_all(seq![p]) == d.after(p),
        d.emit_all(seq![p]) == d.emit(p),
        d.notes_all(seq![p]) == d.notes(p),
{
    let one = seq![p];
    assert(one.drop_last() =~= Seq::<Seq<u8>>::empty());
    assert(Seq::<u8>::empty() + d.emit(p) =~= d.emit(p));
    assert(Seq::<TsEvent>::empty() + d.notes(p) =~= d.notes(p));
    assert(d.after_all(one.drop_last()) == d);
}

} // verus!
