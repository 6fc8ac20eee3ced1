//! The transport stream processor: bytes in, whole packets with announced
//! discontinuities out.

use crate::disc::{
    is_announceable, is_jump, lemma_announced_once, lemma_announced_twice, lemma_batches,
    lemma_emit_row, lemma_first_announced, lemma_flags, lemma_one_packet, lemma_passthrough,
    lemma_rearmed, lemma_stays_pending, lemma_step, DiscState, TsEvent, PCR_JUMP_FORWARD_TICKS,
};
use crate::framing::{
    is_aligned, is_packet_row, lemma_aligned_cut, lemma_cut_append, lemma_cut_from_sync,
    lemma_cut_packet, lemma_cut_shape, lemma_cut_tail, lemma_first_sync, lemma_skip_to_sync,
    packets, remainder, skip_to_sync, whole_len,
};
use crate::packet::{
    disc_packet, make_disc_packet, packet_pid, pcr_base, pcr_extension, pcr_of,
    pid_of, NULL_PID, PACKET_LEN, PAT_PID, SYNC_BYTE,
};
use std::collections::{HashMap, HashSet};
use vstd::prelude::*;
use vstd::slice::slice_subrange;

verus! {

broadcast use vstd::std_specs::hash::group_hash_axioms;

/// What a processor remembers between calls.
#[verifier::ext_equal]
pub struct TsState {
    /// The bytes kept for a packet that is not whole yet, from its sync byte on.
    pub held: Seq<u8>,
    /// The discontinuity memory.
    pub disc: DiscState,
}

impl TsState {
    /// Nothing seen yet.
    pub open spec fn fresh() -> TsState {
        TsState { held: Seq::empty(), disc: DiscState::fresh() }
    }

    /// The packets that `data` completes.
    pub open spec fn completed(self, data: Seq<u8>) -> Seq<Seq<u8>> {
        packets(self.held + data)
    }

    /// The state once `data` went in.
    pub open spec fn fed(self, data: Seq<u8>) -> TsState {
        TsState {
            held: remainder(self.held + data),
            disc: self.disc.after_all(self.completed(data)),
        }
    }

    /// The bytes that come out when `data` goes in.
    pub open spec fn output(self, data: Seq<u8>) -> Seq<u8> {
        self.disc.emit_all(self.completed(data))
    }

    /// What is noticed when `data` goes in.
    pub open spec fn notes(self, data: Seq<u8>) -> Seq<TsEvent> {
        self.disc.notes_all(self.completed(data))
    }

    /// Less than a packet is held, from a sync byte on.
    pub open spec fn valid(self) -> bool {
        &&& self.held.len() < PACKET_LEN
        &&& self.held.len() > 0 ==> self.held[0] == SYNC_BYTE
    }

    /// The state once `chunks` went in one after the other.
    pub open spec fn fed_all(self, chunks: Seq<Seq<u8>>) -> TsState
        decreases chunks.len(),
    {
        if chunks.len() == 0 {
            self
        } else {
            self.fed_all(chunks.drop_last()).fed(chunks.last())
        }
    }

    /// The bytes that come out when `chunks` go in one after the other.
    pub open spec fn output_all(self, chunks: Seq<Seq<u8>>) -> Seq<u8>
        decreases chunks.len(),
    {
        if chunks.len() == 0 {
            Seq::empty()
        } else {
            self.output_all(chunks.drop_last()) + self.fed_all(chunks.drop_last()).output(
                chunks.last(),
            )
        }
    }

    /// The state once a discontinuity of the source was reported.
    pub open spec fn marked(self) -> TsState {
        TsState { held: self.held, disc: self.disc.triggered() }
    }

    /// The state once an announcement for `pid` was put out, if one was due.
    pub open spec fn announced(self, pid: u16) -> TsState {
        TsState { held: self.held, disc: self.disc.announced(pid) }
    }

    /// The state once `op` was done.
    pub open spec fn done(self, op: TsOp) -> TsState {
        match op {
            TsOp::Process(data) => self.fed(data),
            TsOp::Mark => self.marked(),
            TsOp::Announce(pid) => self.announced(pid),
        }
    }

    /// The bytes that come out when `op` is done.
    pub open spec fn put_out(self, op: TsOp) -> Seq<u8> {
        match op {
            TsOp::Process(data) => self.output(data),
            TsOp::Mark => Seq::empty(),
            TsOp::Announce(pid) => self.disc.announcement(pid),
        }
    }

    /// The bytes that come out when `ops` are done one after the other.
    pub open spec fn put_out_all(self, ops: Seq<TsOp>) -> Seq<u8>
        decreases ops.len(),
    {
        if ops.len() == 0 {
            Seq::empty()
        } else {
            self.put_out_all(ops.drop_last()) + self.done_all(ops.drop_last()).put_out(ops.last())
        }
    }

    /// The state once `ops` were done one after the other.
    pub open spec fn done_all(self, ops: Seq<TsOp>) -> TsState
        decreases ops.len(),
    {
        if ops.len() == 0 {
            self
        } else {
            self.done_all(ops.drop_last()).done(ops.last())
        }
    }
}

/// What can be done to a processor.
pub enum TsOp {
    /// Bytes go in.
    Process(Seq<u8>),
    /// A discontinuity of the source is reported.
    Mark,
    /// An announcement for a PID is put out, if one is due.
    Announce(u16),
}

/// A processor of one transport stream.
pub struct TsProc {
    carry: Vec<u8>,
    synced: bool,
    disc_pending: bool,
    flagged_pids: HashSet<u16>,
    last_pcr: HashMap<u16, u64>,
    events: Vec<TsEvent>,
}

impl View for TsProc {
    type V = TsState;

    closed spec fn view(&self) -> TsState {
        TsState { held: skip_to_sync(self.carry@), disc: self.disc() }
    }
}

/// The first sync byte in `buf` at or behind `from`.
fn find_sync(buf: &Vec<u8>, from: usize) -> (pos: Option<usize>)
    requires
        from <= buf@.len(),
    ensures
        match pos {
            Some(k) => {
                &&& from <= k < buf@.len()
                &&& skip_to_sync(buf@.skip(from as int)) == buf@.skip(k as int)
                &&& buf@[k as int] == SYNC_BYTE
            },
            None => skip_to_sync(buf@.skip(from as int)) == Seq::<u8>::empty(),
        },
{
    let ghost tail = buf@.skip(from as int);
    let mut k: usize = from;
    while k < buf.len()
        invariant
            from <= k <= buf@.len(),
            tail == buf@.skip(from as int),
            forall|i: int| 0 <= i < k - from ==> tail[i] != SYNC_BYTE,
        decreases buf@.len() - k,
    {
        if buf[k] == SYNC_BYTE {
            proof {
                lemma_first_sync(tail, k - from);
                assert(tail.skip(k - from) =~= buf@.skip(k as int));
            }
            return Some(k);
        }
        k += 1;
    }
    proof {
        lemma_first_sync(tail, tail.len() as int);
        assert(tail.skip(tail.len() as int) =~= Seq::<u8>::empty());
    }
    None
}

proof fn lemma_pass_one(d: DiscState, done: Seq<Seq<u8>>, p: Seq<u8>)
    ensures
        d.after_all(done.push(p)) == d.after_all(done).after(p),
        d.emit_all(done.push(p)) == d.emit_all(done) + d.after_all(done).emit(p),
        d.notes_all(done.push(p)) == d.notes_all(done) + d.after_all(done).notes(p),
{
    assert(done.push(p).drop_last() =~= done);
}

impl TsProc {
    closed spec fn disc(&self) -> DiscState {
        DiscState {
            pending: self.disc_pending,
            flagged: self.flagged_pids@,
            last_pcr: self.last_pcr@,
        }
    }

    /// The invariant: less than a packet is kept, and nothing at all out of sync;
    /// only announceable PIDs are flagged, and only once a discontinuity was
    /// noticed.
    pub closed spec fn wf(&self) -> bool {
        &&& self.carry@.len() < PACKET_LEN
        &&& !self.synced ==> self.carry@.len() == 0
        &&& self.disc().valid()
    }

    /// What the latest call of `process` noticed.
    pub closed spec fn noted(&self) -> Seq<TsEvent> {
        self.events@
    }

    /// The bytes kept, as they came, and whether they are in sync.
    pub closed spec fn kept(&self) -> (Seq<u8>, bool) {
        (self.carry@, self.synced)
    }

    /// What a processor holds is less than a packet, from a sync byte on, and it
    /// flags only announceable PIDs once a discontinuity was noticed.
    pub proof fn lemma_valid(&self)
        requires
            self.wf(),
        ensures
            self@.valid(),
            self@.disc.valid(),
    {
        lemma_skip_to_sync(self.carry@);
    }

    /// A processor that has seen nothing yet.
    pub fn new() -> (r: TsProc)
        ensures
            r.wf(),
            r@ == TsState::fresh(),
            r.noted() == Seq::<TsEvent>::empty(),
    {
        let r = TsProc {
            carry: Vec::with_capacity(4096),
            synced: false,
            disc_pending: false,
            flagged_pids: HashSet::new(),
            last_pcr: HashMap::new(),
            events: Vec::new(),
        };
        assert(r@ =~= TsState::fresh());
        r
    }

    /// What the latest call of `process` noticed, in order.
    pub fn events(&self) -> (r: &Vec<TsEvent>)
        ensures
            r@ == self.noted(),
    {
        &self.events
    }

    /// Forgets what the latest call of `process` noticed.
    pub fn clear_events(&mut self)
        requires
            old(self).wf(),
        ensures
            final(self).wf(),
            final(self)@ == old(self)@,
            final(self).noted() == Seq::<TsEvent>::empty(),
    {
        self.events.clear();
    }

    /// Reports a discontinuity of the source: it is announced in front of the
    /// next packet of every announceable PID.
    pub fn mark_discontinuity(&mut self)
        requires
            old(self).wf(),
        ensures
            final(self).wf(),
            final(self)@ == old(self)@.marked(),
            final(self).noted() == old(self).noted(),
            final(self)@.disc.pending,
            forall|pid: u16| #[trigger]
                final(self)@.disc.announces(pid) <==> is_announceable(pid),
    {
        self.trigger();
        assert(self@ =~= old(self)@.marked());
    }

    /// Notes a discontinuity.
    fn trigger(&mut self)
        ensures
            final(self).carry == old(self).carry,
            final(self).synced == old(self).synced,
            final(self).events == old(self).events,
            final(self).disc() == old(self).disc().triggered(),
    {
        self.disc_pending = true;
        self.flagged_pids.clear();
        self.last_pcr.clear();
    }

    /// The program clock reference of a packet in 27 MHz ticks, if it carries one.
    pub fn extract_pcr(p: &[u8]) -> (pcr: Option<u64>)
        ensures
            pcr == pcr_of(p@),
            pcr matches Some(t) ==> t == pcr_base(p@) * 300 + pcr_extension(p@),
    {
        if p.len() < 12 {
            return None;
        }
        let control: u8 = p[3];
        let flags: u8 = p[5];
        assert((control >> 4) & 0x03 == (control / 16) % 4) by (bit_vector);
        assert((flags & 0x10 == 0) == ((flags / 16) % 2 == 0)) by (bit_vector);
        let af_ctrl: u8 = (control >> 4) & 0x03;
        if af_ctrl != 0b10 && af_ctrl != 0b11 {
            return None;
        }
        if p[4] == 0 {
            return None;
        }
        if (flags & 0x10) == 0 {
            return None;
        }
        let (b6, b7, b8, b9, b10, b11): (u8, u8, u8, u8, u8, u8) = (
            p[6],
            p[7],
            p[8],
            p[9],
            p[10],
            p[11],
        );
        let base: u64 = ((b6 as u64) << 25) | ((b7 as u64) << 17) | ((b8 as u64) << 9) | ((
        b9 as u64) << 1) | ((b10 as u64) >> 7);
        let ext: u64 = (((b10 as u64) & 0x01) << 8) | (b11 as u64);
        assert(((b6 as u64) << 25) | ((b7 as u64) << 17) | ((b8 as u64) << 9) | ((b9 as u64) << 1)
            | ((b10 as u64) >> 7) == b6 * 0x200_0000 + b7 * 0x2_0000 + b8 * 0x200 + b9 * 2 + b10
            / 128) by (bit_vector);
        assert((((b10 as u64) & 0x01) << 8) | (b11 as u64) == (b10 % 2) * 256 + b11)
            by (bit_vector);
        Some(base * 300 + ext)
    }

    /// Looks at the clock reference of a packet of `pid`.
    fn observe_clock(&mut self, pid: u16, pcr: u64)
        ensures
            final(self).carry == old(self).carry,
            final(self).synced == old(self).synced,
            ({
                let d = old(self).disc();
                let jumped = d.last_pcr.contains_key(pid) && is_jump(d.last_pcr[pid], pcr);
                let e = if jumped {
                    d.triggered()
                } else {
                    d
                };
                &&& final(self).disc() == DiscState { last_pcr: e.last_pcr.insert(pid, pcr), ..e }
                &&& final(self).events@ == if jumped {
                    old(self).events@.push(TsEvent::PcrJump { pid, prev: d.last_pcr[pid], pcr })
                } else {
                    old(self).events@
                }
            }),
    {
        let seen: Option<u64> = match self.last_pcr.get(&pid) {
            Some(prev) => Some(*prev),
            None => None,
        };
        if let Some(prev) = seen {
            if pcr < prev || pcr - prev > PCR_JUMP_FORWARD_TICKS {
                self.trigger();
                self.events.push(TsEvent::PcrJump { pid, prev, pcr });
            }
        }
        self.last_pcr.insert(pid, pcr);
    }

    /// Puts an announcement for `pid` out, if one is due. Another call for the same
    /// PID then changes nothing until the next discontinuity.
    pub fn maybe_inject_disc(&mut self, pid: u16, out: &mut Vec<u8>)
        ensures
            old(self).wf() ==> final(self).wf(),
            final(self).kept() == old(self).kept(),
            final(self)@ == old(self)@.announced(pid),
            final(out)@ == old(out)@ + old(self)@.disc.announcement(pid),
            final(self).noted() == if old(self)@.disc.announces(pid) {
                old(self).noted().push(TsEvent::Announced { pid })
            } else {
                old(self).noted()
            },
            old(self)@.disc.announces(pid) ==> final(out)@ == old(out)@ + disc_packet(pid),
            !old(self)@.disc.announces(pid) ==> final(self)@ == old(self)@ && final(out)@ == old(
                out,
            )@,
            !final(self)@.disc.announces(pid),
            final(self)@.disc.pending == old(self)@.disc.pending,
    {
        assert(out@ + Seq::<u8>::empty() =~= out@);
        if !self.disc_pending {
            return ;
        }
        if pid == NULL_PID {
            return ;
        }
        if pid == PAT_PID {
            return ;
        }
        if self.flagged_pids.contains(&pid) {
            return ;
        }
        let packet = make_disc_packet(pid);
        out.extend_from_slice(packet.as_slice());
        assert(out@ =~= old(out)@ + disc_packet(pid));
        self.flagged_pids.insert(pid);
        self.events.push(TsEvent::Announced { pid });
        assert(self.disc() =~= old(self).disc().announced(pid));
        assert(old(self).disc().valid() ==> self.disc().valid());
    }

    /// Puts out the packet at `at`, with an announcement in front of it if one is
    /// due.
    fn pass_packet(&mut self, at: usize, out: &mut Vec<u8>)
        requires
            at + PACKET_LEN <= old(self).carry.len(),
        ensures
            final(self).kept() == old(self).kept(),
            ({
                let p = old(self).carry@.subrange(at as int, at + PACKET_LEN);
                &&& final(self).disc() == old(self).disc().after(p)
                &&& final(out)@ == old(out)@ + old(self).disc().emit(p)
                &&& final(self).events@ == old(self).events@ + old(self).disc().notes(p)
            }),
    {
        let ghost p = self.carry@.subrange(at as int, at + PACKET_LEN);
        let end: usize = at + PACKET_LEN;
        let packet: &[u8] = slice_subrange(self.carry.as_slice(), at, end);
        let pid: u16 = packet_pid(packet);
        if let Some(pcr) = Self::extract_pcr(packet) {
            self.observe_clock(pid, pcr);
        }
        self.maybe_inject_disc(pid, out);
        out.extend_from_slice(slice_subrange(self.carry.as_slice(), at, end));
        assert(out@ =~= old(out)@ + old(self).disc().emit(p));
        assert(self.events@ =~= old(self).events@ + old(self).disc().notes(p));
    }

    /// Takes in `data` and puts out every packet that is whole by now, with an
    /// announcement in front of those that need one. Bytes between packets are
    /// dropped.
    pub fn process(&mut self, data: &[u8]) -> (out: Vec<u8>)
        requires
            old(self).wf(),
        ensures
            final(self).wf(),
            final(self)@ == old(self)@.fed(data@),
            out@ == old(self)@.output(data@),
            final(self).noted() == old(self)@.notes(data@),
            old(self)@.disc.pending ==> final(self)@.disc.pending,
    {
        let ghost start = self@;
        let ghost buf = self.carry@ + data@;
        proof {
            lemma_cut_from_sync(self.carry@, data@);
        }
        self.events.clear();
        self.carry.extend_from_slice(data);
        assert(self.carry@ =~= buf);
        assert(buf.skip(0) =~= buf);

        let mut at: usize = 0;
        if !self.synced {
            match find_sync(&self.carry, 0) {
                Some(pos) => {
                    at = pos;
                    self.synced = true;
                },
                None => {
                    self.carry.clear();
                    assert(self@ =~= start.fed(data@));
                    return Vec::new();
                },
            }
        }
        let ghost mut done: Seq<Seq<u8>> = Seq::empty();
        proof {
            lemma_skip_to_sync(buf.skip(at as int));
            assert(done + packets(buf.skip(at as int)) =~= packets(buf));
        }
        let mut out: Vec<u8> = Vec::new();
        while self.carry.len() - at >= PACKET_LEN
            invariant
                self.carry@ == buf,
                at <= buf.len(),
                self.synced || at == buf.len(),
                packets(buf) == done + packets(buf.skip(at as int)),
                remainder(buf) == remainder(buf.skip(at as int)),
                self.disc() == start.disc.after_all(done),
                out@ == start.disc.emit_all(done),
                self.events@ == start.disc.notes_all(done),
            decreases buf.len() - at,
        {
            let ghost tail = buf.skip(at as int);
            if self.carry[at] != SYNC_BYTE {
                proof {
                    lemma_skip_to_sync(tail);
                }
                self.synced = false;
                match find_sync(&self.carry, at) {
                    Some(pos) => {
                        at = pos;
                        self.synced = true;
                    },
                    None => {
                        at = self.carry.len();
                        assert(buf.skip(at as int) =~= Seq::<u8>::empty());
                    },
                }
            } else {
                let ghost p = tail.take(PACKET_LEN as int);
                assert(skip_to_sync(tail) == tail);
                assert(tail.skip(PACKET_LEN as int) =~= buf.skip(at + PACKET_LEN));
                assert(buf.subrange(at as int, at + PACKET_LEN) =~= p);
                self.pass_packet(at, &mut out);
                at += PACKET_LEN;
                proof {
                    lemma_pass_one(start.disc, done, p);
                    assert(done + packets(tail) =~= done.push(p) + packets(buf.skip(at as int)));
                    done = done.push(p);
                }
            }
        }
        proof {
            lemma_skip_to_sync(buf.skip(at as int));
            assert(done + Seq::<Seq<u8>>::empty() =~= done);
        }
        proof {
            lemma_flags(start.disc, done);
            if start.disc.pending {
                lemma_stays_pending(start.disc, done);
            }
        }
        self.carry = self.carry.split_off(at);
        assert(self@ =~= start.fed(data@));
        out
    }
}

/// Whatever goes in, less than a packet is held behind it, from a sync byte on.
pub proof fn lemma_fed_valid(s: TsState, data: Seq<u8>)
    ensures
        s.fed(data).valid(),
{
    lemma_cut_shape(s.held + data);
}

/// Whatever goes in, what comes out is a row of whole packets.
pub proof fn lemma_output_row(s: TsState, data: Seq<u8>)
    ensures
        is_packet_row(s.output(data)),
{
    lemma_cut_shape(s.held + data);
    lemma_emit_row(s.disc, s.completed(data));
}

/// Feeding `a` and then `b` does what feeding both at once does.
pub proof fn lemma_feed_append(s: TsState, a: Seq<u8>, b: Seq<u8>)
    ensures
        s.fed(a + b) == s.fed(a).fed(b),
        s.output(a + b) == s.output(a) + s.fed(a).output(b),
        s.notes(a + b) == s.notes(a) + s.fed(a).notes(b),
{
    assert(s.held + (a + b) =~= (s.held + a) + b);
    lemma_cut_append(s.held + a, b);
    lemma_batches(s.disc, s.completed(a), s.fed(a).completed(b));
}

/// How a stream is cut into chunks on its way in makes no difference.
pub proof fn lemma_chunking(s: TsState, chunks: Seq<Seq<u8>>)
    requires
        s.valid(),
    ensures
        s.fed_all(chunks) == s.fed(chunks.flatten()),
        s.output_all(chunks) == s.output(chunks.flatten()),
    decreases chunks.len(),
{
    if chunks.len() == 0 {
        assert(s.held + chunks.flatten() =~= s.held);
        assert(skip_to_sync(s.held) == s.held);
        assert(s.fed(chunks.flatten()) =~= s);
    } else {
        let front = chunks.drop_last();
        lemma_chunking(s, front);
        lemma_feed_append(s, front.flatten(), chunks.last());
        assert(front.push(chunks.last()) =~= chunks);
        front.lemma_flatten_push(chunks.last());
    }
}

/// As long as no discontinuity was noticed and packets follow each other without
/// a gap, they go out just as they came in, as soon as they are whole, and only
/// the beginning of the next one is held back.
pub proof fn lemma_warm_path(s: TsState, data: Seq<u8>)
    requires
        !s.disc.pending,
        is_aligned(s.held + data),
        s.disc.is_continuous(s.completed(data)),
    ensures
        ({
            let all = s.held + data;
            &&& s.output(data) == all.take(whole_len(all.len()))
            &&& s.fed(data).held == all.skip(whole_len(all.len()))
            &&& !s.fed(data).disc.pending
        }),
{
    lemma_aligned_cut(s.held + data);
    lemma_passthrough(s.disc, s.completed(data));
}

/// In every state that a processor reaches, only announceable PIDs are flagged,
/// and only once a discontinuity was noticed.
pub proof fn lemma_reached_flags(ops: Seq<TsOp>)
    ensures
        TsState::fresh().done_all(ops).disc.valid(),
        !TsState::fresh().done_all(ops).disc.flagged.contains(PAT_PID),
        !TsState::fresh().done_all(ops).disc.flagged.contains(NULL_PID),
        !TsState::fresh().done_all(ops).disc.pending ==> TsState::fresh().done_all(
            ops,
        ).disc.flagged == Set::<u16>::empty(),
    decreases ops.len(),
{
    if ops.len() > 0 {
        let s = TsState::fresh().done_all(ops.drop_last());
        lemma_reached_flags(ops.drop_last());
        if let TsOp::Process(data) = ops.last() {
            lemma_flags(s.disc, s.completed(data));
        }
    }
    let d = TsState::fresh().done_all(ops).disc;
    if !d.pending {
        assert(d.flagged =~= Set::<u16>::empty());
    }
}

/// A discontinuity that was noticed stays on record, whatever is done.
pub proof fn lemma_reached_pending(s: TsState, ops: Seq<TsOp>)
    requires
        s.disc.pending,
    ensures
        s.done_all(ops).disc.pending,
    decreases ops.len(),
{
    if ops.len() > 0 {
        lemma_reached_pending(s, ops.drop_last());
        if let TsOp::Process(data) = ops.last() {
            let before = s.done_all(ops.drop_last());
            lemma_stays_pending(before.disc, before.completed(data));
        }
    }
}

/// To put an announcement out twice is to put it out once: the second time changes
/// nothing and puts nothing out.
pub proof fn lemma_inject_twice(s: TsState, pid: u16)
    ensures
        s.announced(pid).announced(pid) == s.announced(pid),
        s.announced(pid).disc.announcement(pid) == Seq::<u8>::empty(),
{
    lemma_announced_twice(s.disc, pid);
}

/// Once a discontinuity of the source was reported, every announceable PID gets
/// an announcement in front of its next packet, and no second one.
pub proof fn lemma_marked_rearms(s: TsState, pid: u16)
    requires
        is_announceable(pid),
    ensures
        s.marked().disc.announcement(pid) == disc_packet(pid),
        s.marked().announced(pid).disc.announcement(pid) == Seq::<u8>::empty(),
{
    lemma_rearmed(s.disc, pid);
    lemma_announced_twice(s.marked().disc, pid);
}

/// A reported discontinuity is announced in front of the first packet of every
/// announceable PID that follows, and of no other as long as no clock jumps.
pub proof fn lemma_marked_announces(s: TsState, data: Seq<u8>, i: int)
    requires
        s.marked().disc.is_continuous(s.marked().completed(data)),
        0 <= i < s.marked().completed(data).len(),
    ensures
        s.marked().disc.marks_at(s.marked().completed(data), i) <==> {
            let ps = s.marked().completed(data);
            &&& is_announceable(pid_of(ps[i]))
            &&& forall|j: int| 0 <= j < i ==> #[trigger] pid_of(ps[j]) != pid_of(ps[i])
        },
{
    lemma_announced_once(s.marked().disc, s.marked().completed(data), i);
}

/// Whatever the clocks do, a reported discontinuity is announced in front of the
/// first packet of every announceable PID that follows.
pub proof fn lemma_marked_first(s: TsState, data: Seq<u8>, i: int)
    requires
        0 <= i < s.marked().completed(data).len(),
        is_announceable(pid_of(s.marked().completed(data)[i])),
        forall|j: int|
            0 <= j < i ==> #[trigger] pid_of(s.marked().completed(data)[j]) != pid_of(
                s.marked().completed(data)[i],
            ),
    ensures
        s.marked().disc.marks_at(s.marked().completed(data), i),
{
    lemma_first_announced(s.marked().disc, s.marked().completed(data), i);
}

/// In the beginning nothing is held and no discontinuity is known.
pub proof fn lemma_fresh_state()
    ensures
        TsState::fresh().held == Seq::<u8>::empty(),
        TsState::fresh().disc == DiscState::fresh(),
{
}

/// A reported discontinuity keeps the bytes held, is announced on no PID yet, and
/// makes every clock forgotten; an announcement keeps the bytes held too.
pub proof fn lemma_marked(s: TsState, pid: u16)
    ensures
        s.marked().held == s.held,
        s.marked().disc.pending,
        !s.marked().disc.flagged.contains(pid),
        !s.marked().disc.last_pcr.contains_key(pid),
        s.announced(pid).held == s.held,
        s.announced(pid).disc == s.disc.announced(pid),
{
}

/// What the first whole packet does: if the bytes held and the bytes that go in
/// are noise without a 0x47, 188 bytes from a 0x47 on, and a rest, then those 188
/// bytes go out first, by themselves, and the rest is processed behind them. Noise
/// leaves no trace.
pub proof fn lemma_feed_packet(
    s: TsState,
    data: Seq<u8>,
    noise: Seq<u8>,
    p: Seq<u8>,
    rest: Seq<u8>,
)
    requires
        s.held + data == noise + p + rest,
        forall|i: int| 0 <= i < noise.len() ==> noise[i] != 0x47,
        p.len() == 188,
        p[0] == 0x47,
    ensures
        ({
            let behind = TsState { held: Seq::empty(), disc: s.disc.after(p) };
            &&& s.output(data) == s.disc.emit(p) + behind.output(rest)
            &&& s.notes(data) == s.disc.notes(p) + behind.notes(rest)
            &&& s.fed(data) == behind.fed(rest)
        }),
{
    let behind = TsState { held: Seq::empty(), disc: s.disc.after(p) };
    lemma_cut_packet(noise, p, rest);
    lemma_one_packet(s.disc, p);
    lemma_batches(s.disc, seq![p], packets(rest));
    assert(behind.held + rest =~= rest);
}

/// What fewer bytes do: if the bytes held and the bytes that go in are noise
/// without a 0x47 and then fewer than 188 bytes from a 0x47 on, nothing goes out,
/// nothing is noticed, and those bytes are held.
pub proof fn lemma_feed_tail(s: TsState, data: Seq<u8>, noise: Seq<u8>, tail: Seq<u8>)
    requires
        s.held + data == noise + tail,
        forall|i: int| 0 <= i < noise.len() ==> noise[i] != 0x47,
        tail.len() < 188,
        tail.len() > 0 ==> tail[0] == 0x47,
    ensures
        s.output(data) == Seq::<u8>::empty(),
        s.notes(data) == Seq::<TsEvent>::empty(),
        s.fed(data) == (TsState { held: tail, disc: s.disc }),
{
    lemma_cut_tail(noise, tail);
    lemma_one_packet(s.disc, tail);
}

/// No bytes do nothing.
pub proof fn lemma_feed_nothing(s: TsState)
    requires
        s.valid(),
    ensures
        s.output(Seq::empty()) == Seq::<u8>::empty(),
        s.notes(Seq::empty()) == Seq::<TsEvent>::empty(),
        s.fed(Seq::empty()) == s,
{
    assert(s.held + Seq::<u8>::empty() =~= Seq::<u8>::empty() + s.held);
    lemma_feed_tail(s, Seq::empty(), Seq::empty(), s.held);
}

/// Two packets of one PID with clock references go through a new processor just as
/// they came, with a discontinuity packet between them exactly if the clock went
/// backward, by however much, or forward by more than 13 500 000 ticks, and the
/// PID is neither 0 nor 0x1FFF.
pub proof fn lemma_two_clocks(a: Seq<u8>, b: Seq<u8>)
    requires
        a.len() == 188,
        a[0] == 0x47,
        b.len() == 188,
        b[0] == 0x47,
        pid_of(a) == pid_of(b),
        pcr_of(a) is Some,
        pcr_of(b) is Some,
    ensures
        ({
            let (prev, pcr) = (pcr_of(a)->0, pcr_of(b)->0);
            let jumped = pcr < prev || pcr > prev + 13_500_000;
            TsState::fresh().output(a + b) == if jumped && pid_of(a) != 0 && pid_of(a) != 0x1FFF {
                a + disc_packet(pid_of(a)) + b
            } else {
                a + b
            }
        }),
{
    let s = TsState::fresh();
    let none = Seq::<u8>::empty();
    let t = TsState { held: none, disc: s.disc.after(a) };
    let u = TsState { held: none, disc: t.disc.after(b) };
    assert(s.held + (a + b) =~= none + a + b);
    lemma_feed_packet(s, a + b, none, a, b);
    assert(t.held + b =~= none + b + none);
    lemma_feed_packet(t, b, none, b, none);
    lemma_feed_nothing(u);
    lemma_step(s.disc, a);
    lemma_step(t.disc, b);
    assert(t.disc.emit(b) + none =~= t.disc.emit(b));
    assert(t.disc.last_pcr.contains_key(pid_of(b)));
    assert(a + (disc_packet(pid_of(a)) + b) =~= a + disc_packet(pid_of(a)) + b);
}

} // verus!
