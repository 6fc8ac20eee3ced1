//! The once-a-second report.

use vstd::prelude::*;

verus! {

/// The running totals, each modulo 2 to the 64.
#[derive(Clone, Copy, Debug, PartialEq, Eq, Structural)]
pub struct Counters {
    /// Bytes read from the source.
    pub read: u64,
    /// Bytes of the source written to the output.
    pub written: u64,
    /// Microseconds that the producer spent on processing and on the queue.
    pub prod_blocked_us: u64,
    /// Microseconds that the consumer spent blocked.
    pub cons_blocked_us: u64,
}

/// What one report holds.
#[derive(Clone, Copy, Debug, PartialEq, Eq, Structural)]
pub struct Report {
    /// Bytes read so far.
    pub read: u64,
    /// Bytes written so far.
    pub written: u64,
    /// Bytes read since the report before.
    pub d_read: u64,
    /// Bytes written since the report before.
    pub d_written: u64,
    /// Milliseconds the producer was blocked since the report before.
    pub prod_blocked_ms: u64,
    /// Milliseconds the consumer was blocked since the report before.
    pub cons_blocked_ms: u64,
}

/// How far a total that counts modulo 2 to the 64 went from `last` to `now`.
pub open spec fn advance(last: u64, now: u64) -> u64 {
    if now >= last {
        (now - last) as u64
    } else {
        (now - last + 0x1_0000_0000_0000_0000) as u64
    }
}

/// The report on the way from `last` to `now`.
pub open spec fn report(last: Counters, now: Counters) -> Report {
    Report {
        read: now.read,
        written: now.written,
        d_read: advance(last.read, now.read),
        d_written: advance(last.written, now.written),
        prod_blocked_ms: (advance(last.prod_blocked_us, now.prod_blocked_us) / 1000) as u64,
        cons_blocked_ms: (advance(last.cons_blocked_us, now.cons_blocked_us) / 1000) as u64,
    }
}

/// The totals of the report before.
pub struct Summary {
    last: Counters,
}

impl View for Summary {
    type V = Counters;

    closed spec fn view(&self) -> Counters {
        self.last
    }
}

impl Summary {
    /// No report yet.
    pub fn new() -> (r: Summary)
        ensures
            r@ == (Counters { read: 0, written: 0, prod_blocked_us: 0, cons_blocked_us: 0 }),
    {
        Summary { last: Counters { read: 0, written: 0, prod_blocked_us: 0, cons_blocked_us: 0 } }
    }

    /// Reports on what happened since the report before.
    pub fn tick(&mut self, now: Counters) -> (r: Report)
        ensures
            r == report(old(self)@, now),
            final(self)@ == now,
    {
        let r = Report {
            read: now.read,
            written: now.written,
            d_read: now.read.wrapping_sub(self.last.read),
            d_written: now.written.wrapping_sub(self.last.written),
            prod_blocked_ms: now.prod_blocked_us.wrapping_sub(self.last.prod_blocked_us) / 1000,
            cons_blocked_ms: now.cons_blocked_us.wrapping_sub(self.last.cons_blocked_us) / 1000,
        };
        self.last = now;
        r
    }
}

/// What a report says was read and written, added to the totals of the report
/// before, gives its own totals.
pub proof fn lemma_report_adds_up(last: Counters, now: Counters)
    ensures
        last.read.wrapping_add(report(last, now).d_read) == report(last, now).read,
        last.written.wrapping_add(report(last, now).d_written) == report(last, now).written,
{
}

/// A report holds the totals and what each grew by since the report before; time
/// is given in whole milliseconds.
pub proof fn lemma_report(last: Counters, now: Counters)
    ensures
        report(last, now).read == now.read,
        report(last, now).written == now.written,
        last.read <= now.read ==> last.read + report(last, now).d_read == now.read,
        last.written <= now.written ==> last.written + report(last, now).d_written == now.written,
        ({
            let ms = report(last, now).prod_blocked_ms;
            last.prod_blocked_us <= now.prod_blocked_us ==> last.prod_blocked_us + ms * 1000
                <= now.prod_blocked_us < last.prod_blocked_us + ms * 1000 + 1000
        }),
        ({
            let ms = report(last, now).cons_blocked_ms;
            last.cons_blocked_us <= now.cons_blocked_us ==> last.cons_blocked_us + ms * 1000
                <= now.cons_blocked_us < last.cons_blocked_us + ms * 1000 + 1000
        }),
{
}

/// A total that went round keeps growing: with 2 to the 64 added to it, it is ahead
/// of the report before.
pub proof fn lemma_report_round(last: Counters, now: Counters)
    ensures
        last.read > now.read ==> last.read + report(last, now).d_read == now.read
            + 0x1_0000_0000_0000_0000,
        last.written > now.written ==> last.written + report(last, now).d_written == now.written
            + 0x1_0000_0000_0000_0000,
        ({
            let ms = report(last, now).prod_blocked_ms;
            last.prod_blocked_us > now.prod_blocked_us ==> last.prod_blocked_us + ms * 1000
                <= now.prod_blocked_us + 0x1_0000_0000_0000_0000 < last.prod_blocked_us + ms * 1000
                + 1000
        }),
        ({
            let ms = report(last, now).cons_blocked_ms;
            last.cons_blocked_us > now.cons_blocked_us ==> last.cons_blocked_us + ms * 1000
                <= now.cons_blocked_us + 0x1_0000_0000_0000_0000 < last.cons_blocked_us + ms * 1000
                + 1000
        }),
{
}

} // verus!
