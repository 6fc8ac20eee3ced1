//! How a byte stream is cut into packets.

use crate::packet::{is_packet, PACKET_LEN, SYNC_BYTE};
use vstd::prelude::*;

verus! {

/// The part of `s` from its first sync byte on; empty if there is none.
pub open spec fn skip_to_sync(s: Seq<u8>) -> Seq<u8>
    decreases s.len(),
{
    if s.len() == 0 || s[0] == SYNC_BYTE {
        s
    } else {
        skip_to_sync(s.drop_first())
    }
}

/// The whole packets in `s`: what stands before a sync byte is skipped, and the
/// 188 bytes from a sync byte on are a packet.
pub open spec fn packets(s: Seq<u8>) -> Seq<Seq<u8>>
    decreases s.len(),
{
    proof {
        lemma_skip_to_sync(s);
    }
    let b = skip_to_sync(s);
    if b.len() < PACKET_LEN {
        Seq::empty()
    } else {
        seq![b.take(PACKET_LEN as int)] + packets(b.skip(PACKET_LEN as int))
    }
}

/// What is left of `s` behind its last whole packet, from a sync byte on.
pub open spec fn remainder(s: Seq<u8>) -> Seq<u8>
    decreases s.len(),
{
    proof {
        lemma_skip_to_sync(s);
    }
    let b = skip_to_sync(s);
    if b.len() < PACKET_LEN {
        b
    } else {
        remainder(b.skip(PACKET_LEN as int))
    }
}

/// Whether `s` is a row of whole packets with nothing in front, between or
/// behind them.
pub open spec fn is_packet_row(s: Seq<u8>) -> bool
    decreases s.len(),
{
    ||| s.len() == 0
    ||| {
        &&& s.len() >= PACKET_LEN
        &&& is_packet(s.take(PACKET_LEN as int))
        &&& is_packet_row(s.skip(PACKET_LEN as int))
    }
}

/// Whether each position of `s` that is a multiple of 188 holds a sync byte.
pub open spec fn is_aligned(s: Seq<u8>) -> bool {
    forall|i: int| 0 <= i < s.len() && i % (PACKET_LEN as int) == 0 ==> #[trigger] s[i] == SYNC_BYTE
}

/// The length of the whole packets in a stream of `len` bytes.
pub open spec fn whole_len(len: nat) -> int {
    len - len % (PACKET_LEN as nat)
}

/// Skipping to the first sync byte drops the bytes in front of it, none of
/// which is a sync byte, and nothing else.
pub proof fn lemma_skip_to_sync(s: Seq<u8>)
    ensures
        skip_to_sync(s).len() <= s.len(),
        skip_to_sync(s) == s.skip(s.len() - skip_to_sync(s).len()),
        skip_to_sync(s).len() > 0 ==> skip_to_sync(s)[0] == SYNC_BYTE,
        forall|i: int| 0 <= i < s.len() - skip_to_sync(s).len() ==> s[i] != SYNC_BYTE,
    decreases s.len(),
{
    if s.len() == 0 || s[0] == SYNC_BYTE {
        assert(s.skip(0) =~= s);
    } else {
        let t = s.drop_first();
        lemma_skip_to_sync(t);
        assert(skip_to_sync(s) =~= s.skip(s.len() - skip_to_sync(s).len()));
        assert forall|i: int| 0 <= i < s.len() - skip_to_sync(s).len() implies s[i]
            != SYNC_BYTE by {
            if i > 0 {
                assert(s[i] == t[i - 1]);
            }
        }
    }
}

/// A position with no sync byte before it and a sync byte on it, or the end of
/// `s`, is where `skip_to_sync` skips to.
pub proof fn lemma_first_sync(s: Seq<u8>, pos: int)
    requires
        0 <= pos <= s.len(),
        forall|i: int| 0 <= i < pos ==> s[i] != SYNC_BYTE,
        pos < s.len() ==> s[pos] == SYNC_BYTE,
    ensures
        skip_to_sync(s) == s.skip(pos),
    decreases s.len(),
{
    if pos == 0 {
        assert(s.skip(0) =~= s);
    } else {
        let t = s.drop_first();
        assert forall|i: int| 0 <= i < pos - 1 implies t[i] != SYNC_BYTE by {
            assert(t[i] == s[i + 1]);
        }
        lemma_first_sync(t, pos - 1);
        assert(t.skip(pos - 1) =~= s.skip(pos));
    }
}

/// Bytes appended behind a sync byte stay; with no sync byte yet, only the
/// appended bytes count.
pub proof fn lemma_skip_to_sync_append(a: Seq<u8>, b: Seq<u8>)
    ensures
        skip_to_sync(a + b) == if skip_to_sync(a).len() > 0 {
            skip_to_sync(a) + b
        } else {
            skip_to_sync(b)
        },
        skip_to_sync(skip_to_sync(a) + b) == skip_to_sync(a + b),
    decreases a.len(),
{
    lemma_skip_to_sync(a);
    if a.len() == 0 {
        assert(a + b =~= b);
    } else if a[0] != SYNC_BYTE {
        lemma_skip_to_sync_append(a.drop_first(), b);
        assert((a + b).drop_first() =~= a.drop_first() + b);
    }
}

/// Only what stands from the first sync byte on matters for the cutting.
pub proof fn lemma_cut_from_sync(a: Seq<u8>, b: Seq<u8>)
    ensures
        packets(skip_to_sync(a) + b) == packets(a + b),
        remainder(skip_to_sync(a) + b) == remainder(a + b),
{
    lemma_skip_to_sync_append(a, b);
}

/// Cutting `a` first and then what was left of it together with `b` gives the
/// same packets, and leaves the same bytes, as cutting `a` and `b` at once.
pub proof fn lemma_cut_append(a: Seq<u8>, b: Seq<u8>)
    ensures
        packets(a + b) == packets(a) + packets(remainder(a) + b),
        remainder(a + b) == remainder(remainder(a) + b),
    decreases a.len(),
{
    lemma_skip_to_sync(a);
    lemma_skip_to_sync_append(a, b);
    let s = skip_to_sync(a);
    if s.len() < PACKET_LEN {
        lemma_cut_from_sync(a, b);
        assert(packets(a) + packets(s + b) =~= packets(s + b));
    } else {
        let n = PACKET_LEN as int;
        assert((s + b).take(n) =~= s.take(n));
        assert((s + b).skip(n) =~= s.skip(n) + b);
        lemma_cut_append(s.skip(n), b);
        assert(packets(a + b) =~= packets(a) + packets(remainder(a) + b));
    }
}

/// Every packet that the cutting yields is whole, and less than a packet is
/// left, from a sync byte on.
pub proof fn lemma_cut_shape(s: Seq<u8>)
    ensures
        forall|i: int| 0 <= i < packets(s).len() ==> is_packet(#[trigger] packets(s)[i]),
        remainder(s).len() < PACKET_LEN,
        remainder(s).len() > 0 ==> remainder(s)[0] == SYNC_BYTE,
        packets(remainder(s)).len() == 0,
        remainder(remainder(s)) == remainder(s),
    decreases s.len(),
{
    lemma_skip_to_sync(s);
    let b = skip_to_sync(s);
    if b.len() >= PACKET_LEN {
        let n = PACKET_LEN as int;
        lemma_cut_shape(b.skip(n));
        assert forall|i: int| 0 <= i < packets(s).len() implies is_packet(
            #[trigger] packets(s)[i],
        ) by {
            if i > 0 {
                assert(packets(s)[i] == packets(b.skip(n))[i - 1]);
            }
        }
    } else {
        lemma_skip_to_sync(b);
    }
}

/// Bytes without a sync byte hold no packet and leave nothing.
pub proof fn lemma_cut_noise(s: Seq<u8>)
    requires
        !s.contains(SYNC_BYTE),
    ensures
        packets(s).len() == 0,
        remainder(s).len() == 0,
{
    lemma_first_sync(s, s.len() as int);
}

/// Bytes without a sync byte in front of a stream change nothing.
pub proof fn lemma_resync(noise: Seq<u8>, s: Seq<u8>)
    requires
        !noise.contains(SYNC_BYTE),
    ensures
        packets(noise + s) == packets(s),
        remainder(noise + s) == remainder(s),
{
    lemma_first_sync(noise, noise.len() as int);
    lemma_cut_from_sync(noise, s);
    assert(skip_to_sync(noise) + s =~= s);
}

/// A row of packets has a multiple of 188 bytes and a sync byte on each of
/// those multiples.
pub proof fn lemma_row_layout(s: Seq<u8>, k: int)
    requires
        is_packet_row(s),
        0 <= k,
        k * PACKET_LEN < s.len(),
    ensures
        s.len() % (PACKET_LEN as nat) == 0,
        s[k * PACKET_LEN] == SYNC_BYTE,
    decreases s.len(),
{
    let n = PACKET_LEN as int;
    let t = s.skip(n);
    assert(s.take(n)[0] == s[0]);
    if t.len() > 0 {
        if k > 0 {
            lemma_row_layout(t, k - 1);
            assert(t[(k - 1) * n] == s[k * n]);
        } else {
            lemma_row_layout(t, 0);
        }
    }
}

/// Rows of packets can be joined.
pub proof fn lemma_row_append(a: Seq<u8>, b: Seq<u8>)
    requires
        is_packet_row(a),
        is_packet_row(b),
    ensures
        is_packet_row(a + b),
    decreases a.len(),
{
    let n = PACKET_LEN as int;
    if a.len() == 0 {
        assert(a + b =~= b);
    } else {
        assert((a + b).take(n) =~= a.take(n));
        assert((a + b).skip(n) =~= a.skip(n) + b);
        lemma_row_append(a.skip(n), b);
    }
}

/// A whole packet is a row of one.
pub proof fn lemma_row_single(p: Seq<u8>)
    requires
        is_packet(p),
    ensures
        is_packet_row(p),
{
    assert(p.take(PACKET_LEN as int) =~= p);
    assert(is_packet_row(p.skip(PACKET_LEN as int)));
}

/// A row of packets is cut without loss: joined again, its packets are the row,
/// and nothing is left.
pub proof fn lemma_row_cut(s: Seq<u8>)
    requires
        is_packet_row(s),
    ensures
        packets(s).flatten() == s,
        remainder(s).len() == 0,
    decreases s.len(),
{
    let n = PACKET_LEN as int;
    if s.len() > 0 {
        assert(s.take(n)[0] == s[0]);
        assert(skip_to_sync(s) == s);
        lemma_row_cut(s.skip(n));
        assert(packets(s).drop_first() =~= packets(s.skip(n)));
        assert(packets(s).first() == s.take(n));
        assert(s.take(n) + s.skip(n) =~= s);
    }
}

/// A stream with a sync byte on each multiple of 188 is cut there: joined again,
/// its packets are all of it but what follows the last whole packet, and that is
/// left.
pub proof fn lemma_aligned_cut(s: Seq<u8>)
    requires
        is_aligned(s),
    ensures
        packets(s).flatten() == s.take(whole_len(s.len())),
        remainder(s) == s.skip(whole_len(s.len())),
    decreases s.len(),
{
    let n = PACKET_LEN as int;
    if s.len() > 0 {
        assert(s[0] == SYNC_BYTE);
    }
    assert(skip_to_sync(s) == s);
    if s.len() < n {
        assert(packets(s).flatten() =~= s.take(0));
        assert(s.skip(0) =~= s);
    } else {
        let t = s.skip(n);
        assert(is_aligned(t)) by {
            assert forall|i: int| 0 <= i < t.len() && i % n == 0 implies #[trigger] t[i]
                == SYNC_BYTE by {
                assert(t[i] == s[i + n]);
            }
        }
        lemma_aligned_cut(t);
        assert(packets(s).drop_first() =~= packets(t));
        assert(packets(s).first() == s.take(n));
        assert(whole_len(s.len()) == whole_len(t.len()) + n);
        assert(s.take(n) + t.take(whole_len(t.len())) =~= s.take(whole_len(s.len())));
        assert(t.skip(whole_len(t.len())) =~= s.skip(whole_len(s.len())));
    }
}

/// What stands in front of the first 0x47 is skipped, and nothing else.
pub proof fn lemma_sync(noise: Seq<u8>, tail: Seq<u8>)
    requires
        forall|i: int| 0 <= i < noise.len() ==> noise[i] != 0x47,
        tail.len() > 0 ==> tail[0] == 0x47,
    ensures
        skip_to_sync(noise + tail) == tail,
{
    lemma_first_sync(noise + tail, noise.len() as int);
    assert((noise + tail).skip(noise.len() as int) =~= tail);
}

/// The first 188 bytes from a 0x47 on, with none in front, are the first packet,
/// whatever they hold; the rest is cut as if it stood alone.
pub proof fn lemma_cut_packet(noise: Seq<u8>, p: Seq<u8>, rest: Seq<u8>)
    requires
        forall|i: int| 0 <= i < noise.len() ==> noise[i] != 0x47,
        p.len() == 188,
        p[0] == 0x47,
    ensures
        packets(noise + p + rest) == seq![p] + packets(rest),
        remainder(noise + p + rest) == remainder(rest),
{
    lemma_sync(noise, p + rest);
    assert(noise + p + rest =~= noise + (p + rest));
    assert((p + rest).take(188) =~= p);
    assert((p + rest).skip(188) =~= rest);
}

/// Fewer than 188 bytes from the first 0x47 on are no packet yet; they are left,
/// all of them.
pub proof fn lemma_cut_tail(noise: Seq<u8>, tail: Seq<u8>)
    requires
        forall|i: int| 0 <= i < noise.len() ==> noise[i] != 0x47,
        tail.len() < 188,
        tail.len() > 0 ==> tail[0] == 0x47,
    ensures
        packets(noise + tail) == Seq::<Seq<u8>>::empty(),
        remainder(noise + tail) == tail,
{
    lemma_sync(noise, tail);
}

/// A row of packets is a multiple of 188 bytes with a 0x47 on each multiple of
/// 188, and every such stretch of bytes is one.
pub proof fn lemma_row(s: Seq<u8>)
    ensures
        is_packet_row(s) <==> {
            &&& s.len() % 188 == 0
            &&& forall|i: int| 0 <= i < s.len() && i % 188 == 0 ==> #[trigger] s[i] == 0x47
        },
    decreases s.len(),
{
    if s.len() >= 188 {
        let t = s.skip(188);
        lemma_row(t);
        assert(s.take(188)[0] == s[0]);
        if is_packet_row(s) {
            assert forall|i: int| 0 <= i < s.len() && i % 188 == 0 implies #[trigger] s[i]
                == 0x47 by {
                if i > 0 {
                    assert(t[i - 188] == s[i]);
                }
            }
        }
        if s.len() % 188 == 0 && forall|i: int|
            0 <= i < s.len() && i % 188 == 0 ==> #[trigger] s[i] == 0x47 {
            assert(s[0] == 0x47);
            assert forall|i: int| 0 <= i < t.len() && i % 188 == 0 implies #[trigger] t[i]
                == 0x47 by {
                assert(s[i + 188] == t[i]);
            }
        }
    }
}

} // verus!
