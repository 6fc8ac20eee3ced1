//! The layout of a 188-byte transport stream packet.

use vstd::prelude::*;

verus! {

/// Length of a transport stream packet in bytes.
pub const PACKET_LEN: usize = 188;

/// First byte of every packet.
pub const SYNC_BYTE: u8 = 0x47;

/// PID of the packets that every demultiplexer drops.
pub const NULL_PID: u16 = 0x1FFF;

/// PID of the program association table.
pub const PAT_PID: u16 = 0x0000;

/// A whole packet: 188 bytes that begin with the sync byte.
pub open spec fn is_packet(p: Seq<u8>) -> bool {
    &&& p.len() == PACKET_LEN
    &&& p[0] == SYNC_BYTE
}

/// The 13-bit PID in the second and third byte of a packet.
pub open spec fn pid_of(p: Seq<u8>) -> u16 {
    ((p[1] % 32) * 256 + p[2]) as u16
}

/// Whether an adaptation field is there, is not empty, and has its PCR flag set.
pub open spec fn carries_pcr(p: Seq<u8>) -> bool {
    &&& p.len() >= 12
    &&& (p[3] / 16) % 4 >= 2
    &&& p[4] != 0
    &&& (p[5] / 16) % 2 == 1
}

/// The 33-bit base of the program clock reference, in units of 90 kHz.
pub open spec fn pcr_base(p: Seq<u8>) -> int {
    p[6] * 0x200_0000 + p[7] * 0x2_0000 + p[8] * 0x200 + p[9] * 2 + p[10] / 128
}

/// The 9-bit extension of the program clock reference, in units of 27 MHz.
pub open spec fn pcr_extension(p: Seq<u8>) -> int {
    (p[10] % 2) * 256 + p[11]
}

/// The program clock reference of a packet in 27 MHz ticks, if it carries one.
pub open spec fn pcr_of(p: Seq<u8>) -> Option<u64> {
    if carries_pcr(p) {
        Some((pcr_base(p) * 300 + pcr_extension(p)) as u64)
    } else {
        None
    }
}

/// The adaptation-field-only packet that announces a discontinuity on `pid`:
/// the field fills the packet, its flags hold the discontinuity indicator
/// alone, and the rest is stuffing.
pub open spec fn disc_packet(pid: u16) -> Seq<u8> {
    Seq::new(
        PACKET_LEN as nat,
        |i: int|
            if i == 0 {
                SYNC_BYTE
            } else if i == 1 {
                ((pid / 256) % 32) as u8
            } else if i == 2 {
                (pid % 256) as u8
            } else if i == 3 {
                0x20u8
            } else if i == 4 {
                183u8
            } else if i == 5 {
                0x80u8
            } else {
                0xFFu8
            },
    )
}

/// The NULL packet: PID `NULL_PID`, payload only, filled with stuffing.
pub open spec fn null_packet() -> Seq<u8> {
    seq![SYNC_BYTE, 0x1Fu8, 0xFFu8, 0x10u8] + Seq::new(184, |i: int| 0xFFu8)
}

/// The PID of the packet that `p` begins with.
pub fn packet_pid(p: &[u8]) -> (pid: u16)
    requires
        p@.len() >= 3,
    ensures
        pid == pid_of(p@),
        pid <= NULL_PID,
{
    let hi: u8 = p[1];
    let lo: u8 = p[2];
    assert((((hi as u16) & 0x1F) << 8) | (lo as u16) == (hi % 32) * 256 + lo) by (bit_vector);
    ((hi as u16 & 0x1F) << 8) | (lo as u16)
}

/// Builds the packet that announces a discontinuity on `pid`.
pub fn make_disc_packet(pid: u16) -> (p: [u8; 188])
    ensures
        p@ == disc_packet(pid),
{
    let mut p: [u8; 188] = [0xFFu8; 188];
    assert(((pid >> 8) & 0x1F) as u8 == ((pid / 256) % 32) as u8) by (bit_vector);
    assert((pid & 0xFF) as u8 == (pid % 256) as u8) by (bit_vector);
    p[0] = SYNC_BYTE;
    p[1] = ((pid >> 8) & 0x1F) as u8;
    p[2] = (pid & 0xFF) as u8;
    p[3] = 0x20;
    p[4] = 183;
    p[5] = 0x80;
    assert(p@ =~= disc_packet(pid));
    p
}

/// Builds one NULL packet.
pub fn make_null() -> (v: Vec<u8>)
    ensures
        v@ == null_packet(),
{
    let mut v: Vec<u8> = Vec::with_capacity(PACKET_LEN);
    v.push(SYNC_BYTE);
    v.push(0x1F);
    v.push(0xFF);
    v.push(0x10);
    while v.len() < PACKET_LEN
        invariant
            4 <= v@.len() <= PACKET_LEN,
            v@ == null_packet().take(v@.len() as int),
        decreases PACKET_LEN - v@.len(),
    {
        v.push(0xFF);
        assert(v@ =~= null_packet().take(v@.len() as int));
    }
    assert(v@ =~= null_packet());
    v
}

/// A discontinuity packet is a whole packet, names the PID that it was made
/// for (up to 13 bits), has its discontinuity indicator set, and carries no
/// clock reference and no payload.
pub proof fn lemma_disc_packet(pid: u16)
    ensures
        is_packet(disc_packet(pid)),
        pid <= NULL_PID ==> pid_of(disc_packet(pid)) == pid,
        pcr_of(disc_packet(pid)) is None,
        (disc_packet(pid)[3] / 16) % 4 == 2,
        disc_packet(pid)[4] == PACKET_LEN - 5,
        disc_packet(pid)[5] / 128 == 1,
{
}

/// The NULL packet is a whole packet with the PID that demultiplexers drop, and
/// carries no clock reference.
pub proof fn lemma_null_packet()
    ensures
        is_packet(null_packet()),
        pid_of(null_packet()) == NULL_PID,
        pcr_of(null_packet()) is None,
{
}

/// A packet is 188 bytes that begin with 0x47.
pub proof fn lemma_packet(p: Seq<u8>)
    ensures
        is_packet(p) <==> p.len() == 188 && p[0] == 0x47,
{
}

/// The PID is the low five bits of the second byte and all of the third; no other
/// bit has a part in it.
pub proof fn lemma_pid(p: Seq<u8>)
    ensures
        pid_of(p) == (((p[1] as u16) & 0x1F) << 8) | (p[2] as u16),
        pid_of(p) < 0x2000,
{
    let (hi, lo): (u8, u8) = (p[1], p[2]);
    assert((((hi as u16) & 0x1F) << 8) | (lo as u16) == (hi % 32) * 256 + lo) by (bit_vector);
}

/// Twelve bytes or more hold a clock reference exactly if bit 0x20 of the fourth
/// byte and bit 0x10 of the sixth are set and the fifth is not 0, whatever the
/// other bits are; fewer bytes hold none.
pub proof fn lemma_pcr_presence(p: Seq<u8>)
    ensures
        pcr_of(p) is Some <==> p.len() >= 12 && p[3] & 0x20 != 0 && p[4] != 0 && p[5] & 0x10 != 0,
{
    let (control, flags): (u8, u8) = (p[3], p[5]);
    assert((control & 0x20 != 0) == ((control / 16) % 4 >= 2)) by (bit_vector);
    assert((flags & 0x10 != 0) == ((flags / 16) % 2 == 1)) by (bit_vector);
}

/// A clock reference is read as it is written: a 33-bit base from the top of the
/// seventh byte on, six bits that do not count, and a 9-bit extension, which
/// together are 300 times the base plus the extension.
pub proof fn lemma_pcr_value(p: Seq<u8>, base: u64, ext: u64)
    requires
        pcr_of(p) is Some,
        base < 0x2_0000_0000,
        ext < 0x200,
        p[6] == base >> 25,
        p[7] == (base >> 17) & 0xFF,
        p[8] == (base >> 9) & 0xFF,
        p[9] == (base >> 1) & 0xFF,
        p[10] >> 7 == base & 1,
        p[10] & 1 == ext >> 8,
        p[11] == ext & 0xFF,
    ensures
        pcr_of(p)->0 == base * 300 + ext,
{
    let (b6, b7, b8, b9, b10, b11): (u8, u8, u8, u8, u8, u8) = (
        p[6],
        p[7],
        p[8],
        p[9],
        p[10],
        p[11],
    );
    assert(b6 * 0x200_0000 + b7 * 0x2_0000 + b8 * 0x200 + b9 * 2 + b10 / 128 == base)
        by (bit_vector)
        requires
            base < 0x2_0000_0000u64,
            b6 == base >> 25,
            b7 == (base >> 17) & 0xFF,
            b8 == (base >> 9) & 0xFF,
            b9 == (base >> 1) & 0xFF,
            b10 >> 7 == base & 1,
    ;
    assert((b10 % 2) * 256 + b11 == ext) by (bit_vector)
        requires
            ext < 0x200u64,
            b10 & 1 == ext >> 8,
            b11 == ext & 0xFF,
    ;
}

/// The bytes of a discontinuity packet: sync byte, PID with no other header bit,
/// adaptation field only, its length, the discontinuity indicator as its only
/// flag, and stuffing.
pub proof fn lemma_disc_bytes(pid: u16)
    ensures
        disc_packet(pid).len() == 188,
        disc_packet(pid)[0] == 0x47,
        disc_packet(pid)[1] == (pid >> 8) & 0x1F,
        disc_packet(pid)[2] == pid & 0xFF,
        disc_packet(pid)[3] == 0x20,
        disc_packet(pid)[4] == 183,
        disc_packet(pid)[5] == 0x80,
        forall|i: int| 6 <= i < 188 ==> #[trigger] disc_packet(pid)[i] == 0xFF,
{
    assert((pid >> 8) & 0x1F == (pid / 256) % 32) by (bit_vector);
    assert(pid & 0xFF == pid % 256) by (bit_vector);
}

/// The bytes of a NULL packet: sync byte, PID 0x1FFF with no other header bit,
/// payload only, and stuffing.
pub proof fn lemma_null_bytes()
    ensures
        null_packet().len() == 188,
        null_packet()[0] == 0x47,
        null_packet()[1] == 0x1F,
        null_packet()[2] == 0xFF,
        null_packet()[3] == 0x10,
        forall|i: int| 4 <= i < 188 ==> #[trigger] null_packet()[i] == 0xFF,
{
}

} // verus!
