//! The transport framing of an input packet: 11 bytes on the wire -- the
//! player handle in 2 bytes, the frame number in 8, both little endian, then
//! the input bits.  Decoding validates the length and the reserved input
//! bits, so only well-formed packets ever reach a session.

use vstd::prelude::*;
use crate::input::valid_bits;
use crate::session::InputFrame;

verus! {

/// 256 to the power `k`: the number of values `k` bytes can carry.
pub open spec fn pow256(k: nat) -> int
    decreases k,
{
    if k == 0 {
        1
    } else {
        256 * pow256((k - 1) as nat)
    }
}

/// The `k` little-endian bytes of `v`.
pub open spec fn le_bytes(v: int, k: nat) -> Seq<u8>
    decreases k,
{
    if k == 0 {
        Seq::empty()
    } else {
        seq![(v % 256) as u8] + le_bytes(v / 256, (k - 1) as nat)
    }
}

/// The value a little-endian byte string carries.
pub open spec fn le_value(b: Seq<u8>) -> int
    decreases b.len(),
{
    if b.len() == 0 {
        0
    } else {
        b[0] + 256 * le_value(b.drop_first())
    }
}

proof fn lemma_pow256_pos_mono(a: nat, b: nat)
    requires
        a <= b,
    ensures
        1 <= pow256(a) <= pow256(b),
    decreases b,
{
    if a == b {
        if a > 0 {
            lemma_pow256_pos_mono((a - 1) as nat, (b - 1) as nat);
        }
    } else {
        lemma_pow256_pos_mono(a, (b - 1) as nat);
    }
}

proof fn lemma_le_bytes_len(v: int, k: nat)
    ensures
        le_bytes(v, k).len() == k,
    decreases k,
{
    if k > 0 {
        lemma_le_bytes_len(v / 256, (k - 1) as nat);
    }
}

proof fn lemma_le_value_bound(b: Seq<u8>)
    ensures
        0 <= le_value(b) < pow256(b.len()),
    decreases b.len(),
{
    if b.len() > 0 {
        lemma_le_value_bound(b.drop_first());
    }
}

/// The codec inverts: reading back the `k` little-endian bytes of any value
/// that fits in `k` bytes yields the value.
pub proof fn lemma_le_round_trip(v: int, k: nat)
    requires
        0 <= v < pow256(k),
    ensures
        le_value(le_bytes(v, k)) == v,
    decreases k,
{
    if k > 0 {
        assert(pow256(k) == 256 * pow256((k - 1) as nat));
        assert(v / 256 < pow256((k - 1) as nat)) by (nonlinear_arith)
            requires
                0 <= v,
                v < 256 * pow256((k - 1) as nat),
        ;
        lemma_le_round_trip(v / 256, (k - 1) as nat);
        let b = le_bytes(v, k);
        assert(b.drop_first() =~= le_bytes(v / 256, (k - 1) as nat));
        assert(le_value(b) == (v % 256) + 256 * (v / 256));
    }
}

/// The wire form of an input packet.
pub open spec fn input_frame_bytes(m: InputFrame) -> Seq<u8> {
    le_bytes(m.handle as int, 2) + le_bytes(m.frame as int, 8) + seq![m.bits]
}

/// What a byte string decodes to: the packet it spells, or nothing when the
/// length is wrong, a reserved input bit is set, or the frame number does
/// not fit the machine.
pub open spec fn decoded_input(b: Seq<u8>) -> Option<InputFrame> {
    if b.len() == 11 && valid_bits(b[10]) && le_value(b.subrange(2, 10)) <= usize::MAX as int {
        Some(
            InputFrame {
                handle: le_value(b.subrange(0, 2)) as usize,
                frame: le_value(b.subrange(2, 10)) as usize,
                bits: b[10],
            },
        )
    } else {
        None
    }
}

fn push_le_bytes(r: &mut Vec<u8>, v0: u64, k: usize)
    ensures
        final(r)@ == old(r)@ + le_bytes(v0 as int, k as nat),
{
    let mut v: u64 = v0;
    let mut i: usize = 0;
    while i < k
        invariant
            i <= k,
            old(r)@ + le_bytes(v0 as int, k as nat) == r@ + le_bytes(v as int, (k - i) as nat),
        decreases k - i,
    {
        let b = (v % 256) as u8;
        proof {
            assert(le_bytes(v as int, (k - i) as nat) == seq![(v as int % 256) as u8] + le_bytes(
                v as int / 256,
                (k - i - 1) as nat,
            ));
            assert(r@ + le_bytes(v as int, (k - i) as nat) =~= (r@ + seq![b]) + le_bytes(
                v as int / 256,
                (k - i - 1) as nat,
            ));
        }
        r.push(b);
        v = v / 256;
        i = i + 1;
    }
    proof {
        assert(r@ + le_bytes(v as int, 0) =~= r@);
    }
}

/// Frames an input packet for the transport.
pub fn encode_input(m: &InputFrame) -> (r: Vec<u8>)
    requires
        m.handle < 65536,
    ensures
        r@ == input_frame_bytes(*m),
        r@.len() == 11,
{
    let mut r: Vec<u8> = Vec::new();
    push_le_bytes(&mut r, m.handle as u64, 2);
    push_le_bytes(&mut r, m.frame as u64, 8);
    r.push(m.bits);
    proof {
        lemma_le_bytes_len(m.handle as int, 2);
        lemma_le_bytes_len(m.frame as int, 8);
        assert(r@ =~= input_frame_bytes(*m));
    }
    r
}

fn read_le(b: &Vec<u8>, start: usize, k: usize) -> (v: u64)
    requires
        start + k <= b@.len(),
        k <= 8,
    ensures
        v as int == le_value(b@.subrange(start as int, start as int + k)),
{
    let n = b.len();
    let mut v: u64 = 0;
    let mut i: usize = k;
    proof {
        assert(b@.subrange(start as int + k, start as int + k) =~= Seq::<u8>::empty());
    }
    while i > 0
        invariant
            i <= k,
            k <= 8,
            n == b@.len(),
            start + k <= n,
            v as int == le_value(b@.subrange(start as int + i, start as int + k)),
            (v as int) < pow256((k - i) as nat),
        decreases i,
    {
        i = i - 1;
        let byte = b[start + i];
        proof {
            let sub1 = b@.subrange(start as int + i, start as int + k);
            let sub2 = b@.subrange(start as int + i + 1, start as int + k);
            assert(sub1.drop_first() =~= sub2);
            assert(le_value(sub1) == byte + 256 * le_value(sub2));
            assert(pow256((k - i) as nat) == 256 * pow256((k - i - 1) as nat));
            lemma_pow256_pos_mono((k - i) as nat, 8);
            reveal_with_fuel(pow256, 9);
            assert(pow256(8) == 0x1_0000_0000_0000_0000);
        }
        v = v * 256 + (byte as u64);
    }
    v
}

/// Unframes a packet, rejecting malformed bytes.
pub fn decode_input(b: &Vec<u8>) -> (r: Option<InputFrame>)
    ensures
        r == decoded_input(b@),
{
    if b.len() != 11 {
        return None;
    }
    let bits = b[10];
    if bits >= 32 {
        return None;
    }
    let h = read_le(b, 0, 2);
    let f = read_le(b, 2, 8);
    proof {
        lemma_le_value_bound(b@.subrange(0, 2));
        reveal_with_fuel(pow256, 3);
        assert(pow256(2) == 65536);
    }
    if f > usize::MAX as u64 {
        return None;
    }
    Some(InputFrame { handle: h as usize, frame: f as usize, bits })
}

/// Transport round trip: an encoded input packet decodes to exactly the
/// packet that was sent, whenever its fields fit the wire form.
pub proof fn lemma_codec_round_trip(m: InputFrame)
    requires
        m.handle < 65536,
        valid_bits(m.bits),
    ensures
        decoded_input(input_frame_bytes(m)) == Some(m),
{
    let b = input_frame_bytes(m);
    lemma_le_bytes_len(m.handle as int, 2);
    lemma_le_bytes_len(m.frame as int, 8);
    assert(b.len() == 11);
    assert(b.subrange(0, 2) =~= le_bytes(m.handle as int, 2));
    assert(b.subrange(2, 10) =~= le_bytes(m.frame as int, 8));
    assert(b[10] == m.bits);
    reveal_with_fuel(pow256, 9);
    assert(pow256(2) == 65536);
    assert(pow256(8) == 0x1_0000_0000_0000_0000);
    lemma_le_round_trip(m.handle as int, 2);
    lemma_le_round_trip(m.frame as int, 8);
}

} // verus!
