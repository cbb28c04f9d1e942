//! The byte layout of one record in the host's memory, little-endian:
//! 40 opaque bytes, the extent (2 bytes), 22 opaque bytes, x and y (4 bytes
//! each), 404 opaque bytes, and the link to the next record (4 bytes).

use vstd::prelude::*;
use vstd::bytes::{
    lemma_auto_spec_u16_to_from_le_bytes, lemma_auto_spec_u32_to_from_le_bytes,
    spec_u16_from_le_bytes, spec_u16_to_le_bytes, spec_u32_from_le_bytes, spec_u32_to_le_bytes,
    u16_from_le_bytes, u16_to_le_bytes, u32_from_le_bytes, u32_to_le_bytes,
};
use vstd::slice::slice_subrange;
use crate::entity::{with_position, Entity, RECORD_SIZE};

verus! {

/// The bytes of `e` as the host lays them out.
pub open spec fn record_bytes(e: Entity) -> Seq<u8> {
    e.head@ + spec_u16_to_le_bytes(e.extent) + e.gap@ + spec_u32_to_le_bytes(e.x_bits)
        + spec_u32_to_le_bytes(e.y_bits) + e.tail@ + spec_u32_to_le_bytes(e.next)
}

/// `b` is one whole record and `e` is what it holds.
pub open spec fn decodes(b: Seq<u8>, e: Entity) -> bool {
    &&& b.len() == RECORD_SIZE
    &&& e.head@ == b.subrange(0, 0x28)
    &&& e.extent == spec_u16_from_le_bytes(b.subrange(0x28, 0x2a))
    &&& e.gap@ == b.subrange(0x2a, 0x40)
    &&& e.x_bits == spec_u32_from_le_bytes(b.subrange(0x40, 0x44))
    &&& e.y_bits == spec_u32_from_le_bytes(b.subrange(0x44, 0x48))
    &&& e.tail@ == b.subrange(0x48, 0x1dc)
    &&& e.next == spec_u32_from_le_bytes(b.subrange(0x1dc, 0x1e0))
}

/// A record's bytes fill exactly one record and decode to that record.
pub proof fn lemma_record_round_trip(e: Entity)
    ensures
        record_bytes(e).len() == RECORD_SIZE,
        decodes(record_bytes(e), e),
{
    lemma_auto_spec_u16_to_from_le_bytes();
    lemma_auto_spec_u32_to_from_le_bytes();
    let b = record_bytes(e);
    assert(e.head@.len() == 40 && e.gap@.len() == 22 && e.tail@.len() == 404);
    assert(b.subrange(0, 0x28) =~= e.head@);
    assert(b.subrange(0x28, 0x2a) =~= spec_u16_to_le_bytes(e.extent));
    assert(b.subrange(0x2a, 0x40) =~= e.gap@);
    assert(b.subrange(0x40, 0x44) =~= spec_u32_to_le_bytes(e.x_bits));
    assert(b.subrange(0x44, 0x48) =~= spec_u32_to_le_bytes(e.y_bits));
    assert(b.subrange(0x48, 0x1dc) =~= e.tail@);
    assert(b.subrange(0x1dc, 0x1e0) =~= spec_u32_to_le_bytes(e.next));
}

/// Bytes decode to one record only, and that record's bytes are the same
/// bytes again: reading a record and writing it back changes nothing.
pub proof fn lemma_bytes_round_trip(b: Seq<u8>, e: Entity, other: Entity)
    requires
        decodes(b, e),
    ensures
        record_bytes(e) == b,
        decodes(b, other) ==> other == e,
{
    lemma_auto_spec_u16_to_from_le_bytes();
    lemma_auto_spec_u32_to_from_le_bytes();
    assert(b.subrange(0x28, 0x2a).len() == 2);
    assert(b.subrange(0x40, 0x44).len() == 4);
    assert(b.subrange(0x44, 0x48).len() == 4);
    assert(b.subrange(0x1dc, 0x1e0).len() == 4);
    assert(record_bytes(e) =~= b);
    if decodes(b, other) {
        assert(other.head@ =~= e.head@);
        assert(other.gap@ =~= e.gap@);
        assert(other.tail@ =~= e.tail@);
        assert(other.head == e.head);
        assert(other.gap == e.gap);
        assert(other.tail == e.tail);
    }
}

/// Replacing the coordinates of a record changes its bytes only in the eight
/// bytes that hold them.
pub proof fn lemma_position_touches_only_coordinates(e: Entity, x_bits: u32, y_bits: u32, i: int)
    requires
        0 <= i < RECORD_SIZE,
        !(0x40 <= i < 0x48),
    ensures
        record_bytes(with_position(e, x_bits, y_bits))[i] == record_bytes(e)[i],
{
    lemma_auto_spec_u16_to_from_le_bytes();
    lemma_auto_spec_u32_to_from_le_bytes();
    assert(e.head@.len() == 40 && e.gap@.len() == 22 && e.tail@.len() == 404);
}

/// Copies `N` bytes of `bytes`, from position `from` on, into an array.
fn take<const N: usize>(bytes: &[u8], from: usize) -> (r: [u8; N])
    requires
        from + N <= bytes@.len(),
    ensures
        r@ == bytes@.subrange(from as int, from + N),
{
    let len: usize = bytes.len();
    let mut out: [u8; N] = [0u8; N];
    let mut i: usize = 0;
    while i < N
        invariant
            i <= N,
            len == bytes@.len(),
            from + N <= len,
            out@.len() == N,
            forall|k: int| 0 <= k < i ==> out@[k] == bytes@[from + k],
        decreases N - i,
    {
        out[i] = bytes[from + i];
        i = i + 1;
    }
    assert(out@ =~= bytes@.subrange(from as int, from + N));
    out
}

/// Appends `bytes` to `out`.
fn put(out: &mut Vec<u8>, bytes: &[u8])
    ensures
        final(out)@ == old(out)@ + bytes@,
{
    let ghost start = out@;
    let mut i: usize = 0;
    while i < bytes.len()
        invariant
            i <= bytes@.len(),
            out@ == start + bytes@.subrange(0, i as int),
        decreases bytes@.len() - i,
    {
        out.push(bytes[i]);
        i = i + 1;
        assert(out@ =~= start + bytes@.subrange(0, i as int));
    }
    assert(bytes@.subrange(0, i as int) =~= bytes@);
}

/// Reads one record from its bytes; `None` unless `bytes` is exactly one
/// record long.
pub fn decode(bytes: &[u8]) -> (r: Option<Entity>)
    ensures
        r is Some <==> bytes@.len() == RECORD_SIZE,
        r matches Some(e) ==> decodes(bytes@, e),
{
    if bytes.len() != 0x1e0 {
        return None;
    }
    let head: [u8; 40] = take(bytes, 0);
    let extent: u16 = u16_from_le_bytes(slice_subrange(bytes, 0x28, 0x2a));
    let gap: [u8; 22] = take(bytes, 0x2a);
    let x_bits: u32 = u32_from_le_bytes(slice_subrange(bytes, 0x40, 0x44));
    let y_bits: u32 = u32_from_le_bytes(slice_subrange(bytes, 0x44, 0x48));
    let tail: [u8; 404] = take(bytes, 0x48);
    let next: u32 = u32_from_le_bytes(slice_subrange(bytes, 0x1dc, 0x1e0));
    Some(Entity { head, extent, gap, x_bits, y_bits, tail, next })
}

/// Writes one record out as the host lays it out.
pub fn encode(e: &Entity) -> (r: Vec<u8>)
    ensures
        r@ == record_bytes(*e),
        r@.len() == RECORD_SIZE,
{
    let mut out: Vec<u8> = Vec::new();
    put(&mut out, e.head.as_slice());
    put(&mut out, u16_to_le_bytes(e.extent).as_slice());
    put(&mut out, e.gap.as_slice());
    put(&mut out, u32_to_le_bytes(e.x_bits).as_slice());
    put(&mut out, u32_to_le_bytes(e.y_bits).as_slice());
    put(&mut out, e.tail.as_slice());
    put(&mut out, u32_to_le_bytes(e.next).as_slice());
    proof {
        lemma_record_round_trip(*e);
        assert(out@ =~= record_bytes(*e));
    }
    out
}

} // verus!
