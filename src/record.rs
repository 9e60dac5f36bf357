use vstd::prelude::*;

use crate::layer::{HEADER_SIZE, LINK_SLOT_SIZE, VECTOR_ELEMENT_SIZE};

verus! {

/// The little-endian bytes of `x`.
pub open spec fn u32_le_bytes(x: u32) -> Seq<u8> {
    seq![(x & 0xff) as u8, ((x >> 8) & 0xff) as u8, ((x >> 16) & 0xff) as u8, ((x >> 24) & 0xff) as u8]
}

/// The `u32` whose little-endian bytes are the first four of `b`.
pub open spec fn u32_from_le(b: Seq<u8>) -> u32 {
    (b[0] as u32) | ((b[1] as u32) << 8u32) | ((b[2] as u32) << 16u32) | ((b[3] as u32) << 24u32)
}

/// The little-endian bytes of `x`.
pub open spec fn u64_le_bytes(x: u64) -> Seq<u8> {
    seq![
        (x & 0xff) as u8,
        ((x >> 8) & 0xff) as u8,
        ((x >> 16) & 0xff) as u8,
        ((x >> 24) & 0xff) as u8,
        ((x >> 32) & 0xff) as u8,
        ((x >> 40) & 0xff) as u8,
        ((x >> 48) & 0xff) as u8,
        ((x >> 56) & 0xff) as u8,
    ]
}

/// The `u64` whose little-endian bytes are the first eight of `b`.
pub open spec fn u64_from_le(b: Seq<u8>) -> u64 {
    (b[0] as u64) | ((b[1] as u64) << 8u64) | ((b[2] as u64) << 16u64) | ((b[3] as u64) << 24u64)
        | ((b[4] as u64) << 32u64) | ((b[5] as u64) << 40u64) | ((b[6] as u64) << 48u64) | ((
    b[7] as u64) << 56u64)
}

/// The components of a vector, each as four little-endian bytes.
pub open spec fn vector_bytes(data: Seq<u32>) -> Seq<u8> {
    Seq::new(4 * data.len(), |j: int| u32_le_bytes(data[j / 4])[j % 4])
}

/// The record of an element: its label and top level, `links` zeroed link
/// slots, then the vector.
pub open spec fn element_record(label: u32, level: u32, links: nat, data: Seq<u32>) -> Seq<u8> {
    u32_le_bytes(label) + u32_le_bytes(level) + Seq::new((links * LINK_SLOT_SIZE) as nat, |j: int| 0u8)
        + vector_bytes(data)
}

proof fn lemma_u32_le_round_trip(x: u32)
    ensures
        u32_from_le(u32_le_bytes(x)) == x,
{
    assert(((((x & 0xff) as u8) as u32) | ((((x >> 8) & 0xff) as u8) as u32) << 8u32 | ((((x
        >> 16) & 0xff) as u8) as u32) << 16u32 | ((((x >> 24) & 0xff) as u8) as u32) << 24u32)
        == x) by (bit_vector);
}

proof fn lemma_zero_u64()
    ensures
        u64_from_le(seq![0u8, 0u8, 0u8, 0u8, 0u8, 0u8, 0u8, 0u8]) == 0,
{
    let z: u8 = 0;
    assert(((z as u64) | ((z as u64) << 8u64) | ((z as u64) << 16u64) | ((z as u64) << 24u64) | ((
    z as u64) << 32u64) | ((z as u64) << 40u64) | ((z as u64) << 48u64) | ((z as u64) << 56u64))
        == 0) by (bit_vector)
        requires
            z == 0,
    ;
}

/// Reading back a record yields what was written: the label, the level,
/// zero in every link slot, and each component of the vector.
pub proof fn lemma_record_round_trip(label: u32, level: u32, links: nat, data: Seq<u32>)
    ensures
        ({
            let rec = element_record(label, level, links, data);
            let vector_start = HEADER_SIZE + links * LINK_SLOT_SIZE;
            &&& rec.len() == vector_start + data.len() * VECTOR_ELEMENT_SIZE
            &&& u32_from_le(rec.subrange(0, 4)) == label
            &&& u32_from_le(rec.subrange(4, 8)) == level
            &&& forall|s: int|
                0 <= s < links ==> #[trigger] u64_from_le(
                    rec.subrange(HEADER_SIZE + s * LINK_SLOT_SIZE, HEADER_SIZE + s * LINK_SLOT_SIZE + 8),
                ) == 0
            &&& forall|i: int|
                0 <= i < data.len() ==> #[trigger] u32_from_le(
                    rec.subrange(vector_start + i * 4, vector_start + i * 4 + 4),
                ) == data[i]
        }),
{
    let rec = element_record(label, level, links, data);
    let vector_start = HEADER_SIZE + links * LINK_SLOT_SIZE;
    lemma_u32_le_round_trip(label);
    lemma_u32_le_round_trip(level);
    assert(rec.subrange(0, 4) =~= u32_le_bytes(label));
    assert(rec.subrange(4, 8) =~= u32_le_bytes(level));
    assert forall|s: int| 0 <= s < links implies #[trigger] u64_from_le(
        rec.subrange(HEADER_SIZE + s * LINK_SLOT_SIZE, HEADER_SIZE + s * LINK_SLOT_SIZE + 8),
    ) == 0 by {
        lemma_zero_u64();
        assert(rec.subrange(HEADER_SIZE + s * LINK_SLOT_SIZE, HEADER_SIZE + s * LINK_SLOT_SIZE + 8)
            =~= seq![0u8, 0u8, 0u8, 0u8, 0u8, 0u8, 0u8, 0u8]);
    }
    assert forall|i: int| 0 <= i < data.len() implies #[trigger] u32_from_le(
        rec.subrange(vector_start + i * 4, vector_start + i * 4 + 4),
    ) == data[i] by {
        lemma_u32_le_round_trip(data[i]);
        assert forall|k: int| 0 <= k < 4 implies (#[trigger] ((4 * i + k) / 4) == i && (4 * i + k) % 4 == k) by {}
        assert(rec.subrange(vector_start + i * 4, vector_start + i * 4 + 4) =~= u32_le_bytes(data[i]));
    }
}

pub proof fn lemma_u64_le_round_trip(x: u64)
    ensures
        u64_from_le(u64_le_bytes(x)) == x,
{
    assert(((((x & 0xff) as u8) as u64) | ((((x >> 8) & 0xff) as u8) as u64) << 8u64 | ((((x
        >> 16) & 0xff) as u8) as u64) << 16u64 | ((((x >> 24) & 0xff) as u8) as u64) << 24u64
        | ((((x >> 32) & 0xff) as u8) as u64) << 32u64 | ((((x >> 40) & 0xff) as u8) as u64)
        << 40u64 | ((((x >> 48) & 0xff) as u8) as u64) << 48u64 | ((((x >> 56) & 0xff) as u8)
        as u64) << 56u64) == x) by (bit_vector);
}

/// The little-endian bytes of `x`.
pub fn u64_to_le(x: u64) -> (r: Vec<u8>)
    ensures
        r@ == u64_le_bytes(x),
{
    let mut out: Vec<u8> = Vec::new();
    out.push((x & 0xff) as u8);
    out.push(((x >> 8) & 0xff) as u8);
    out.push(((x >> 16) & 0xff) as u8);
    out.push(((x >> 24) & 0xff) as u8);
    out.push(((x >> 32) & 0xff) as u8);
    out.push(((x >> 40) & 0xff) as u8);
    out.push(((x >> 48) & 0xff) as u8);
    out.push(((x >> 56) & 0xff) as u8);
    assert(out@ =~= u64_le_bytes(x));
    out
}

fn push_u32(out: &mut Vec<u8>, x: u32)
    ensures
        final(out)@ == old(out)@ + u32_le_bytes(x),
{
    out.push((x & 0xff) as u8);
    out.push(((x >> 8) & 0xff) as u8);
    out.push(((x >> 16) & 0xff) as u8);
    out.push(((x >> 24) & 0xff) as u8);
    assert(final(out)@ =~= old(out)@ + u32_le_bytes(x));
}

/// Lays out the record of an element.
pub fn encode_element(label: u32, level: u32, links: u64, data: &[u32]) -> (r: Vec<u8>)
    requires
        links <= 0x1_0000_0000_0000,
    ensures
        r@ == element_record(label, level, links as nat, data@),
{
    let mut out: Vec<u8> = Vec::new();
    push_u32(&mut out, label);
    push_u32(&mut out, level);
    let ghost header = out@;
    let link_bytes: u64 = links * LINK_SLOT_SIZE;
    let mut i: u64 = 0;
    while i < link_bytes
        invariant
            i <= link_bytes,
            link_bytes == links * LINK_SLOT_SIZE,
            out@ =~= header + Seq::new(i as nat, |j: int| 0u8),
        decreases link_bytes - i,
    {
        out.push(0);
        i = i + 1;
    }
    let ghost prefix = out@;
    let mut k: usize = 0;
    while k < data.len()
        invariant
            k <= data@.len(),
            out@ =~= prefix + vector_bytes(data@.subrange(0, k as int)),
        decreases data@.len() - k,
    {
        let ghost before = out@;
        push_u32(&mut out, data[k]);
        assert forall|j: int| 4 * k <= j < 4 * k + 4 implies #[trigger] (j / 4) == k && j % 4 == j - 4 * k by {}
        assert forall|j: int| 0 <= j < 4 * k implies #[trigger] (j / 4) < k by {}
        assert(vector_bytes(data@.subrange(0, k + 1)) =~= vector_bytes(data@.subrange(0, k as int))
            + u32_le_bytes(data[k as int]));
        k = k + 1;
    }
    assert(data@.subrange(0, data@.len() as int) =~= data@);
    out
}

} // verus!
