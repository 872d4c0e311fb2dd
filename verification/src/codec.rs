//! Canonical byte encoding of the values the tracker persists.
//!
//! The layout is fixed so that every implementation sharing a store agrees on
//! it: a slot or watermark is its fixed-width little-endian 8-byte encoding,
//! a slot entry is the header hash followed by the signer identity (16 bytes),
//! and an entry list is the entries concatenated in order.

use vstd::bytes::*;
use vstd::prelude::*;
use vstd::slice::*;

use crate::types::Header;
use crate::types::SignerId;
use crate::types::SlotEntry;

verus! {

/// The number of bytes an encoded slot entry occupies.
pub const ENTRY_LEN: usize = 16;

/// The bytes of one encoded entry: header hash, then signer identity.
pub open spec fn spec_encode_entry(e: SlotEntry) -> Seq<u8> {
    spec_u64_to_le_bytes(e.header.hash) + spec_u64_to_le_bytes(e.signer.id)
}

/// The entry encoded in a 16-byte record.
pub open spec fn spec_decode_entry(b: Seq<u8>) -> SlotEntry {
    SlotEntry {
        header: Header { hash: spec_u64_from_le_bytes(b.subrange(0, 8)) },
        signer: SignerId { id: spec_u64_from_le_bytes(b.subrange(8, 16)) },
    }
}

/// The bytes of an encoded entry list: the entries concatenated in order.
pub open spec fn spec_encode_entries(es: Seq<SlotEntry>) -> Seq<u8>
    decreases es.len(),
{
    if es.len() == 0 {
        Seq::<u8>::empty()
    } else {
        spec_encode_entries(es.drop_last()) + spec_encode_entry(es.last())
    }
}

/// The entry list a stored value decodes to, or `None` when the value does
/// not parse as a whole number of 16-byte records.
pub open spec fn spec_decode_entries(b: Seq<u8>) -> Option<Seq<SlotEntry>> {
    if b.len() % 16 == 0 {
        Some(
            Seq::new(
                (b.len() / 16) as nat,
                |i: int| spec_decode_entry(b.subrange(16 * i, 16 * i + 16)),
            ),
        )
    } else {
        None
    }
}

/// The watermark a stored value decodes to, or `None` when the value is not
/// exactly 8 bytes.
pub open spec fn spec_decode_watermark(b: Seq<u8>) -> Option<u64> {
    if b.len() == 8 {
        Some(spec_u64_from_le_bytes(b))
    } else {
        None
    }
}

/// An encoded entry list is 16 bytes per entry.
pub proof fn lemma_encode_entries_len(es: Seq<SlotEntry>)
    ensures
        spec_encode_entries(es).len() == 16 * es.len(),
    decreases es.len(),
{
    if es.len() > 0 {
        lemma_encode_entries_len(es.drop_last());
        lemma_auto_spec_u64_to_from_le_bytes();
    }
}

/// Within an encoded entry list, the bytes of the record at index `i` are the
/// encoding of the entry at index `i`.
pub proof fn lemma_encode_entries_index(es: Seq<SlotEntry>, i: int)
    requires
        0 <= i < es.len(),
    ensures
        spec_encode_entries(es).subrange(16 * i, 16 * i + 16) == spec_encode_entry(es[i]),
    decreases es.len(),
{
    lemma_encode_entries_len(es);
    lemma_encode_entries_len(es.drop_last());
    lemma_auto_spec_u64_to_from_le_bytes();
    if i == es.len() - 1 {
        assert(spec_encode_entries(es).subrange(16 * i, 16 * i + 16) =~= spec_encode_entry(
            es.last(),
        ));
    } else {
        lemma_encode_entries_index(es.drop_last(), i);
        assert(spec_encode_entries(es).subrange(16 * i, 16 * i + 16) =~= spec_encode_entries(
            es.drop_last(),
        ).subrange(16 * i, 16 * i + 16));
    }
}

/// A 16-byte record decodes back to the entry it encodes.
pub proof fn lemma_entry_round_trip(e: SlotEntry)
    ensures
        spec_encode_entry(e).len() == 16,
        spec_decode_entry(spec_encode_entry(e)) == e,
{
    lemma_auto_spec_u64_to_from_le_bytes();
    assert(spec_encode_entry(e).subrange(0, 8) =~= spec_u64_to_le_bytes(e.header.hash));
    assert(spec_encode_entry(e).subrange(8, 16) =~= spec_u64_to_le_bytes(e.signer.id));
}

/// An encoded entry list decodes back to the list it encodes.
pub proof fn lemma_entries_round_trip(es: Seq<SlotEntry>)
    ensures
        spec_decode_entries(spec_encode_entries(es)) == Some(es),
{
    lemma_encode_entries_len(es);
    let b = spec_encode_entries(es);
    assert(b.len() % 16 == 0);
    let decoded = spec_decode_entries(b).unwrap();
    assert forall|i: int| 0 <= i < es.len() implies decoded[i] == es[i] by {
        lemma_encode_entries_index(es, i);
        lemma_entry_round_trip(es[i]);
    }
    assert(decoded =~= es);
}

/// Appending an entry to a list appends its record to the encoding.
pub proof fn lemma_encode_entries_push(es: Seq<SlotEntry>, e: SlotEntry)
    ensures
        spec_encode_entries(es.push(e)) == spec_encode_entries(es) + spec_encode_entry(e),
{
    assert(es.push(e).drop_last() =~= es);
    assert(es.push(e).last() == e);
}

/// Encode a slot or watermark value as its 8 little-endian bytes.
pub fn encode_u64(v: u64) -> (b: Vec<u8>)
    ensures
        b@ == spec_u64_to_le_bytes(v),
        b@.len() == 8,
{
    u64_to_le_bytes(v)
}

/// Decode a stored watermark value; fails unless it is exactly 8 bytes.
pub fn decode_watermark(b: &[u8]) -> (r: Option<u64>)
    ensures
        r == spec_decode_watermark(b@),
{
    if b.len() == 8 {
        Some(u64_from_le_bytes(b))
    } else {
        None
    }
}

/// Encode an entry list as its concatenated 16-byte records.
pub fn encode_entries(es: &Vec<SlotEntry>) -> (b: Vec<u8>)
    ensures
        b@ == spec_encode_entries(es@),
{
    let mut b: Vec<u8> = Vec::new();
    let mut i: usize = 0;
    proof {
        assert(es@.take(0) =~= Seq::<SlotEntry>::empty());
    }
    while i < es.len()
        invariant
            i <= es.len(),
            b@ == spec_encode_entries(es@.take(i as int)),
        decreases es.len() - i,
    {
        let e = es[i];
        let mut hash_bytes = encode_u64(e.header.hash);
        let mut signer_bytes = encode_u64(e.signer.id);
        b.append(&mut hash_bytes);
        b.append(&mut signer_bytes);
        proof {
            lemma_encode_entries_push(es@.take(i as int), e);
            assert(es@.take(i as int).push(e) =~= es@.take(i + 1));
        }
        i += 1;
    }
    proof {
        assert(es@.take(es@.len() as int) =~= es@);
    }
    b
}

/// Decode a stored entry list; fails unless the value is a whole number of
/// 16-byte records.
pub fn decode_entries(b: &[u8]) -> (r: Option<Vec<SlotEntry>>)
    ensures
        (r matches Some(es) ==> spec_decode_entries(b@) == Some(es@)),
        (r is None ==> spec_decode_entries(b@) is None),
{
    if b.len() % ENTRY_LEN != 0 {
        return None;
    }
    let len: usize = b.len();
    let n: usize = len / ENTRY_LEN;
    proof {
        assert(b@.len() == 16 * (n as int));
    }
    let mut es: Vec<SlotEntry> = Vec::new();
    let mut i: usize = 0;
    proof {
        assert(es@ =~= spec_decode_entries(b@).unwrap().take(0));
    }
    while i < n
        invariant
            i <= n,
            len == b@.len(),
            b@.len() == 16 * (n as int),
            b@.len() % 16 == 0,
            es@ == spec_decode_entries(b@).unwrap().take(i as int),
        decreases n - i,
    {
        let hash: u64 = u64_from_le_bytes(slice_subrange(b, 16 * i, 16 * i + 8));
        let id: u64 = u64_from_le_bytes(slice_subrange(b, 16 * i + 8, 16 * i + 16));
        let e = SlotEntry { header: Header { hash }, signer: SignerId { id } };
        proof {
            let rec = b@.subrange(16 * (i as int), 16 * (i as int) + 16);
            assert(rec.subrange(0, 8) =~= b@.subrange(16 * (i as int), 16 * (i as int) + 8));
            assert(rec.subrange(8, 16) =~= b@.subrange(16 * (i as int) + 8, 16 * (i as int) + 16));
            assert(spec_decode_entries(b@).unwrap()[i as int] == e);
            assert(es@.push(e) =~= spec_decode_entries(b@).unwrap().take(i + 1));
        }
        es.push(e);
        i += 1;
    }
    proof {
        let decoded = spec_decode_entries(b@).unwrap();
        assert(es@ =~= decoded);
        assert(decoded == decoded.take(n as int));
    }
    Some(es)
}

} // verus!
