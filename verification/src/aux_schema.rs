//! The tracker itself: schema of the stored slot data, the mathematical
//! model of one `check_and_record` step, and the one entry point
//! [`check_equivocation`].
//!
//! All state lives in the store; every call round-trips it.  A call first
//! checks the slot against the retention window, then reads the entry list
//! of the slot and the retention watermark, scans for a conflicting entry
//! by the same signer, and either reports a proof (writing nothing) or
//! appends the new entry and advances the watermark, pruning old slot keys,
//! in one atomic batch.
//!
//! The read-scan-decide-write sequence takes no lock: callers must serialize
//! calls per consensus instance, as the surrounding import pipeline does.

use vstd::bytes::*;
use vstd::prelude::*;

use crate::codec::decode_entries;
use crate::codec::decode_watermark;
use crate::codec::encode_entries;
use crate::codec::encode_u64;
use crate::codec::spec_decode_entries;
use crate::codec::spec_decode_watermark;
use crate::codec::spec_encode_entries;
use crate::store::keys_view;
use crate::store::lemma_insert_all_two;
use crate::store::pairs_view;
use crate::store::remove_all;
use crate::store::AuxStore;
use crate::types::EquivocationProof;
use crate::types::Header;
use crate::types::SignerId;
use crate::types::SlotEntry;
use crate::types::TrackerError;

verus! {

/// We keep at least this span of slots in the store.
pub const MAX_SLOT_CAPACITY: u64 = 1000;

/// We prune old slots once the retained span reaches this bound.
pub const PRUNING_BOUND: u64 = 2 * MAX_SLOT_CAPACITY;

/// The bytes of the key prefix under which a slot's entry list is stored:
/// the ASCII string `slot_header_map`.
pub open spec fn spec_slot_map_prefix() -> Seq<u8> {
    seq![115u8, 108u8, 111u8, 116u8, 95u8, 104u8, 101u8, 97u8, 100u8, 101u8, 114u8, 95u8, 109u8, 97u8, 112u8]
}

/// The store key of the entry list of `slot`: the prefix followed by the
/// slot's fixed-width little-endian encoding.
pub open spec fn spec_slot_key(slot: u64) -> Seq<u8> {
    spec_slot_map_prefix() + spec_u64_to_le_bytes(slot)
}

/// The bytes of the key under which the retention watermark is stored:
/// the ASCII string `slot_header_start`.
pub open spec fn spec_start_key() -> Seq<u8> {
    seq![115u8, 108u8, 111u8, 116u8, 95u8, 104u8, 101u8, 97u8, 100u8, 101u8, 114u8, 95u8, 115u8, 116u8, 97u8, 114u8, 116u8]
}

/// Different slots are stored under different keys.
pub proof fn lemma_slot_key_injective(a: u64, b: u64)
    ensures
        spec_slot_key(a) == spec_slot_key(b) ==> a == b,
{
    lemma_auto_spec_u64_to_from_le_bytes();
    if spec_slot_key(a) == spec_slot_key(b) {
        assert(spec_slot_key(a).subrange(15, 23) =~= spec_u64_to_le_bytes(a));
        assert(spec_slot_key(b).subrange(15, 23) =~= spec_u64_to_le_bytes(b));
    }
}

/// No slot's entry list shares a key with the watermark.
pub proof fn lemma_keys_distinct(s: u64)
    ensures
        spec_slot_key(s) != spec_start_key(),
{
    lemma_auto_spec_u64_to_from_le_bytes();
    assert(spec_slot_key(s).len() == 23);
}

/// The entry list recorded under `slot`, an empty list when the key is
/// absent, or `None` when the stored value is corrupt.
pub open spec fn spec_entries_at(m: Map<Seq<u8>, Seq<u8>>, slot: u64) -> Option<Seq<SlotEntry>> {
    if m.contains_key(spec_slot_key(slot)) {
        spec_decode_entries(m[spec_slot_key(slot)])
    } else {
        Some(Seq::<SlotEntry>::empty())
    }
}

/// The retention watermark, `default` when never written, or `None` when
/// the stored value is corrupt.
pub open spec fn spec_watermark_at(m: Map<Seq<u8>, Seq<u8>>, default: u64) -> Option<u64> {
    if m.contains_key(spec_start_key()) {
        spec_decode_watermark(m[spec_start_key()])
    } else {
        Some(default)
    }
}

/// The index of the first entry by `signer`, if any.
pub open spec fn spec_first_match(es: Seq<SlotEntry>, signer: SignerId) -> Option<int>
    decreases es.len(),
{
    if es.len() == 0 {
        None
    } else if es[0].signer == signer {
        Some(0 as int)
    } else {
        match spec_first_match(es.skip(1), signer) {
            None => None,
            Some(i) => Some(i + 1),
        }
    }
}

/// A slot is stale when it lies further than the retention capacity behind
/// the caller's current time; stale slots are neither checked nor recorded.
pub open spec fn is_stale(slot_now: u64, slot: u64) -> bool {
    slot_now - slot > MAX_SLOT_CAPACITY
}

/// Pruning is due when the retained span has reached the pruning bound.
pub open spec fn spec_prunes(slot_now: u64, watermark: u64) -> bool {
    slot_now - watermark >= PRUNING_BOUND
}

/// The watermark after a recording call: advanced to the start of the
/// retention capacity when pruning is due, unchanged otherwise.
pub open spec fn spec_new_watermark(slot_now: u64, watermark: u64) -> u64 {
    if spec_prunes(slot_now, watermark) {
        if slot_now >= MAX_SLOT_CAPACITY {
            (slot_now - MAX_SLOT_CAPACITY) as u64
        } else {
            0u64
        }
    } else {
        watermark
    }
}

/// The entry-list keys of the slots in `[watermark, new_watermark)`, the
/// slots a pruning call deletes.
pub open spec fn spec_prune_keys(watermark: u64, new_watermark: u64) -> Seq<Seq<u8>> {
    Seq::new(
        if watermark <= new_watermark {
            (new_watermark - watermark) as nat
        } else {
            0
        },
        |i: int| spec_slot_key((watermark + i) as u64),
    )
}

/// Whether a call records a new entry: the slot is within the retention
/// window, both stored values decode, and the signer has no entry yet.
pub open spec fn spec_records(
    m: Map<Seq<u8>, Seq<u8>>,
    slot_now: u64,
    slot: u64,
    signer: SignerId,
) -> bool {
    &&& !is_stale(slot_now, slot)
    &&& spec_entries_at(m, slot) is Some
    &&& spec_watermark_at(m, slot) is Some
    &&& spec_first_match(spec_entries_at(m, slot).unwrap(), signer) is None
}

/// What one `check_and_record` step returns on a store that answers: no
/// proof for a stale slot, a corruption error when a stored value does not
/// decode, a proof when the signer already recorded a header with another
/// hash for this slot, and no proof otherwise.
pub open spec fn spec_step_result(
    m: Map<Seq<u8>, Seq<u8>>,
    slot_now: u64,
    slot: u64,
    header: Header,
    signer: SignerId,
) -> Result<Option<EquivocationProof>, TrackerError> {
    if is_stale(slot_now, slot) {
        Ok(None)
    } else {
        match (spec_entries_at(m, slot), spec_watermark_at(m, slot)) {
            (Some(es), Some(wm)) => match spec_first_match(es, signer) {
                Some(i) => if es[i].header.hash != header.hash {
                    Ok(
                        Some(
                            (EquivocationProof {
                                slot,
                                fst_header: es[i].header,
                                snd_header: header,
                            }),
                        ),
                    )
                } else {
                    Ok(None)
                },
                None => Ok(None),
            },
            _ => Err(TrackerError::StorageCorrupted),
        }
    }
}

/// What the store holds after one `check_and_record` step on a store that
/// answers: unchanged unless the call records, else the pruned slots are
/// deleted and the slot's extended entry list and the new watermark are
/// written, all at once.
pub open spec fn spec_step_state(
    m: Map<Seq<u8>, Seq<u8>>,
    slot_now: u64,
    slot: u64,
    header: Header,
    signer: SignerId,
) -> Map<Seq<u8>, Seq<u8>> {
    if spec_records(m, slot_now, slot, signer) {
        let es = spec_entries_at(m, slot).unwrap();
        let wm = spec_watermark_at(m, slot).unwrap();
        let nwm = spec_new_watermark(slot_now, wm);
        remove_all(m, spec_prune_keys(wm, nwm)).insert(
            spec_slot_key(slot),
            spec_encode_entries(es.push(SlotEntry { header, signer })),
        ).insert(spec_start_key(), spec_u64_to_le_bytes(nwm))
    } else {
        m
    }
}

/// A scan that passed the first `i` entries and stops on entry `i` has
/// found the first match.
pub proof fn lemma_first_match_found(es: Seq<SlotEntry>, signer: SignerId, i: int)
    requires
        0 <= i < es.len(),
        forall|j: int| #![auto] 0 <= j < i ==> es[j].signer != signer,
        es[i].signer == signer,
    ensures
        spec_first_match(es, signer) == Some(i),
    decreases i,
{
    if i > 0 {
        lemma_first_match_found(es.skip(1), signer, i - 1);
    }
}

/// A scan that passed every entry has found no match.
pub proof fn lemma_first_match_none(es: Seq<SlotEntry>, signer: SignerId)
    requires
        forall|j: int| #![auto] 0 <= j < es.len() ==> es[j].signer != signer,
    ensures
        spec_first_match(es, signer) is None,
    decreases es.len(),
{
    if es.len() > 0 {
        lemma_first_match_none(es.skip(1), signer);
    }
}

/// What a found first match says of the list: the entry matches and no
/// earlier entry does.
pub proof fn lemma_first_match_some(es: Seq<SlotEntry>, signer: SignerId)
    requires
        spec_first_match(es, signer) is Some,
    ensures
        0 <= spec_first_match(es, signer).unwrap() < es.len(),
        es[spec_first_match(es, signer).unwrap()].signer == signer,
        forall|j: int| #![auto]
            0 <= j < spec_first_match(es, signer).unwrap() ==> es[j].signer != signer,
    decreases es.len(),
{
    if es.len() > 0 && es[0].signer != signer {
        lemma_first_match_some(es.skip(1), signer);
        let i = spec_first_match(es, signer).unwrap();
        assert forall|j: int| 0 <= j < i implies es[j].signer != signer by {
            if j > 0 {
                assert(es.skip(1)[j - 1] == es[j]);
            }
        }
    }
}

/// A scan that found no match passed every entry.
pub proof fn lemma_first_match_none_elements(es: Seq<SlotEntry>, signer: SignerId)
    requires
        spec_first_match(es, signer) is None,
    ensures
        forall|j: int| #![auto] 0 <= j < es.len() ==> es[j].signer != signer,
    decreases es.len(),
{
    if es.len() > 0 {
        lemma_first_match_none_elements(es.skip(1), signer);
        assert forall|j: int| #![auto] 0 <= j < es.len() implies es[j].signer != signer by {
            if j > 0 {
                assert(es.skip(1)[j - 1] == es[j]);
            }
        }
    }
}

/// How the first match changes when an entry is appended: an existing match
/// stays, and a new entry matches exactly when its signer does.
pub proof fn lemma_first_match_push(es: Seq<SlotEntry>, signer: SignerId, e: SlotEntry)
    ensures
        spec_first_match(es, signer) is Some ==> spec_first_match(es.push(e), signer)
            == spec_first_match(es, signer),
        spec_first_match(es, signer) is None && e.signer == signer ==> spec_first_match(
            es.push(e),
            signer,
        ) == Some(es.len() as int),
        spec_first_match(es, signer) is None && e.signer != signer ==> spec_first_match(
            es.push(e),
            signer,
        ) is None,
{
    if spec_first_match(es, signer) is Some {
        lemma_first_match_some(es, signer);
        let i = spec_first_match(es, signer).unwrap();
        assert(es.push(e)[i] == es[i]);
        assert forall|j: int| #![auto] 0 <= j < i implies es.push(e)[j].signer != signer by {
            assert(es.push(e)[j] == es[j]);
        }
        lemma_first_match_found(es.push(e), signer, i);
    } else {
        lemma_first_match_none_elements(es, signer);
        if e.signer == signer {
            assert(es.push(e)[es.len() as int] == e);
            assert forall|j: int| #![auto] 0 <= j < es.len() implies es.push(e)[j].signer
                != signer by {
                assert(es.push(e)[j] == es[j]);
            }
            lemma_first_match_found(es.push(e), signer, es.len() as int);
        } else {
            assert forall|j: int| #![auto] 0 <= j < es.push(e).len() implies es.push(e)[j].signer
                != signer by {
                if j < es.len() {
                    assert(es.push(e)[j] == es[j]);
                } else {
                    assert(es.push(e)[j] == e);
                }
            }
            lemma_first_match_none(es.push(e), signer);
        }
    }
}

/// The entry-list key of `slot`, as stored bytes.
fn slot_key(slot: u64) -> (k: Vec<u8>)
    ensures
        k@ == spec_slot_key(slot),
{
    let mut k: Vec<u8> = Vec::new();
    k.push(115);
    k.push(108);
    k.push(111);
    k.push(116);
    k.push(95);
    k.push(104);
    k.push(101);
    k.push(97);
    k.push(100);
    k.push(101);
    k.push(114);
    k.push(95);
    k.push(109);
    k.push(97);
    k.push(112);
    proof {
        assert(k@ =~= spec_slot_map_prefix());
    }
    let mut tail = encode_u64(slot);
    k.append(&mut tail);
    proof {
        assert(k@ =~= spec_slot_key(slot));
    }
    k
}

/// The watermark key, as stored bytes.
fn start_key() -> (k: Vec<u8>)
    ensures
        k@ == spec_start_key(),
{
    let mut k: Vec<u8> = Vec::new();
    k.push(115);
    k.push(108);
    k.push(111);
    k.push(116);
    k.push(95);
    k.push(104);
    k.push(101);
    k.push(97);
    k.push(100);
    k.push(101);
    k.push(114);
    k.push(95);
    k.push(115);
    k.push(116);
    k.push(97);
    k.push(114);
    k.push(116);
    proof {
        assert(k@ =~= spec_start_key());
    }
    k
}

/// Checks whether `header` at `slot` is an equivocation by `signer`, and
/// records it when it is not.
///
/// The result and the new store contents are exactly those of the abstract
/// step [`spec_step_result`] / [`spec_step_state`] on the old contents,
/// unless the store itself fails, in which case nothing has changed.
/// Detection reaches only slots within the retention capacity:
/// `slot_now - slot <= MAX_SLOT_CAPACITY`.
pub fn check_equivocation<C: AuxStore>(
    backend: &mut C,
    slot_now: u64,
    slot: u64,
    header: &Header,
    signer: &SignerId,
) -> (r: Result<Option<EquivocationProof>, TrackerError>)
    requires
        slot <= slot_now,
    ensures
        (is_stale(slot_now, slot) ==> r == Ok::<Option<EquivocationProof>, TrackerError>(None)
            && final(backend).contents() == old(backend).contents()),
        (r == Err::<Option<EquivocationProof>, TrackerError>(TrackerError::StoreUnavailable)
            ==> final(backend).contents() == old(backend).contents()),
        (r != Err::<Option<EquivocationProof>, TrackerError>(TrackerError::StoreUnavailable) ==> r
            == spec_step_result(old(backend).contents(), slot_now, slot, *header, *signer)
            && final(backend).contents() == spec_step_state(
            old(backend).contents(),
            slot_now,
            slot,
            *header,
            *signer,
        )),
{
    // We don't check equivocations for old headers out of our capacity.
    if slot_now - slot > MAX_SLOT_CAPACITY {
        return Ok(None);
    }
    let ghost m = backend.contents();

    // Key for this slot.
    let curr_slot_key = slot_key(slot);

    // Get headers of this slot.
    let raw_entries = match backend.get_aux(curr_slot_key.as_slice()) {
        Ok(v) => v,
        Err(e) => {
            return Err(e);
        },
    };
    let mut headers_with_sig: Vec<SlotEntry> = match raw_entries {
        None => Vec::new(),
        Some(bytes) => match decode_entries(bytes.as_slice()) {
            Some(es) => es,
            None => {
                return Err(TrackerError::StorageCorrupted);
            },
        },
    };
    proof {
        assert(spec_entries_at(m, slot) == Some(headers_with_sig@));
    }

    // Get first slot saved.
    let start_key_bytes = start_key();
    let raw_watermark = match backend.get_aux(start_key_bytes.as_slice()) {
        Ok(v) => v,
        Err(e) => {
            return Err(e);
        },
    };
    let first_saved_slot: u64 = match raw_watermark {
        None => slot,
        Some(bytes) => match decode_watermark(bytes.as_slice()) {
            Some(w) => w,
            None => {
                return Err(TrackerError::StorageCorrupted);
            },
        },
    };
    proof {
        assert(spec_watermark_at(m, slot) == Some(first_saved_slot));
    }

    // A proof of equivocation consists of two headers signed by the same
    // voter, with different hash, mentioning the same slot.
    let ghost es = headers_with_sig@;
    let mut idx: usize = 0;
    while idx < headers_with_sig.len()
        invariant
            slot <= slot_now,
            !is_stale(slot_now, slot),
            m == old(backend).contents(),
            backend.contents() == m,
            spec_entries_at(m, slot) == Some(es),
            spec_watermark_at(m, slot) == Some(first_saved_slot),
            headers_with_sig@ == es,
            idx <= es.len(),
            forall|j: int| #![auto] 0 <= j < idx ==> es[j].signer != *signer,
        decreases es.len() - idx,
    {
        let prev = headers_with_sig[idx];
        if prev.signer.id == signer.id {
            proof {
                lemma_first_match_found(es, *signer, idx as int);
            }
            if prev.header.hash != header.hash {
                return Ok(
                    Some(
                        EquivocationProof {
                            slot,
                            fst_header: prev.header,
                            snd_header: *header,
                        },
                    ),
                );
            } else {
                // A duplicate of an already saved header: an equivocation
                // against it would have been detected before.
                return Ok(None);
            }
        }
        idx += 1;
    }
    proof {
        lemma_first_match_none(es, *signer);
    }

    // Pruning decision, made before the new entry is appended so that the
    // entry being added is never itself deleted in this call.
    let mut keys_to_delete: Vec<Vec<u8>> = Vec::new();
    let mut new_first_saved_slot: u64 = first_saved_slot;

    if first_saved_slot <= slot_now && slot_now - first_saved_slot >= PRUNING_BOUND {
        new_first_saved_slot = if slot_now >= MAX_SLOT_CAPACITY {
            slot_now - MAX_SLOT_CAPACITY
        } else {
            0
        };
        let ghost nwm = new_first_saved_slot;
        let mut s: u64 = first_saved_slot;
        proof {
            assert(keys_view(keys_to_delete@) =~= spec_prune_keys(
                first_saved_slot,
                first_saved_slot,
            ));
        }
        while s < new_first_saved_slot
            invariant
                new_first_saved_slot == nwm,
                first_saved_slot <= s <= nwm,
                keys_view(keys_to_delete@) == spec_prune_keys(first_saved_slot, s),
            decreases nwm - s,
        {
            let key = slot_key(s);
            let ghost kd0 = keys_to_delete@;
            keys_to_delete.push(key);
            proof {
                let pk = spec_prune_keys(first_saved_slot, (s + 1) as u64);
                assert(keys_view(kd0).len() == kd0.len());
                assert(spec_prune_keys(first_saved_slot, s).len() == s - first_saved_slot);
                assert(kd0.len() == s - first_saved_slot);
                assert forall|j: int| 0 <= j < pk.len() implies keys_view(keys_to_delete@)[j]
                    == pk[j] by {
                    assert(pk[j] == spec_slot_key((first_saved_slot + j) as u64));
                    if j < kd0.len() {
                        assert(keys_to_delete@[j] == kd0[j]);
                        assert(keys_view(kd0)[j] == spec_prune_keys(first_saved_slot, s)[j]);
                    } else {
                        assert(keys_to_delete@[j] == key);
                        assert(first_saved_slot + j == s);
                    }
                }
                assert(keys_view(keys_to_delete@) =~= pk);
            }
            s += 1;
        }
    }
    proof {
        assert(keys_view(keys_to_delete@) =~= spec_prune_keys(
            first_saved_slot,
            new_first_saved_slot,
        ));
        assert(new_first_saved_slot == spec_new_watermark(slot_now, first_saved_slot));
    }

    headers_with_sig.push(SlotEntry { header: *header, signer: *signer });

    let encoded_entries = encode_entries(&headers_with_sig);
    let encoded_watermark = encode_u64(new_first_saved_slot);
    let mut inserts: Vec<(Vec<u8>, Vec<u8>)> = Vec::new();
    inserts.push((curr_slot_key, encoded_entries));
    inserts.push((start_key_bytes, encoded_watermark));

    match backend.insert_aux(&inserts, &keys_to_delete) {
        Ok(_) => {
            proof {
                lemma_insert_all_two(
                    remove_all(m, keys_view(keys_to_delete@)),
                    pairs_view(inserts@),
                );
                assert(pairs_view(inserts@)[0] == (
                    spec_slot_key(slot),
                    spec_encode_entries(es.push(SlotEntry { header: *header, signer: *signer })),
                ));
                assert(pairs_view(inserts@)[1] == (
                    spec_start_key(),
                    spec_u64_to_le_bytes(new_first_saved_slot),
                ));
            }
            Ok(None)
        },
        Err(e) => Err(e),
    }
}

} // verus!
