//! Properties of the tracker, proved of the abstract step that
//! [`crate::aux_schema::check_equivocation`] is specified against.
//!
//! Each law speaks of [`spec_step_result`] and [`spec_step_state`], the
//! exact result and store contents of a call on a store that answers; by
//! the contract of `check_equivocation` they carry over to every execution
//! in which the store does not fail.

use vstd::bytes::*;
use vstd::prelude::*;

use crate::aux_schema::is_stale;
use crate::aux_schema::lemma_first_match_none_elements;
use crate::aux_schema::lemma_first_match_push;
use crate::aux_schema::lemma_keys_distinct;
use crate::aux_schema::lemma_slot_key_injective;
use crate::aux_schema::spec_entries_at;
use crate::aux_schema::spec_first_match;
use crate::aux_schema::spec_new_watermark;
use crate::aux_schema::spec_prune_keys;
use crate::aux_schema::spec_prunes;
use crate::aux_schema::spec_records;
use crate::aux_schema::spec_slot_key;
use crate::aux_schema::spec_start_key;
use crate::aux_schema::spec_step_result;
use crate::aux_schema::spec_step_state;
use crate::aux_schema::spec_watermark_at;
use crate::aux_schema::MAX_SLOT_CAPACITY;
use crate::codec::lemma_entries_round_trip;
use crate::store::lemma_remove_all;
use crate::types::EquivocationProof;
use crate::types::Header;
use crate::types::SignerId;
use crate::types::SlotEntry;
use crate::types::TrackerError;

verus! {

/// After a recording step, the recorded slot holds its old entries with the
/// new entry appended, and the watermark holds the advanced value, whatever
/// default a later read would fall back to.
pub proof fn lemma_step_state_at_slot(
    m: Map<Seq<u8>, Seq<u8>>,
    slot_now: u64,
    slot: u64,
    header: Header,
    signer: SignerId,
    default: u64,
)
    requires
        spec_records(m, slot_now, slot, signer),
    ensures
        spec_entries_at(spec_step_state(m, slot_now, slot, header, signer), slot) == Some(
            spec_entries_at(m, slot).unwrap().push(SlotEntry { header, signer }),
        ),
        spec_watermark_at(spec_step_state(m, slot_now, slot, header, signer), default) == Some(
            spec_new_watermark(slot_now, spec_watermark_at(m, slot).unwrap()),
        ),
{
    let es = spec_entries_at(m, slot).unwrap();
    let wm = spec_watermark_at(m, slot).unwrap();
    let nwm = spec_new_watermark(slot_now, wm);
    let m1 = spec_step_state(m, slot_now, slot, header, signer);
    lemma_keys_distinct(slot);
    assert(m1[spec_slot_key(slot)] == crate::codec::spec_encode_entries(
        es.push(SlotEntry { header, signer }),
    ));
    lemma_entries_round_trip(es.push(SlotEntry { header, signer }));
    assert(m1[spec_start_key()] == spec_u64_to_le_bytes(nwm));
    lemma_auto_spec_u64_to_from_le_bytes();
}

/// A recording step touches no other slot's entries, except that it deletes
/// the slots of the pruned span `[watermark, new_watermark)`.
pub proof fn lemma_step_state_other_slot(
    m: Map<Seq<u8>, Seq<u8>>,
    slot_now: u64,
    slot: u64,
    header: Header,
    signer: SignerId,
    other: u64,
)
    requires
        spec_records(m, slot_now, slot, signer),
        other != slot,
    ensures
        ({
            let wm = spec_watermark_at(m, slot).unwrap();
            let nwm = spec_new_watermark(slot_now, wm);
            let m1 = spec_step_state(m, slot_now, slot, header, signer);
            &&& (wm <= other < nwm ==> !m1.contains_key(spec_slot_key(other)))
            &&& (wm <= other < nwm ==> spec_entries_at(m1, other) == Some(
                Seq::<SlotEntry>::empty(),
            ))
            &&& (!(wm <= other < nwm) ==> spec_entries_at(m1, other) == spec_entries_at(m, other))
        }),
{
    let wm = spec_watermark_at(m, slot).unwrap();
    let nwm = spec_new_watermark(slot_now, wm);
    let m1 = spec_step_state(m, slot_now, slot, header, signer);
    let pk = spec_prune_keys(wm, nwm);
    let k = spec_slot_key(other);
    lemma_keys_distinct(other);
    lemma_slot_key_injective(other, slot);
    lemma_remove_all(m, pk, k);
    if wm <= other < nwm {
        assert(pk[other - wm] == k);
        assert(pk.contains(k));
        assert(!m1.contains_key(k));
    } else {
        if pk.contains(k) {
            let i = choose|i: int| 0 <= i < pk.len() && pk[i] == k;
            lemma_slot_key_injective(other, (wm + i) as u64);
            assert(false);
        }
        if m.contains_key(k) {
            assert(m1[k] == m[k]);
        }
    }
}

/// Stale slots are never checked and never recorded: when the slot lies
/// beyond the retention capacity, the step returns no proof and leaves the
/// store as it is.
pub proof fn lemma_stale_short_circuit(
    m: Map<Seq<u8>, Seq<u8>>,
    slot_now: u64,
    slot: u64,
    header: Header,
    signer: SignerId,
)
    requires
        is_stale(slot_now, slot),
    ensures
        spec_step_result(m, slot_now, slot, header, signer) == Ok::<
            Option<EquivocationProof>,
            TrackerError,
        >(None),
        spec_step_state(m, slot_now, slot, header, signer) == m,
{
}

/// The watermark never moves backwards.
pub proof fn lemma_watermark_monotone(slot_now: u64, watermark: u64)
    ensures
        spec_new_watermark(slot_now, watermark) >= watermark,
{
}

/// Only clean steps write: a step that returns a proof or an error leaves
/// the store exactly as it was.  In particular a detected equivocation is
/// reported again, unchanged, for as long as the slot stays in capacity.
pub proof fn lemma_only_clean_steps_write(
    m: Map<Seq<u8>, Seq<u8>>,
    slot_now: u64,
    slot: u64,
    header: Header,
    signer: SignerId,
)
    requires
        spec_step_result(m, slot_now, slot, header, signer) != Ok::<
            Option<EquivocationProof>,
            TrackerError,
        >(None),
    ensures
        spec_step_state(m, slot_now, slot, header, signer) == m,
{
}

/// Idempotence: a step that returned no proof, run again with the very same
/// arguments, again returns no proof and leaves the store exactly as the
/// first step left it.
pub proof fn lemma_idempotent(
    m: Map<Seq<u8>, Seq<u8>>,
    slot_now: u64,
    slot: u64,
    header: Header,
    signer: SignerId,
)
    requires
        spec_step_result(m, slot_now, slot, header, signer) == Ok::<
            Option<EquivocationProof>,
            TrackerError,
        >(None),
    ensures
        spec_step_result(
            spec_step_state(m, slot_now, slot, header, signer),
            slot_now,
            slot,
            header,
            signer,
        ) == Ok::<Option<EquivocationProof>, TrackerError>(None),
        spec_step_state(
            spec_step_state(m, slot_now, slot, header, signer),
            slot_now,
            slot,
            header,
            signer,
        ) == spec_step_state(m, slot_now, slot, header, signer),
{
    let m1 = spec_step_state(m, slot_now, slot, header, signer);
    if !is_stale(slot_now, slot) {
        let eo = spec_entries_at(m, slot);
        let wo = spec_watermark_at(m, slot);
        assert(eo is Some && wo is Some);
        let es = eo.unwrap();
        let e = SlotEntry { header, signer };
        match spec_first_match(es, signer) {
            Some(i) => {
                assert(m1 == m);
            },
            None => {
                lemma_step_state_at_slot(m, slot_now, slot, header, signer, slot);
                lemma_first_match_push(es, signer, e);
                assert(spec_first_match(es.push(e), signer) == Some(es.len() as int));
                assert(es.push(e)[es.len() as int] == e);
                assert(!spec_records(m1, slot_now, slot, signer));
            },
        }
    }
}

/// Detection: once a header is recorded for a slot, a second header by the
/// same signer with a different hash at that slot yields exactly the proof
/// made of the two headers, whenever the slot is still within capacity.
pub proof fn lemma_detection(
    m: Map<Seq<u8>, Seq<u8>>,
    time_first: u64,
    time_second: u64,
    slot: u64,
    first: Header,
    second: Header,
    signer: SignerId,
)
    requires
        spec_records(m, time_first, slot, signer),
        !is_stale(time_second, slot),
        first.hash != second.hash,
    ensures
        spec_step_result(
            spec_step_state(m, time_first, slot, first, signer),
            time_second,
            slot,
            second,
            signer,
        ) == Ok::<Option<EquivocationProof>, TrackerError>(
            Some(
                (EquivocationProof { slot, fst_header: first, snd_header: second }),
            ),
        ),
{
    let es = spec_entries_at(m, slot).unwrap();
    let e = SlotEntry { header: first, signer };
    let m1 = spec_step_state(m, time_first, slot, first, signer);
    lemma_step_state_at_slot(m, time_first, slot, first, signer, slot);
    lemma_first_match_push(es, signer, e);
    assert(spec_first_match(es.push(e), signer) == Some(es.len() as int));
    assert(es.push(e)[es.len() as int] == e);
}

/// No detection across slots: recording a header at one slot never makes a
/// signer's header at a different slot count as an equivocation, provided
/// the signer had no entry at that other slot to begin with.
pub proof fn lemma_no_detection_across_slots(
    m: Map<Seq<u8>, Seq<u8>>,
    time_first: u64,
    time_second: u64,
    slot_first: u64,
    slot_second: u64,
    first: Header,
    second: Header,
    signer: SignerId,
)
    requires
        spec_records(m, time_first, slot_first, signer),
        slot_first != slot_second,
        spec_entries_at(m, slot_second) is Some,
        spec_first_match(spec_entries_at(m, slot_second).unwrap(), signer) is None,
    ensures
        spec_step_result(
            spec_step_state(m, time_first, slot_first, first, signer),
            time_second,
            slot_second,
            second,
            signer,
        ) == Ok::<Option<EquivocationProof>, TrackerError>(None),
{
    let m1 = spec_step_state(m, time_first, slot_first, first, signer);
    if !is_stale(time_second, slot_second) {
        lemma_step_state_at_slot(m, time_first, slot_first, first, signer, slot_second);
        lemma_step_state_other_slot(m, time_first, slot_first, first, signer, slot_second);
        let wm = spec_watermark_at(m, slot_first).unwrap();
        let nwm = spec_new_watermark(time_first, wm);
        if wm <= slot_second < nwm {
            assert(spec_entries_at(m1, slot_second) == Some(Seq::<SlotEntry>::empty()));
        } else {
            assert(spec_entries_at(m1, slot_second) == spec_entries_at(m, slot_second));
        }
    }
}

/// No detection across signers: one signer's record never counts against a
/// different signer at the same slot, provided that other signer had no
/// entry there to begin with.
pub proof fn lemma_no_detection_across_signers(
    m: Map<Seq<u8>, Seq<u8>>,
    time_first: u64,
    time_second: u64,
    slot: u64,
    first: Header,
    second: Header,
    signer_first: SignerId,
    signer_second: SignerId,
)
    requires
        spec_records(m, time_first, slot, signer_first),
        signer_first != signer_second,
        spec_first_match(spec_entries_at(m, slot).unwrap(), signer_second) is None,
    ensures
        spec_step_result(
            spec_step_state(m, time_first, slot, first, signer_first),
            time_second,
            slot,
            second,
            signer_second,
        ) == Ok::<Option<EquivocationProof>, TrackerError>(None),
{
    let m1 = spec_step_state(m, time_first, slot, first, signer_first);
    if !is_stale(time_second, slot) {
        let es = spec_entries_at(m, slot).unwrap();
        let e = SlotEntry { header: first, signer: signer_first };
        lemma_step_state_at_slot(m, time_first, slot, first, signer_first, slot);
        lemma_first_match_push(es, signer_second, e);
        assert(spec_first_match(es.push(e), signer_second) is None);
    }
}

/// No bucket ever holds two different hashes by one signer: with this, a
/// single stored entry per signer is sufficient evidence against any later
/// conflicting header.
pub open spec fn bucket_consistent(es: Seq<SlotEntry>) -> bool {
    forall|i: int, j: int| #![auto]
        0 <= i < es.len() && 0 <= j < es.len() && es[i].signer == es[j].signer ==> es[i].header.hash
            == es[j].header.hash
}

/// A recording step preserves bucket consistency at every slot: an entry is
/// appended only for a signer that has no entry in the bucket yet, and no
/// other bucket gains an entry.
pub proof fn lemma_bucket_consistency_preserved(
    m: Map<Seq<u8>, Seq<u8>>,
    slot_now: u64,
    slot: u64,
    header: Header,
    signer: SignerId,
    checked: u64,
)
    requires
        spec_records(m, slot_now, slot, signer),
        spec_entries_at(m, checked) is Some ==> bucket_consistent(
            spec_entries_at(m, checked).unwrap(),
        ),
    ensures
        spec_entries_at(spec_step_state(m, slot_now, slot, header, signer), checked) is Some
            ==> bucket_consistent(
            spec_entries_at(spec_step_state(m, slot_now, slot, header, signer), checked).unwrap(),
        ),
{
    let m1 = spec_step_state(m, slot_now, slot, header, signer);
    if checked == slot {
        lemma_step_state_at_slot(m, slot_now, slot, header, signer, slot);
        let es = spec_entries_at(m, slot).unwrap();
        let e = SlotEntry { header, signer };
        lemma_first_match_none_elements(es, signer);
        let new_es = es.push(e);
        assert forall|i: int, j: int| #![auto]
            0 <= i < new_es.len() && 0 <= j < new_es.len() && new_es[i].signer == new_es[j].signer
            implies new_es[i].header.hash == new_es[j].header.hash by {
            if i < es.len() {
                assert(new_es[i] == es[i]);
            } else {
                assert(new_es[i] == e);
            }
            if j < es.len() {
                assert(new_es[j] == es[j]);
            } else {
                assert(new_es[j] == e);
            }
        }
    } else {
        lemma_step_state_other_slot(m, slot_now, slot, header, signer, checked);
    }
}

/// Pruning correctness: when a recording step finds the retained span at
/// the pruning bound, the watermark advances to the start of the retention
/// capacity, every slot of the pruned span loses its entry-list key, and a
/// header once recorded at a pruned slot no longer triggers detection
/// there: any later step at that slot finds it clean.
pub proof fn lemma_pruning(
    m: Map<Seq<u8>, Seq<u8>>,
    slot_now: u64,
    slot: u64,
    header: Header,
    signer: SignerId,
    pruned_slot: u64,
    time_later: u64,
    later_header: Header,
    later_signer: SignerId,
)
    requires
        spec_records(m, slot_now, slot, signer),
        spec_prunes(slot_now, spec_watermark_at(m, slot).unwrap()),
        spec_watermark_at(m, slot).unwrap() <= pruned_slot < spec_new_watermark(
            slot_now,
            spec_watermark_at(m, slot).unwrap(),
        ),
    ensures
        spec_new_watermark(slot_now, spec_watermark_at(m, slot).unwrap()) == slot_now
            - MAX_SLOT_CAPACITY,
        !spec_step_state(m, slot_now, slot, header, signer).contains_key(
            spec_slot_key(pruned_slot),
        ),
        spec_step_result(
            spec_step_state(m, slot_now, slot, header, signer),
            time_later,
            pruned_slot,
            later_header,
            later_signer,
        ) == Ok::<Option<EquivocationProof>, TrackerError>(None),
{
    let wm = spec_watermark_at(m, slot).unwrap();
    let nwm = spec_new_watermark(slot_now, wm);
    let m1 = spec_step_state(m, slot_now, slot, header, signer);
    assert(slot >= nwm);
    lemma_step_state_other_slot(m, slot_now, slot, header, signer, pruned_slot);
    assert(spec_entries_at(m1, pruned_slot) == Some(Seq::<SlotEntry>::empty()));
    if !is_stale(time_later, pruned_slot) {
        lemma_step_state_at_slot(m, slot_now, slot, header, signer, pruned_slot);
    }
}

} // verus!
