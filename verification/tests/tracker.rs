//! Behavioral tests of the equivocation tracker against the in-memory store.

use slot_equivocation::check_equivocation;
use slot_equivocation::AuxStore;
use slot_equivocation::Header;
use slot_equivocation::MemoryStore;
use slot_equivocation::SignerId;
use slot_equivocation::TrackerError;
use slot_equivocation::MAX_SLOT_CAPACITY;
use slot_equivocation::PRUNING_BOUND;
use slot_equivocation::store::UnavailableStore;

fn header(hash: u64) -> Header {
    Header { hash }
}

fn slot_key_bytes(slot: u64) -> Vec<u8> {
    let mut k = b"slot_header_map".to_vec();
    k.extend_from_slice(&slot.to_le_bytes());
    k
}

fn start_key_bytes() -> Vec<u8> {
    b"slot_header_start".to_vec()
}

#[test]
fn check_equivocation_works() {
    let mut client = MemoryStore::new();
    let public = SignerId { id: 42 };

    let header1 = header(1); // @ slot 2
    let header2 = header(2); // @ slot 2
    let header3 = header(3); // @ slot 4
    let header4 = header(4); // @ slot MAX_SLOT_CAPACITY + 4
    let header5 = header(5); // @ slot MAX_SLOT_CAPACITY + 4
    let header6 = header(6); // @ slot 4

    // It's ok to sign same headers.
    assert!(check_equivocation(&mut client, 2, 2, &header1, &public)
        .unwrap()
        .is_none());

    assert!(check_equivocation(&mut client, 3, 2, &header1, &public)
        .unwrap()
        .is_none());

    // But not two different headers at the same slot.
    assert!(check_equivocation(&mut client, 4, 2, &header2, &public)
        .unwrap()
        .is_some());

    // Different slot is ok.
    assert!(check_equivocation(&mut client, 5, 4, &header3, &public)
        .unwrap()
        .is_none());

    // Here we trigger pruning and save header 4.
    assert!(check_equivocation(
        &mut client,
        PRUNING_BOUND + 2,
        MAX_SLOT_CAPACITY + 4,
        &header4,
        &public,
    )
    .unwrap()
    .is_none());

    // This fails because header 5 is an equivocation of header 4.
    assert!(check_equivocation(
        &mut client,
        PRUNING_BOUND + 3,
        MAX_SLOT_CAPACITY + 4,
        &header5,
        &public,
    )
    .unwrap()
    .is_some());

    // This is ok because we pruned the corresponding header. Shows that we are pruning.
    assert!(
        check_equivocation(&mut client, PRUNING_BOUND + 4, 4, &header6, &public)
            .unwrap()
            .is_none()
    );
}

#[test]
fn idempotent_resubmission_changes_nothing() {
    let mut store = MemoryStore::new();
    let signer = SignerId { id: 7 };
    let h = header(11);

    assert!(check_equivocation(&mut store, 2, 2, &h, &signer)
        .unwrap()
        .is_none());
    let entries_before = store.get_aux(&slot_key_bytes(2)).unwrap();
    let watermark_before = store.get_aux(&start_key_bytes()).unwrap();
    assert!(entries_before.is_some());
    assert!(watermark_before.is_some());

    // The same submission again: no proof, and the stored state is untouched.
    assert!(check_equivocation(&mut store, 3, 2, &h, &signer)
        .unwrap()
        .is_none());
    assert_eq!(store.get_aux(&slot_key_bytes(2)).unwrap(), entries_before);
    assert_eq!(store.get_aux(&start_key_bytes()).unwrap(), watermark_before);
}

#[test]
fn detection_returns_both_headers() {
    let mut store = MemoryStore::new();
    let signer = SignerId { id: 9 };
    let first = header(100);
    let second = header(200);

    assert!(check_equivocation(&mut store, 5, 5, &first, &signer)
        .unwrap()
        .is_none());
    let proof = check_equivocation(&mut store, 6, 5, &second, &signer)
        .unwrap()
        .expect("an equivocation proof");
    assert_eq!(proof.slot(), 5);
    assert_eq!(*proof.fst_header(), first);
    assert_eq!(*proof.snd_header(), second);

    // Detection does not record: a third conflicting header is still caught
    // against the first one.
    let third = header(300);
    let proof2 = check_equivocation(&mut store, 7, 5, &third, &signer)
        .unwrap()
        .expect("an equivocation proof");
    assert_eq!(*proof2.fst_header(), first);
    assert_eq!(*proof2.snd_header(), third);
}

#[test]
fn no_detection_across_slots() {
    let mut store = MemoryStore::new();
    let signer = SignerId { id: 9 };
    assert!(check_equivocation(&mut store, 2, 2, &header(1), &signer)
        .unwrap()
        .is_none());
    assert!(check_equivocation(&mut store, 3, 3, &header(2), &signer)
        .unwrap()
        .is_none());
}

#[test]
fn no_detection_across_signers() {
    let mut store = MemoryStore::new();
    assert!(
        check_equivocation(&mut store, 2, 2, &header(1), &SignerId { id: 1 })
            .unwrap()
            .is_none()
    );
    assert!(
        check_equivocation(&mut store, 3, 2, &header(2), &SignerId { id: 2 })
            .unwrap()
            .is_none()
    );
}

#[test]
fn stale_slot_short_circuits_without_touching_the_store() {
    let mut store = MemoryStore::new();
    let signer = SignerId { id: 3 };
    // current_time - slot > MAX_SLOT_CAPACITY: no proof, and nothing is
    // read or written, so not even the watermark appears.
    assert!(check_equivocation(
        &mut store,
        MAX_SLOT_CAPACITY + 101,
        100,
        &header(1),
        &signer
    )
    .unwrap()
    .is_none());
    assert_eq!(store.get_aux(&slot_key_bytes(100)).unwrap(), None);
    assert_eq!(store.get_aux(&start_key_bytes()).unwrap(), None);
}

#[test]
fn pruning_advances_watermark_and_deletes_old_slots() {
    let mut store = MemoryStore::new();
    let signer = SignerId { id: 4 };

    // First record: the watermark defaults to the first slot seen.
    assert!(check_equivocation(&mut store, 2, 2, &header(1), &signer)
        .unwrap()
        .is_none());
    assert_eq!(
        store.get_aux(&start_key_bytes()).unwrap(),
        Some(2u64.to_le_bytes().to_vec())
    );

    assert!(check_equivocation(&mut store, 901, 900, &header(2), &signer)
        .unwrap()
        .is_none());

    // current_time - watermark reaches PRUNING_BOUND: the watermark advances
    // to current_time - MAX_SLOT_CAPACITY and older slot keys are deleted.
    assert!(check_equivocation(&mut store, 2002, 1004, &header(3), &signer)
        .unwrap()
        .is_none());
    assert_eq!(
        store.get_aux(&start_key_bytes()).unwrap(),
        Some(1002u64.to_le_bytes().to_vec())
    );
    assert_eq!(store.get_aux(&slot_key_bytes(2)).unwrap(), None);
    assert_eq!(store.get_aux(&slot_key_bytes(900)).unwrap(), None);
    assert!(store.get_aux(&slot_key_bytes(1004)).unwrap().is_some());

    // The header recorded at slot 900 is gone: a different header by the
    // same signer at that slot no longer triggers detection.
    assert!(check_equivocation(&mut store, 1900, 900, &header(9), &signer)
        .unwrap()
        .is_none());
}

#[test]
fn corrupt_entry_list_is_reported() {
    let mut store = MemoryStore::new();
    let signer = SignerId { id: 5 };
    // A value that is not a whole number of 16-byte records.
    store
        .insert_aux(&vec![(slot_key_bytes(7), vec![1, 2, 3])], &vec![])
        .unwrap();
    assert_eq!(
        check_equivocation(&mut store, 7, 7, &header(1), &signer),
        Err(TrackerError::StorageCorrupted)
    );
}

#[test]
fn corrupt_watermark_is_reported() {
    let mut store = MemoryStore::new();
    let signer = SignerId { id: 5 };
    // A watermark that is not exactly 8 bytes.
    store
        .insert_aux(&vec![(start_key_bytes(), vec![9])], &vec![])
        .unwrap();
    assert_eq!(
        check_equivocation(&mut store, 7, 7, &header(1), &signer),
        Err(TrackerError::StorageCorrupted)
    );
}

#[test]
fn unavailable_store_is_reported() {
    let mut store = UnavailableStore::new();
    let signer = SignerId { id: 6 };
    assert_eq!(
        check_equivocation(&mut store, 7, 7, &header(1), &signer),
        Err(TrackerError::StoreUnavailable)
    );
    // But a stale slot never reaches the store at all.
    assert_eq!(
        check_equivocation(&mut store, MAX_SLOT_CAPACITY + 10, 1, &header(1), &signer),
        Ok(None)
    );
}
