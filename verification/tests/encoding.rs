//! Tests of the canonical byte encoding.

use slot_equivocation::codec::decode_entries;
use slot_equivocation::codec::decode_watermark;
use slot_equivocation::codec::encode_entries;
use slot_equivocation::codec::encode_u64;
use slot_equivocation::Header;
use slot_equivocation::SignerId;
use slot_equivocation::SlotEntry;

#[test]
fn u64_encoding_is_little_endian() {
    assert_eq!(
        encode_u64(0x0102030405060708),
        vec![8, 7, 6, 5, 4, 3, 2, 1]
    );
    assert_eq!(encode_u64(0), vec![0; 8]);
}

#[test]
fn watermark_round_trip() {
    assert_eq!(decode_watermark(&encode_u64(1002)), Some(1002));
    assert_eq!(decode_watermark(&encode_u64(u64::MAX)), Some(u64::MAX));
}

#[test]
fn watermark_wrong_length_is_rejected() {
    assert_eq!(decode_watermark(&[1, 2, 3]), None);
    assert_eq!(decode_watermark(&[0; 9]), None);
}

#[test]
fn entry_list_round_trip() {
    let entries = vec![
        SlotEntry {
            header: Header { hash: 1 },
            signer: SignerId { id: 10 },
        },
        SlotEntry {
            header: Header { hash: 2 },
            signer: SignerId { id: 20 },
        },
    ];
    let bytes = encode_entries(&entries);
    assert_eq!(bytes.len(), 32);
    assert_eq!(decode_entries(&bytes), Some(entries));
}

#[test]
fn empty_entry_list_round_trip() {
    let entries: Vec<SlotEntry> = Vec::new();
    let bytes = encode_entries(&entries);
    assert_eq!(bytes.len(), 0);
    assert_eq!(decode_entries(&bytes), Some(Vec::new()));
}

#[test]
fn entry_list_wrong_length_is_rejected() {
    assert_eq!(decode_entries(&[0; 15]), None);
    assert_eq!(decode_entries(&[0; 17]), None);
}

#[test]
fn entry_bytes_are_hash_then_signer() {
    let entries = vec![SlotEntry {
        header: Header { hash: 0x0102030405060708 },
        signer: SignerId { id: 0x1112131415161718 },
    }];
    let bytes = encode_entries(&entries);
    assert_eq!(
        bytes,
        vec![8, 7, 6, 5, 4, 3, 2, 1, 0x18, 0x17, 0x16, 0x15, 0x14, 0x13, 0x12, 0x11]
    );
}
