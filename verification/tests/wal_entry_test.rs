use vertex_engine::trading_pair::TradingPair;
use vertex_engine::types::{Asset, WalEntryType};
use vertex_engine::wal::{accepts_entry, checksum_of, fnv1a64, to_hex16, WalEntry, WAL_VERSION};

fn entry() -> WalEntry {
    WalEntry::new(0, WalEntryType::AddTradingPair { pair: TradingPair::new(Asset::ETH, Asset::USDC) })
}

#[test]
fn fnv1a64_known_values() {
    assert_eq!(fnv1a64(b""), 0xcbf2_9ce4_8422_2325);
    assert_eq!(fnv1a64(b"a"), 0xaf63_dc4c_8601_ec8c);
    assert_eq!(fnv1a64(b"foobar"), 0x8594_4171_f739_67e8);
}

#[test]
fn hex16_is_zero_padded_lowercase() {
    assert_eq!(to_hex16(0), "0000000000000000");
    assert_eq!(to_hex16(0xab), "00000000000000ab");
    assert_eq!(to_hex16(0xcbf2_9ce4_8422_2325), "cbf29ce484222325");
    assert_eq!(to_hex16(u64::MAX), "ffffffffffffffff");
}

#[test]
fn checksum_text_of_body() {
    assert_eq!(checksum_of(b"a"), "af63dc4c8601ec8c");
}

#[test]
fn new_entry_has_version_and_no_checksum() {
    let e = entry();
    assert_eq!(e.seq(), 0);
    assert_eq!(e.version(), WAL_VERSION);
    assert!(e.checksum().is_none());
    assert!(e.verify_checksum(b"anything"));
}

#[test]
fn sealed_entry_verifies_its_body_only() {
    let mut e = entry();
    e.seal(7, b"[7,{\"AddTradingPair\":{}}]");
    assert_eq!(e.seq(), 7);
    assert_eq!(e.version(), WAL_VERSION);
    assert_eq!(e.checksum().unwrap().len(), 16);
    assert!(e.verify_checksum(b"[7,{\"AddTradingPair\":{}}]"));
    assert!(!e.verify_checksum(b"[8,{\"AddTradingPair\":{}}]"));
}

#[test]
fn entry_from_parts_keeps_fields() {
    let e = WalEntry::from_parts(3, 1, Some("af63dc4c8601ec8c".to_string()), WalEntryType::AddUser { user_id: 5 });
    assert_eq!(e.seq(), 3);
    assert_eq!(e.checksum(), Some("af63dc4c8601ec8c"));
    assert!(e.verify_checksum(b"a"));
    assert!(!e.verify_checksum(b"b"));
    match e.entry() {
        WalEntryType::AddUser { user_id } => assert_eq!(*user_id, 5),
        _ => panic!("expected AddUser"),
    }
}

#[test]
fn read_entries_are_replayed_only_with_a_matching_checksum() {
    let mut e = entry();
    e.seal(7, b"body-7");
    assert!(accepts_entry(&e, Some(b"body-7")));
    assert!(!accepts_entry(&e, Some(b"body-8")));
    assert!(!accepts_entry(&e, None));
}
