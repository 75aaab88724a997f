use matching_engine::journal::{StateJournal, StorageKey};

#[test]
fn test_new_is_empty() {
    let j = StateJournal::new();
    assert!(j.is_empty());
}

#[test]
fn test_record_write_and_read() {
    let mut j = StateJournal::new();
    let addr = [1u8; 20];
    let slot = [2u8; 32];
    let val = [42u8; 32];
    j.record_write(addr, slot, val);
    assert!(!j.is_empty());
    let key = StorageKey { address: addr, slot };
    assert_eq!(j.writes().iter().find(|(k, _)| *k == key).map(|(_, v)| v), Some(&val));
}

#[test]
fn test_gas_deduction() {
    let mut j = StateJournal::new();
    let addr = [1u8; 20];
    j.record_gas_deduction(addr, 21000);
    assert_eq!(j.gas_deductions().len(), 1);
    assert_eq!(j.gas_deductions()[0], (addr, 21000));
}

#[test]
fn test_account_data() {
    let mut j = StateJournal::new();
    let addr = [5u8; 20];
    assert!(j.get_account_data(&addr).is_none());
    j.set_account_data(addr, vec![1, 2, 3]);
    assert_eq!(j.get_account_data(&addr), Some(&[1, 2, 3][..]));
}

#[test]
fn test_overwrite_account_data() {
    let mut j = StateJournal::new();
    let addr = [5u8; 20];
    j.set_account_data(addr, vec![1, 2]);
    j.set_account_data(addr, vec![3, 4, 5]);
    assert_eq!(j.get_account_data(&addr), Some(&[3, 4, 5][..]));
}

#[test]
fn test_rollback_simulation() {
    let mut j = StateJournal::new();
    let addr = [1u8; 20];
    let slot = [0u8; 32];
    j.record_write(addr, slot, [10u8; 32]);
    j.record_gas_deduction(addr, 100);
    j.set_account_data(addr, vec![99]);
    assert!(!j.is_empty());
    let j2 = StateJournal::new();
    assert!(j2.is_empty());
    assert!(!j.is_empty());
}

#[test]
fn journal_overwrite_keeps_one_entry_per_key() {
    let mut j = StateJournal::new();
    let a = [1u8; 20];
    let b = [2u8; 20];
    let slot = [0u8; 32];
    j.record_write(a, slot, [1u8; 32]);
    j.record_write(b, slot, [2u8; 32]);
    j.record_write(a, slot, [3u8; 32]);
    assert_eq!(j.writes().len(), 2);
    assert_eq!(j.storage_value(&StorageKey { address: a, slot }), Some([3u8; 32]));
    assert_eq!(j.storage_value(&StorageKey { address: b, slot }), Some([2u8; 32]));
    assert_eq!(j.storage_value(&StorageKey { address: [9u8; 20], slot }), None);
    j.set_account_data(a, vec![1]);
    j.set_account_data(b, vec![2]);
    assert_eq!(j.accounts().len(), 2);
    assert_eq!(j.get_account_data(&b), Some(&[2][..]));
}

#[test]
fn second_write_to_an_address_replaces_its_entry() {
    let mut j = matching_engine::journal::StateJournal::new();
    j.set_account_data([5u8; 20], vec![1, 2]);
    j.set_account_data([5u8; 20], vec![3, 4, 5]);
    assert_eq!(j.accounts().len(), 1);
    j.record_write([1u8; 20], [2u8; 32], [3u8; 32]);
    j.record_write([1u8; 20], [2u8; 32], [4u8; 32]);
    assert_eq!(j.writes().len(), 1);
    assert_eq!(j.writes()[0].1, [4u8; 32]);
}
