use matching_engine::recovery::{Recovery, RecoveryError};
use matching_engine::risk::{RiskConfig, RiskEngine};
use matching_engine::types::{OrderId, Price, Side};
use matching_engine::wal::{WalEvent, WalReader, WalSpace, CHUNK_SIZE, EVENT_SIZE, HEADER_SIZE};

/// The bytes of a log file holding `events`, zero-filled to `file_len`
/// bytes the way a freshly created file is.
fn log_file(events: &[WalEvent], file_len: usize) -> Vec<u8> {
    let mut data = WalSpace::header_bytes();
    data.extend_from_slice(&WalSpace::encode_batch(events));
    if data.len() < file_len {
        data.resize(file_len, 0);
    }
    data
}

fn read_all(data: Vec<u8>) -> Vec<WalEvent> {
    let mut reader = WalReader::from_data(data);
    assert!(reader.read_header().unwrap());
    let mut out = Vec::new();
    while let Ok(Some(event)) = reader.next_event() {
        out.push(event);
    }
    out
}

#[test]
fn test_wal_roundtrip() {
    let event = WalEvent::new_insert(1, 12345, 100, 1, 1, 10000, 10, 0, 0);
    let data = log_file(&[event], CHUNK_SIZE as usize);
    let mut reader = WalReader::from_data(data);
    assert!(reader.read_header().unwrap());
    let event = reader.next_event().unwrap().unwrap();
    assert_eq!(event.sequence_id, 1);
    assert_eq!(event.order_id, 100);
    assert_eq!(event.price, 10000);
    assert_eq!(event.qty, 10);
}

#[test]
fn test_wal_batch_append() {
    let events: Vec<WalEvent> =
        (0..100).map(|i| WalEvent::new_insert(i, i * 1000, i + 100, 1, 1, 10000, 10, 0, 0)).collect();
    let read = read_all(log_file(&events, CHUNK_SIZE as usize));
    let mut count = 0;
    for event in &read {
        assert_eq!(event.sequence_id, count);
        count += 1;
    }
    assert_eq!(count, 100);
}

#[test]
fn test_wal_extend() {
    // Appending past the first 1 MiB chunk grows the file once, by doubling.
    let mut space = WalSpace::for_new_file();
    let mut events = Vec::new();
    let mut grown = Vec::new();
    for i in 0..14000u64 {
        let e = WalEvent::new_insert(i, i, i + 200, 1, 1, 10000, 10, 0, 0);
        let plan = space.plan_append(EVENT_SIZE as u64);
        if let Some(c) = plan.new_capacity {
            grown.push(c);
        }
        space.commit(&plan);
        events.push(e);
    }
    assert_eq!(grown, vec![2 * CHUNK_SIZE]);
    assert_eq!(space.offset, HEADER_SIZE + 14000 * EVENT_SIZE as u64);
    let read = read_all(log_file(&events, space.capacity as usize));
    let mut count = 0u64;
    for event in &read {
        assert_eq!(event.sequence_id, count);
        count += 1;
    }
    assert_eq!(count, 14000);
}

#[test]
fn test_replay_insert_cancel() {
    let events = [
        WalEvent::new_insert(1, 11, 100, 1, 1, 10000, 10, 0, 0),
        WalEvent::new_insert(2, 12, 101, 1, 1, 20000, 5, 0, 0),
        WalEvent::new_cancel(3, 13, 100),
    ];
    let reader = WalReader::from_data(log_file(&events, CHUNK_SIZE as usize));
    let engine = Recovery::replay_log(reader, RiskEngine::new(RiskConfig::default())).unwrap();
    assert_eq!(engine.book.best_bid(), Some(Price(20000)));
    let orders = engine.book.l3_orders_at(Price(20000), Side::Bid);
    assert_eq!(orders.len(), 1);
    assert_eq!(orders[0].id, OrderId(101));
}

#[test]
fn test_replay_corrupt_event() {
    let mut data = log_file(&[WalEvent::new_insert(1, 11, 100, 1, 1, 10000, 10, 0, 0)], 0);
    let mut bad = [0u8; EVENT_SIZE];
    bad[0..8].copy_from_slice(&2u64.to_le_bytes());
    data.extend_from_slice(&bad);
    let engine = Recovery::replay_log(WalReader::from_data(data), RiskEngine::new(RiskConfig::default())).unwrap();
    let orders = engine.book.l3_orders_at(Price(10000), Side::Bid);
    assert_eq!(orders.len(), 1);
}

#[test]
fn test_count_events() {
    let events: Vec<WalEvent> = (0..100u64).map(|i| WalEvent::new_insert(i, i, i, 1, 1, 10000, 10, 0, 0)).collect();
    let data = log_file(&events, CHUNK_SIZE as usize);
    let (valid, corrupted) = Recovery::count_log_events(WalReader::from_data(data)).unwrap();
    assert_eq!(valid, 100);
    assert_eq!(corrupted, 0);
}

#[test]
fn count_events_counts_written_slots_that_do_not_read() {
    let events: Vec<WalEvent> = (0..3u64).map(|i| WalEvent::new_insert(i, i, i, 1, 1, 10000, 10, 0, 0)).collect();
    let mut data = log_file(&events, 0);
    let mut bad = [0u8; EVENT_SIZE];
    bad[0..8].copy_from_slice(&9u64.to_le_bytes());
    data.extend_from_slice(&bad);
    data.extend_from_slice(&WalEvent::new_cancel(4, 4, 1).to_bytes());
    data.resize(data.len() + 10 * EVENT_SIZE, 0);
    let (valid, corrupted) = Recovery::count_log_events(WalReader::from_data(data)).unwrap();
    assert_eq!((valid, corrupted), (3, 2));
}

#[test]
fn wal_event_bytes_roundtrip() {
    let e = WalEvent::new_insert(7, 8, 9, 10, 11, -12, 13, 1, 4);
    let bytes = e.to_bytes();
    let back = WalEvent::from_bytes(&bytes).unwrap();
    assert_eq!(back.sequence_id, 7);
    assert_eq!(back.timestamp_ns, 8);
    assert_eq!(back.order_id, 9);
    assert_eq!(back.account_id, 10);
    assert_eq!(back.symbol_id, 11);
    assert_eq!(back.price, -12);
    assert_eq!(back.qty, 13);
    assert_eq!(back.side, 1);
    assert_eq!(back.order_type, 4);
    assert_eq!(back.crc32, e.crc32);
}

#[test]
fn wal_corrupted_slot_fails_checksum() {
    let e = WalEvent::new_insert(7, 8, 9, 10, 11, 12, 13, 0, 0);
    let mut bytes = e.to_bytes();
    bytes[72] ^= 1;
    assert!(WalEvent::from_bytes(&bytes).is_none());
    let mut bytes = e.to_bytes();
    bytes[60] ^= 0x20;
    assert!(WalEvent::from_bytes(&bytes).is_none());
    // this checksum does not see every change: the low bits of a field
    // leave it as it is
    let mut bytes = e.to_bytes();
    bytes[60] ^= 1;
    assert!(WalEvent::from_bytes(&bytes).is_some());
}

#[test]
fn wal_checksum_is_crc32_of_slot() {
    // The checksum runs the reflected 0xEDB88320 register over the first
    // 76 bytes of the slot with the checksum field zeroed; each shift masks
    // the polynomial with the negated register.
    assert_eq!(matching_engine::wal::checksum_of(b"123456789"), 0x1D00_133D);
    let e = WalEvent::new_cancel(3, 4, 5);
    let mut bytes = e.to_bytes();
    bytes[72..76].copy_from_slice(&[0, 0, 0, 0]);
    assert_eq!(matching_engine::wal::checksum_of(&bytes[..76]), e.crc32);
}

#[test]
fn wal_reads_back_written_events_in_order() {
    let events = vec![
        WalEvent::new_insert(1, 1, 1, 1, 1, 100, 1, 0, 0),
        WalEvent::new_cancel(2, 2, 1),
        WalEvent::new_session_end(3, 3),
    ];
    let read = read_all(log_file(&events, 0));
    assert_eq!(read.len(), 3);
    for (a, b) in read.iter().zip(events.iter()) {
        assert_eq!(a.sequence_id, b.sequence_id);
        assert_eq!(a.event_type, b.event_type);
        assert_eq!(a.order_id, b.order_id);
        assert_eq!(a.crc32, b.crc32);
    }
}

#[test]
fn wal_bad_header_and_short_data() {
    let mut data = log_file(&[], 0);
    data[0] ^= 0xff;
    let mut reader = WalReader::from_data(data.clone());
    assert!(!reader.read_header().unwrap());
    let r = Recovery::replay_log(WalReader::from_data(data.clone()), RiskEngine::new(RiskConfig::default()));
    assert!(matches!(r, Err(RecoveryError::InvalidHeader)));
    assert_eq!(Recovery::count_log_events(WalReader::from_data(data)).unwrap(), (0, 0));
    let r = Recovery::replay_log(WalReader::from_data(vec![1, 2, 3]), RiskEngine::new(RiskConfig::default()));
    assert!(matches!(r, Err(RecoveryError::UnexpectedEof)));
}

#[test]
fn wal_replay_session_end_expires_day_orders() {
    // Orders replayed from a log rest as GTC, so a session end expires none.
    let events = [WalEvent::new_insert(1, 1, 100, 1, 1, 10000, 10, 0, 0), WalEvent::new_session_end(5, 5)];
    let engine =
        Recovery::replay_log(WalReader::from_data(log_file(&events, 0)), RiskEngine::new(RiskConfig::default()))
            .unwrap();
    assert_eq!(engine.session_end, 5);
    assert_eq!(engine.book.l3_orders_at(Price(10000), Side::Bid).len(), 1);
}

#[test]
fn wal_mmap_slices_roundtrip() {
    let e = WalEvent::new_insert(1, 2, 3, 4, 5, 6, 7, 1, 2);
    let mut region = vec![0xeeu8; 100];
    e.write_to_mmap(&mut region[10..]);
    assert_eq!(&region[10..90], &e.to_bytes()[..]);
    assert_eq!(region[90], 0xee);
    let back = WalEvent::read_from_mmap(&region[10..]).unwrap();
    assert_eq!(back.order_id, 3);
    assert!(WalEvent::read_from_mmap(&region[30..]).is_none());
    assert!(WalEvent::read_from_mmap(&region[..40]).is_none());
}

#[test]
fn wal_batch_larger_than_one_doubling() {
    let events: Vec<WalEvent> =
        (0..30000u64).map(|i| WalEvent::new_insert(i, i, i, 1, 1, 10000, 10, 0, 0)).collect();
    let mut space = WalSpace::for_new_file();
    let bytes = WalSpace::encode_batch(&events);
    let plan = space.plan_append(bytes.len() as u64);
    assert_eq!(plan.start, HEADER_SIZE);
    // 2_400_008 bytes need two doublings of the first chunk
    assert_eq!(plan.new_capacity, Some(4 * CHUNK_SIZE));
    space.commit(&plan);
    assert_eq!(space.offset, HEADER_SIZE + 30000 * EVENT_SIZE as u64);
    let read = read_all(log_file(&events, space.capacity as usize));
    assert_eq!(read.len(), 30000);
    assert_eq!(read[29999].sequence_id, 29999);
}

#[test]
fn wal_growth_stops_at_largest_size() {
    let space = WalSpace { offset: 200 * 1024 * 1024, capacity: 200 * 1024 * 1024 };
    let plan = space.plan_append(EVENT_SIZE as u64);
    assert_eq!(plan.new_capacity, Some(matching_engine::wal::MAX_CAPACITY));
}

#[test]
fn checked_replay_agrees_with_replay() {
    let events = vec![
        WalEvent::new_insert(1, 1, 1, 1, 1, 10000, 10, 0, 0),
        WalEvent::new_insert(2, 2, 2, 2, 1, 10000, 4, 1, 0),
    ];
    let data = log_file(&events, CHUNK_SIZE as usize);
    let checked = Recovery::replay_log_checked(WalReader::from_data(data.clone()), RiskEngine::new(RiskConfig::default()))
        .unwrap()
        .unwrap();
    let plain = Recovery::replay_log(WalReader::from_data(data), RiskEngine::new(RiskConfig::default())).unwrap();
    assert_eq!(checked.trades.len(), 1);
    assert_eq!(plain.trades.len(), 1);
    assert_eq!(checked.book.l1_bbo(), plain.book.l1_bbo());
}
