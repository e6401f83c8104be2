use wickdb::record::reader::{read_all, Damage, LogEvent, Reader};
use wickdb::record::writer::Writer;
use wickdb::record::{RecordType, BLOCK_SIZE, HEADER_SIZE};
use wickdb::util::status::Status;

fn records_of(events: &[LogEvent]) -> Vec<Vec<u8>> {
    let mut out = Vec::new();
    for e in events {
        if let LogEvent::Record(r) = e {
            out.push(r.clone());
        }
    }
    out
}

fn damage_of(events: &[LogEvent]) -> Vec<Damage> {
    let mut out = Vec::new();
    for e in events {
        if let LogEvent::Corruption(d) = e {
            out.push(*d);
        }
    }
    out
}

fn write_all(records: &[Vec<u8>]) -> Vec<u8> {
    let mut writer = Writer::new(0);
    let mut log = Vec::new();
    for r in records {
        writer.add_record(r, &mut log);
    }
    log
}

fn patterned(len: usize, seed: u8) -> Vec<u8> {
    (0..len).map(|i| (i as u8).wrapping_mul(31).wrapping_add(seed)).collect()
}

#[test]
fn constants_of_the_format() {
    assert_eq!(BLOCK_SIZE, 32768);
    assert_eq!(HEADER_SIZE, 7);
}

#[test]
fn record_type_tags() {
    assert_eq!(RecordType::Zero.tag(), 0);
    assert_eq!(RecordType::Full.tag(), 1);
    assert_eq!(RecordType::First.tag(), 2);
    assert_eq!(RecordType::Middle.tag(), 3);
    assert_eq!(RecordType::Last.tag(), 4);
    for t in 0u8..=4 {
        assert_eq!(RecordType::from_tag(t).unwrap().tag(), t);
    }
    assert_eq!(RecordType::from_tag(5), None);
    assert_eq!(RecordType::from_tag(255), None);
}

#[test]
fn record_type_by_place_in_the_record() {
    assert_eq!(RecordType::of_fragment(true, true), RecordType::Full);
    assert_eq!(RecordType::of_fragment(true, false), RecordType::First);
    assert_eq!(RecordType::of_fragment(false, false), RecordType::Middle);
    assert_eq!(RecordType::of_fragment(false, true), RecordType::Last);
}

#[test]
fn hello_is_one_full_record() {
    let mut writer = Writer::new(0);
    let mut log = Vec::new();
    writer.add_record(b"hello", &mut log);
    assert_eq!(log.len(), 12);
    assert_eq!(
        log,
        vec![11, 185, 87, 88, 5, 0, 1, b'h', b'e', b'l', b'l', b'o']
    );
    assert_eq!(writer.block_offset(), 12);
    let events = read_all(log);
    assert_eq!(events.len(), 1);
    assert_eq!(records_of(&events), vec![b"hello".to_vec()]);
}

#[test]
fn forty_thousand_bytes_take_two_fragments() {
    let payload = vec![b'A'; 40_000];
    let mut writer = Writer::new(0);
    let mut log = Vec::new();
    writer.add_record(&payload, &mut log);
    assert_eq!(log.len(), 7 + 32_761 + 7 + 7_239);
    // the first fragment fills the first block
    assert_eq!(&log[0..7], &[254, 137, 25, 240, 0xf9, 0x7f, 2]);
    assert!(log[7..32_768].iter().all(|b| *b == b'A'));
    // the last fragment starts the second block, with no padding between
    assert_eq!(&log[32_768..32_775], &[78, 180, 28, 54, 0x47, 0x1c, 4]);
    assert!(log[32_775..].iter().all(|b| *b == b'A'));
    assert_eq!(writer.block_offset(), 7 + 7_239);
    let events = read_all(log);
    assert_eq!(events.len(), 1);
    assert_eq!(records_of(&events), vec![payload]);
}

#[test]
fn empty_record_is_a_bare_header() {
    let mut writer = Writer::new(0);
    let mut log = Vec::new();
    writer.add_record(b"", &mut log);
    assert_eq!(log, vec![5, 43, 40, 67, 0, 0, 1]);
    assert_eq!(writer.block_offset(), 7);
    let events = read_all(log);
    assert_eq!(events.len(), 1);
    assert_eq!(records_of(&events), vec![Vec::<u8>::new()]);
}

#[test]
fn writer_pads_a_short_block_tail() {
    let mut writer = Writer::new(32_765);
    assert_eq!(writer.block_offset(), 32_765);
    let mut added = Vec::new();
    writer.add_record(b"xy", &mut added);
    assert_eq!(
        added,
        vec![0, 0, 0, 93, 199, 120, 246, 2, 0, 1, b'x', b'y']
    );
    assert_eq!(writer.block_offset(), 9);
}

#[test]
fn reader_skips_the_padding() {
    // a first record that ends three bytes short of the block's end
    let first = patterned(32_765 - 7, 3);
    let mut writer = Writer::new(0);
    let mut log = Vec::new();
    writer.add_record(&first, &mut log);
    assert_eq!(log.len(), 32_765);
    assert_eq!(writer.block_offset(), 32_765);
    writer.add_record(b"xy", &mut log);
    assert_eq!(log.len(), 32_768 + 9);
    assert_eq!(&log[32_765..32_768], &[0, 0, 0]);
    assert_eq!(&log[32_768..], &[93, 199, 120, 246, 2, 0, 1, b'x', b'y']);
    let events = read_all(log);
    assert_eq!(events.len(), 2);
    assert_eq!(records_of(&events), vec![first, b"xy".to_vec()]);
}

#[test]
fn reader_steps_over_a_zeroed_block_to_the_record_after_it() {
    let mut log = vec![0u8; 32_765];
    let mut writer = Writer::new(32_765);
    writer.add_record(b"xy", &mut log);
    let events = read_all(log);
    assert_eq!(records_of(&events), vec![b"xy".to_vec()]);
    assert_eq!(damage_of(&events), vec![Damage::BadType]);
}

#[test]
fn no_padding_where_a_header_just_fits() {
    // seven bytes are left in the block: a header fits, with no payload
    let mut writer = Writer::new(32_761);
    let mut added = Vec::new();
    writer.add_record(b"abc", &mut added);
    // an empty first fragment, then the whole payload as the last one
    assert_eq!(added.len(), 7 + 7 + 3);
    assert_eq!(&added[4..7], &[0, 0, 2]);
    assert_eq!(&added[11..14], &[3, 0, 4]);
    assert_eq!(&added[14..], b"abc");
    assert_eq!(writer.block_offset(), 10);
}

#[test]
fn what_is_written_is_read_back() {
    let sizes = [0usize, 1, 100, 32_761, 32_762, 5, 65_536, 327_680, 0, 7];
    let records: Vec<Vec<u8>> = sizes
        .iter()
        .enumerate()
        .map(|(i, n)| patterned(*n, i as u8))
        .collect();
    let log = write_all(&records);
    let events = read_all(log);
    assert_eq!(events.len(), records.len());
    assert_eq!(records_of(&events), records);
}

#[test]
fn offset_is_bytes_written_modulo_the_block_size() {
    let mut writer = Writer::new(0);
    let mut log = Vec::new();
    for (i, n) in [10usize, 32_750, 1, 0, 70_000, 32_761, 3].iter().enumerate() {
        writer.add_record(&patterned(*n, i as u8), &mut log);
        assert_eq!(writer.block_offset(), log.len() % 32_768);
        assert!(writer.block_offset() < 32_768);
    }
}

#[test]
fn offset_of_a_new_writer_is_the_position_in_its_block() {
    assert_eq!(Writer::new(0).block_offset(), 0);
    assert_eq!(Writer::new(32_767).block_offset(), 32_767);
    assert_eq!(Writer::new(32_768).block_offset(), 0);
    assert_eq!(Writer::new(100_000).block_offset(), 100_000 % 32_768);
}

#[test]
fn reader_hands_out_records_one_by_one() {
    let log = write_all(&[b"one".to_vec(), b"two".to_vec()]);
    let mut reader = Reader::new(log);
    match reader.read_record() {
        Some(LogEvent::Record(r)) => assert_eq!(r, b"one".to_vec()),
        other => panic!("unexpected {:?}", other),
    }
    match reader.read_record() {
        Some(LogEvent::Record(r)) => assert_eq!(r, b"two".to_vec()),
        other => panic!("unexpected {:?}", other),
    }
    assert!(reader.read_record().is_none());
    assert!(reader.read_record().is_none());
}

#[test]
fn every_flipped_byte_of_a_record_is_noticed() {
    let log = write_all(&[b"hello".to_vec()]);
    for i in 0..log.len() {
        let mut damaged = log.clone();
        damaged[i] ^= 0x01;
        let events = read_all(damaged);
        assert!(records_of(&events).is_empty(), "byte {}", i);
        assert_eq!(damage_of(&events).len(), 1, "byte {}", i);
    }
}

#[test]
fn reader_goes_on_at_the_next_block_after_damage() {
    let first = patterned(32_000, 1);
    let second = patterned(100, 2);
    let third = patterned(2_000, 3);
    let mut log = write_all(&[first, second, third.clone()]);
    // damage the payload of the first record
    log[1_000] ^= 0xff;
    let events = read_all(log);
    // the whole first block is dropped, and with it the second record and
    // the first fragment of the third
    assert_eq!(
        damage_of(&events),
        vec![Damage::BadChecksum, Damage::UnexpectedFragment]
    );
    assert!(records_of(&events).is_empty());
    // a record that begins in the next block is read
    let first = patterned(32_768 - 7, 1);
    let mut log = write_all(&[first, third.clone()]);
    log[1_000] ^= 0xff;
    let events = read_all(log);
    assert_eq!(damage_of(&events), vec![Damage::BadChecksum]);
    assert_eq!(records_of(&events), vec![third]);
}

#[test]
fn truncated_log_gives_the_records_that_are_whole() {
    let records = vec![patterned(10, 1), patterned(40_000, 2), patterned(20, 3)];
    let log = write_all(&records);
    let end_first = 17;
    let end_second = 17 + 7 + (32_768 - 17 - 7) + 7 + (40_000 - (32_768 - 17 - 7));
    assert_eq!(log.len(), end_second + 27);
    for t in [
        0usize,
        3,
        16,
        17,
        18,
        24,
        30_000,
        32_768,
        32_770,
        32_775,
        end_second - 1,
        end_second,
        end_second + 6,
        end_second + 7,
        end_second + 26,
        end_second + 27,
    ] {
        let events = read_all(log[..t].to_vec());
        let whole = if t < end_first {
            0
        } else if t < end_second {
            1
        } else if t < log.len() {
            2
        } else {
            3
        };
        assert_eq!(records_of(&events), records[..whole].to_vec(), "cut at {}", t);
        assert!(damage_of(&events).len() <= 1, "cut at {}", t);
        // records come first, damage last
        assert!(events[..whole].iter().all(|e| matches!(e, LogEvent::Record(_))));
    }
}

#[test]
fn zero_type_is_damage() {
    let events = read_all(vec![0u8; 100]);
    assert!(records_of(&events).is_empty());
    assert_eq!(damage_of(&events), vec![Damage::BadType]);
}

#[test]
fn unknown_type_is_damage() {
    let mut log = write_all(&[b"abc".to_vec()]);
    log[6] = 9;
    let events = read_all(log);
    assert_eq!(damage_of(&events), vec![Damage::BadType]);
}

#[test]
fn length_beyond_the_block_is_damage() {
    let mut log = write_all(&[b"abc".to_vec()]);
    log[4] = 200;
    let events = read_all(log);
    assert!(records_of(&events).is_empty());
    assert_eq!(damage_of(&events), vec![Damage::BadLength]);
}

#[test]
fn wrong_checksum_is_damage() {
    let mut log = write_all(&[b"abc".to_vec()]);
    log[0] ^= 0x80;
    let events = read_all(log);
    assert!(records_of(&events).is_empty());
    assert_eq!(damage_of(&events), vec![Damage::BadChecksum]);
}

#[test]
fn last_fragment_without_a_first_is_damage() {
    let log = write_all(&[vec![b'A'; 40_000], b"next".to_vec()]);
    // drop the first block: the log now starts with a last fragment
    let events = read_all(log[32_768..].to_vec());
    assert_eq!(damage_of(&events), vec![Damage::UnexpectedFragment]);
    assert_eq!(records_of(&events), vec![b"next".to_vec()]);
    assert!(matches!(events[0], LogEvent::Corruption(_)));
}

#[test]
fn new_record_inside_an_unfinished_one_is_damage() {
    let log = write_all(&[vec![b'A'; 40_000]]);
    // keep the first fragment, and put a whole record where the last
    // fragment was
    let mut mixed = log[..32_768].to_vec();
    let mut writer = Writer::new(32_768);
    writer.add_record(b"abc", &mut mixed);
    let events = read_all(mixed);
    assert_eq!(damage_of(&events), vec![Damage::UnfinishedRecord]);
    assert_eq!(records_of(&events), vec![b"abc".to_vec()]);
    assert!(matches!(events[0], LogEvent::Corruption(_)));
}

#[test]
fn end_of_log_inside_a_record_is_damage() {
    let log = write_all(&[vec![b'A'; 40_000]]);
    let events = read_all(log[..32_768].to_vec());
    assert!(records_of(&events).is_empty());
    assert_eq!(damage_of(&events), vec![Damage::UnexpectedEof]);
}

#[test]
fn short_tail_at_the_end_of_the_log_is_ignored() {
    let mut log = write_all(&[b"abc".to_vec()]);
    log.extend_from_slice(&[1, 2, 3]);
    let events = read_all(log);
    assert_eq!(events.len(), 1);
    assert_eq!(records_of(&events), vec![b"abc".to_vec()]);
}

#[test]
fn empty_log_has_no_events() {
    assert!(read_all(Vec::new()).is_empty());
}

#[test]
fn damage_is_reported_as_corruption() {
    for d in [
        Damage::BadType,
        Damage::BadLength,
        Damage::BadChecksum,
        Damage::UnexpectedFragment,
        Damage::UnfinishedRecord,
        Damage::UnexpectedEof,
    ] {
        let e = d.to_error();
        assert_eq!(e.status(), Status::Corruption);
        assert!(e.to_string().starts_with("WickDB error [CorruptionError] : "));
    }
}

#[test]
fn changed_length_can_pass_the_checksum() {
    // a payload that brings the checksum back to that of the bare type
    let log = write_all(&[vec![5, 125, 50, 200]]);
    assert_eq!(log, vec![5, 43, 40, 67, 4, 0, 1, 5, 125, 50, 200]);
    let mut damaged = log.clone();
    damaged[4] = 0;
    // the header now frames an empty record whose checksum matches, and the
    // four bytes behind it are a tail too short for a header
    let events = read_all(damaged);
    assert_eq!(events.len(), 1);
    assert_eq!(records_of(&events), vec![Vec::<u8>::new()]);
}

#[test]
fn records_are_read_without_the_damage() {
    let records = vec![b"one".to_vec(), vec![b'B'; 50_000], Vec::new(), b"four".to_vec()];
    let log = write_all(&records);
    assert_eq!(wickdb::record::reader::read_records(log.clone()), records);
    // damage in the second block costs the long record and what shares
    // its last block
    let mut damaged = log;
    damaged[40_000] ^= 0x10;
    assert_eq!(
        wickdb::record::reader::read_records(damaged),
        vec![b"one".to_vec()]
    );
    assert!(wickdb::record::reader::read_records(Vec::new()).is_empty());
}
