use ledgers::handle::Handle;
use ledgers::index::Index;
use ledgers::ledger::{new_repository, Ledger, LedgerRepository};
use ledgers::log::Log;
use ledgers::segment::{Segment, Segments};
use ledgers::types::Error;

#[test]
fn create_new_handle() {
    let id = 123;

    let handle = Handle::new(id);

    assert_eq!(handle.log.id, id);
    assert_eq!(handle.index.id, id);
    assert_eq!(handle.log_size(), 0);
    assert_eq!(handle.index_size(), 0);
}

#[test]
fn open_existing_handle() {
    let id = 123;
    let mut handle = Handle::new(id);
    handle.add(vec![vec![1, 2], vec![5, 6]]).unwrap();

    let handle = Handle::open(id, handle.log.data.clone(), handle.index.data.clone());

    assert_eq!(handle.log_size(), 28);
    assert_eq!(handle.index_size(), 16);
}

#[test]
fn read_entries_from_active_handle() {
    let id = 123;
    let mut handle = Handle::new(id);
    handle.add(vec![vec![1, 2], vec![3, 4]]).unwrap();

    let mut buf: Vec<u8> = Vec::new();

    handle.stream(123, 16000, &mut buf).unwrap();
    assert_eq!(
        &buf,
        &[
            0, 0, 0, 0, 0, 0, 0, 123, //offset
            0, 0, 0, 2, //len
            1, 2, //entry
            0, 0, 0, 0, 0, 0, 0, 124, //offset
            0, 0, 0, 2, //entry
            3, 4 //payload
        ]
    );
}

#[test]
fn create_new_index() {
    let base_offset = 5000;

    let index = Index::new(base_offset);

    assert_eq!(index.next_offset, base_offset);
}

#[test]
fn next_offset_for_existing_index() {
    let mut index = Index::open(1000, Vec::new());
    index.add_entry(100).unwrap();
    index.add_entry(101).unwrap();

    assert_eq!(index.next_offset, 1002);
}

#[test]
fn find_entry() {
    let base_offset = 5000;
    let mut index = Index::new(base_offset);
    index.add_entry(100).unwrap();
    index.add_entry(101).unwrap();
    index.add_entry(102).unwrap();

    assert_eq!(index.find_entry(5001).unwrap(), 101);

    index.add_entry(103).unwrap();
    assert_eq!(index.find_entry(5002).unwrap(), 102);
    assert_eq!(index.find_entry(5003).unwrap(), 103);
}

#[test]
fn ledger_create_new_ledger() {
    let ledger = Ledger::new(100);

    assert_eq!(ledger.id.len(), 36);
    assert_eq!(ledger.segments.len(), 0);
}

#[test]
fn indicate_missing_ledger() {
    let id = "unknown_id".to_owned();

    let ledger = Ledger::open(id, 100, None);

    assert!(ledger.is_none());
}

#[test]
fn add_entries_to_ledger() {
    let segment_id = 10;
    let entries = vec![vec![1, 2], vec![3, 4]];
    let mut ledger = Ledger::new(100);

    ledger.add(segment_id, entries).unwrap();

    assert_eq!(ledger.segment_size(segment_id), 28);
}

#[test]
fn segment_full() {
    let segment_id = 10;
    let entries = vec![vec![1, 2], vec![3, 4]];
    let mut ledger = Ledger::new(28);
    ledger.add(segment_id, entries).unwrap();

    let result = ledger.add(segment_id, vec![vec![1]]);

    assert!(result.err().unwrap().is_segment_full());
    let offset = 10;
    let bytes = 16000;
    let mut buf = Vec::new();
    ledger.stream(segment_id, offset, bytes, &mut buf).unwrap();
    assert_eq!(
        &buf,
        &vec![
            0, 0, 0, 0, 0, 0, 0, 10, //offset
            0, 0, 0, 2, //size
            1, 2, //entry
            0, 0, 0, 0, 0, 0, 0, 11, //offset
            0, 0, 0, 2, //size
            3, 4 //entry
        ]
    );
}

#[test]
fn stream_entries_from_ledger() {
    let segment_id = 10;
    let entries = vec![vec![1, 2], vec![3, 4]];
    let mut ledger = Ledger::new(100);
    ledger.add(segment_id, entries).unwrap();

    let mut buf = Vec::new();
    let offset = 10;
    let bytes = 16000;
    ledger.stream(segment_id, offset, bytes, &mut buf).unwrap();

    assert_eq!(
        &buf,
        &vec![
            0, 0, 0, 0, 0, 0, 0, 10, //offset
            0, 0, 0, 2, //size
            1, 2, //entry
            0, 0, 0, 0, 0, 0, 0, 11, //offset
            0, 0, 0, 2, //size
            3, 4 //entry
        ]
    );
}

#[test]
fn create_new_log() {
    let log = Log::new(123);

    assert_eq!(log.position, 0);
    assert_eq!(log.size(), 0);
}

#[test]
fn add_entry() {
    let id = 5000;
    let mut log = Log::new(id);

    log.add_entry(5000, vec![1, 2, 3]).unwrap();
    log.add_entry(5001, vec![3, 4]).unwrap();

    assert_eq!(log.position, 29);
}

#[test]
fn open_existing_log() {
    let id = 10;
    let mut log = Log::new(id);
    log.add_entry(5000, vec![1, 2, 3]).unwrap();

    let log = Log::open(id, log.data.clone());
    assert_eq!(log.position, 15);
}

#[test]
fn stream_entries() {
    let id = 10;
    let mut log = Log::new(id);
    log.add_entry(10, vec![1, 2]).unwrap();
    log.add_entry(11, vec![3, 4]).unwrap();

    let mut entries = Vec::new();
    log.stream_entries(0, 16000, &mut entries).unwrap();

    assert_eq!(
        &entries,
        &[
            0, 0, 0, 0, 0, 0, 0, 10, //offset
            0, 0, 0, 2, //len
            1, 2, //entry
            0, 0, 0, 0, 0, 0, 0, 11, //offset
            0, 0, 0, 2, //len
            3, 4 //entry
        ]
    );
}

#[test]
fn stream_partial() {
    let id = 10;
    let mut log = Log::new(id);
    log.add_entry(10, vec![1, 2]).unwrap();
    log.add_entry(11, vec![3, 4]).unwrap();

    let mut entries = Vec::new();
    log.stream_entries(0, 14, &mut entries).unwrap();

    assert_eq!(
        &entries,
        &[
            0, 0, 0, 0, 0, 0, 0, 10, //offset
            0, 0, 0, 2, //len
            1, 2, //entry
        ]
    );
}

#[test]
fn create_new_segment() {
    let mut segments = Segments::open(&Vec::new());

    let segment = segments.create(5).unwrap();

    assert_eq!(segment.id, 5);
}

#[test]
fn no_segments() {
    assert_eq!(Segments::open(&Vec::new()).len(), 0);
}

#[test]
fn add_entries_to_segment() {
    let mut segments = Segments::open(&Vec::new());
    let segment = segments.create(5).unwrap();

    segment.add(vec![vec![1, 2], vec![5, 6]]).unwrap();

    assert_eq!(segment.size(), 28);
}

#[test]
fn stream_entries_from_segment() {
    let segment_id = 5;
    let mut segments = Segments::open(&Vec::new());
    let segment = segments.create(segment_id).unwrap();
    segment.add(vec![vec![1, 2], vec![5, 6]]).unwrap();

    let mut buf = Vec::new();
    segment.stream(segment_id, 16000, &mut buf).unwrap();

    assert_eq!(
        &buf,
        &vec![
            0, 0, 0, 0, 0, 0, 0, 5, //offset
            0, 0, 0, 2, //len
            1, 2, //payload
            0, 0, 0, 0, 0, 0, 0, 6, //offset
            0, 0, 0, 2, //len
            5, 6 //payload
        ]
    );
}

#[test]
fn integration_create_new_ledger() {
    let mut repository = new_repository();

    let ledger_id = repository.create(1000);

    assert_eq!(ledger_id.len(), 36);
    assert!(repository.get(&ledger_id).is_some());
}

fn decode(bytes: &[u8]) -> Vec<(u64, Vec<u8>)> {
    let mut records = Vec::new();
    let mut at = 0;
    while at + 12 <= bytes.len() {
        let mut offset = [0u8; 8];
        offset.copy_from_slice(&bytes[at..at + 8]);
        let mut length = [0u8; 4];
        length.copy_from_slice(&bytes[at + 8..at + 12]);
        let n = u32::from_be_bytes(length) as usize;
        if at + 12 + n > bytes.len() {
            break;
        }
        records.push((u64::from_be_bytes(offset), bytes[at + 12..at + 12 + n].to_vec()));
        at += 12 + n;
    }
    records
}

#[test]
fn round_trip_over_several_appends() {
    let mut ledger = Ledger::new(1 << 20);
    let first = vec![vec![], vec![9], vec![1, 2, 3, 4, 5]];
    let second = vec![vec![7; 300], vec![0, 255]];
    ledger.add(40, first.clone()).unwrap();
    ledger.add(40, second.clone()).unwrap();

    let mut buf = Vec::new();
    ledger.stream(40, 40, usize::MAX, &mut buf).unwrap();

    let decoded = decode(&buf);
    let mut expected = first;
    expected.extend(second);
    assert_eq!(decoded.len(), 5);
    for (i, (offset, payload)) in decoded.iter().enumerate() {
        assert_eq!(*offset, 40 + i as u64);
        assert_eq!(payload, &expected[i]);
    }
    assert_eq!(ledger.segment_size(40), (12 * 5 + 0 + 1 + 5 + 300 + 2) as u64);
}

#[test]
fn lookup_gives_the_start_of_each_record() {
    let mut handle = Handle::new(7);
    handle.add(vec![vec![1], vec![2, 2], vec![], vec![4, 4, 4, 4]]).unwrap();

    assert_eq!(handle.index.find_entry(7).unwrap(), 0);
    assert_eq!(handle.index.find_entry(8).unwrap(), 13);
    assert_eq!(handle.index.find_entry(9).unwrap(), 27);
    assert_eq!(handle.index.find_entry(10).unwrap(), 39);
    assert_eq!(handle.index.next_offset, 11);

    let mut buf = Vec::new();
    handle.stream(9, 12, &mut buf).unwrap();
    assert_eq!(buf, vec![0, 0, 0, 0, 0, 0, 0, 9, 0, 0, 0, 0]);
}

#[test]
fn lookup_outside_the_index_is_refused() {
    let mut index = Index::new(5000);
    index.add_entry(100).unwrap();

    assert!(matches!(index.find_entry(4999), Err(Error::OffsetOutOfRange(4999))));
    assert!(matches!(index.find_entry(5001), Err(Error::OffsetOutOfRange(5001))));
    assert!(index.find_entry(5001).err().unwrap().is_offset_out_of_range());
    assert!(!index.find_entry(5001).err().unwrap().is_segment_full());
    assert_eq!(index.find_entry(5000).unwrap(), 100);

    let mut handle = Handle::new(3);
    handle.add(vec![vec![1]]).unwrap();
    let mut buf = vec![42];
    assert!(matches!(handle.stream(4, 10, &mut buf), Err(Error::OffsetOutOfRange(4))));
    assert_eq!(buf, vec![42]);
}

#[test]
fn index_entries_are_big_endian() {
    let mut index = Index::new(0);
    index.add_entry(0x0102030405060708).unwrap();
    index.add_entry(14).unwrap();

    assert_eq!(
        index.data,
        vec![1, 2, 3, 4, 5, 6, 7, 8, 0, 0, 0, 0, 0, 0, 0, 14]
    );
    assert_eq!(index.size(), 16);
    assert_eq!(index.find_entry(0).unwrap(), 0x0102030405060708);
}

#[test]
fn record_header_is_big_endian() {
    let mut log = Log::new(0);
    log.add_entry(0x1122334455667788, vec![0xAA; 258]).unwrap();

    assert_eq!(
        &log.data[..12],
        &[0x11, 0x22, 0x33, 0x44, 0x55, 0x66, 0x77, 0x88, 0, 0, 1, 2]
    );
    assert_eq!(log.size(), 270);
}

#[test]
fn concrete_scenario_bytes() {
    let mut ledger = Ledger::new(100);
    ledger.add(10, vec![vec![1, 2], vec![3, 4]]).unwrap();

    let segment = ledger.segments.get(10).unwrap();
    let handle = segment.handle.as_ref().unwrap();
    assert_eq!(
        handle.log.data,
        vec![
            0, 0, 0, 0, 0, 0, 0, 0x0A, 0, 0, 0, 2, 1, 2, 0, 0, 0, 0, 0, 0, 0, 0x0B, 0, 0, 0, 2,
            3, 4
        ]
    );
    assert_eq!(
        handle.index.data,
        vec![0, 0, 0, 0, 0, 0, 0, 0, 0, 0, 0, 0, 0, 0, 0, 14]
    );
    let mut buf = Vec::new();
    ledger.stream(10, 10, 16000, &mut buf).unwrap();
    assert_eq!(buf, handle.log.data);
}

#[test]
fn write_may_pass_the_threshold_once() {
    let mut ledger = Ledger::new(27);
    ledger.add(10, vec![vec![1, 2], vec![3, 4]]).unwrap();
    assert_eq!(ledger.segment_size(10), 28);

    match ledger.add(10, vec![vec![9]]) {
        Err(Error::SegmentFull(id)) => assert_eq!(id, 10),
        _ => panic!("the segment takes no more"),
    }
    assert_eq!(ledger.segment_size(10), 28);
    ledger.add(11, vec![vec![9]]).unwrap();
    assert_eq!(ledger.segment_size(11), 13);
}

#[test]
fn partial_stream_from_a_later_record() {
    let mut ledger = Ledger::new(100);
    ledger.add(10, vec![vec![1, 2], vec![3, 4]]).unwrap();

    let mut buf = vec![7];
    ledger.stream(10, 11, 5, &mut buf).unwrap();
    assert_eq!(buf, vec![7, 0, 0, 0, 0, 0]);

    let mut rest = Vec::new();
    ledger.stream(10, 11, 16000, &mut rest).unwrap();
    assert_eq!(rest, vec![0, 0, 0, 0, 0, 0, 0, 11, 0, 0, 0, 2, 3, 4]);
}

#[test]
fn unknown_or_unwritten_segment_streams_nothing() {
    let names = vec![
        b"3.index".to_vec(),
        b"3.log".to_vec(),
        b"1.index".to_vec(),
        b"2.index".to_vec(),
        b"notes.txt".to_vec(),
    ];
    let mut ledger = Ledger::with_id("some-ledger".to_owned(), 100);
    ledger.segments = Segments::open(&names);
    assert_eq!(ledger.id, "some-ledger");
    assert_eq!(ledger.segments.len(), 3);

    let mut buf = Vec::new();
    ledger.stream(99, 99, 100, &mut buf).unwrap();
    ledger.stream(1, 1, 100, &mut buf).unwrap();
    assert!(buf.is_empty());
    assert_eq!(ledger.segment_size(99), 0);
    assert_eq!(ledger.segment_size(1), 0);
    assert!(ledger.segments.get(99).is_none());
    assert!(ledger.segments.get_mut(2).is_some());
    assert!(ledger.segments.get_mut(4).is_none());
    assert_eq!(ledger.segments.create_if_absent(4).id, 4);
    assert_eq!(ledger.segments.len(), 4);
}

#[test]
fn reopening_keeps_sizes_and_offsets() {
    let mut ledger = Ledger::new(1000);
    ledger.add(10, vec![vec![1, 2], vec![3, 4]]).unwrap();
    ledger.add(20, vec![vec![5]]).unwrap();
    let stored: Vec<(u64, Vec<u8>, Vec<u8>)> = [10u64, 20]
        .iter()
        .map(|id| {
            let handle = ledger.segments.get(*id).unwrap().handle.as_ref().unwrap();
            (*id, handle.log.data.clone(), handle.index.data.clone())
        })
        .collect();

    let mut reopened = Ledger::open(ledger.id.clone(), 1000, Some(stored)).unwrap();

    assert_eq!(reopened.id, ledger.id);
    assert_eq!(reopened.segment_size, 1000);
    assert_eq!(reopened.segments.len(), 2);
    assert_eq!(reopened.segment_size(10), 28);
    assert_eq!(reopened.segment_size(20), 13);
    reopened.add(10, vec![vec![6]]).unwrap();
    let mut buf = Vec::new();
    reopened.stream(10, 12, 100, &mut buf).unwrap();
    assert_eq!(buf, vec![0, 0, 0, 0, 0, 0, 0, 12, 0, 0, 0, 1, 6]);
}

#[test]
fn torn_index_counts_whole_entries() {
    let index = Index::open(100, vec![0; 20]);
    assert_eq!(index.next_offset, 102);
    assert_eq!(index.base_offset, 100);
    let segment = Segment::open(100, vec![1, 2, 3], vec![0; 8]);
    assert_eq!(segment.size(), 3);
}

#[test]
fn repository_keeps_one_ledger_per_id() {
    let mut repository = LedgerRepository::new();
    let mut ids = Vec::new();
    for _ in 0..5 {
        ids.push(repository.create(64));
    }
    for id in &ids {
        assert_eq!(id.len(), 36);
        let ledger = repository.get(id).unwrap();
        assert_eq!(&ledger.id, id);
        assert_eq!(ledger.segment_size, 64);
        assert_eq!(ledger.segments.len(), 0);
    }
    let mut distinct = ids.clone();
    distinct.sort();
    distinct.dedup();
    assert_eq!(distinct.len(), repository.ledgers.len());
    assert!(repository.get(&"missing".to_owned()).is_none());

    let mut replacement = Ledger::with_id(ids[0].clone(), 7);
    replacement.add(1, vec![vec![1]]).unwrap();
    repository.insert(replacement);
    assert_eq!(repository.ledgers.len(), distinct.len());
    assert_eq!(repository.get(&ids[0]).unwrap().segment_size, 7);
}

#[test]
fn recovery_gives_unindexed_records_their_entries() {
    let mut whole = Handle::new(50);
    whole.add(vec![vec![1], vec![2, 2], vec![3, 3, 3]]).unwrap();

    let mut index = whole.index.data[..8].to_vec();
    index.extend_from_slice(&[9, 9, 9]);
    let mut torn = Handle::open(50, whole.log.data.clone(), index);
    assert_eq!(torn.index.next_offset, 51);
    torn.recover();
    assert_eq!(torn.index.data, whole.index.data);
    assert_eq!(torn.index.next_offset, 53);
    assert_eq!(torn.log.data, whole.log.data);

    let mut empty_index = Handle::open(50, whole.log.data.clone(), Vec::new());
    empty_index.recover();
    assert_eq!(empty_index.index.data, whole.index.data);

    let mut in_step = Handle::open(50, whole.log.data.clone(), whole.index.data.clone());
    in_step.recover();
    assert_eq!(in_step.index.data, whole.index.data);
    assert_eq!(in_step.index.next_offset, 53);
}

#[test]
fn recovery_stops_at_a_torn_record() {
    let mut whole = Handle::new(0);
    whole.add(vec![vec![1, 1], vec![2, 2]]).unwrap();
    let mut log = whole.log.data.clone();
    log.extend_from_slice(&[0, 0, 0, 0, 0, 0, 0, 2, 0, 0, 0, 5, 1]);

    let segment = Segment::open(0, log.clone(), Vec::new());
    let handle = segment.handle.as_ref().unwrap();
    assert_eq!(handle.index.data, whole.index.data);
    assert_eq!(handle.index.next_offset, 2);
    assert_eq!(segment.size(), 41);

    let log_handle = Log::open(0, log);
    assert_eq!(log_handle.record_end(0), Some(14));
    assert_eq!(log_handle.record_end(14), Some(28));
    assert_eq!(log_handle.record_end(28), None);
    assert_eq!(log_handle.record_end(40), None);
    assert_eq!(log_handle.record_end(4000), None);
}

#[test]
fn empty_batch_brings_the_segment_into_being() {
    let mut ledger = Ledger::new(10);
    ledger.add(3, Vec::new()).unwrap();
    assert!(ledger.segments.get(3).unwrap().handle.is_some());
    assert_eq!(ledger.segment_size(3), 0);
    let mut buf = Vec::new();
    assert!(matches!(
        ledger.stream(3, 3, 10, &mut buf),
        Err(Error::OffsetOutOfRange(3))
    ));
    assert!(buf.is_empty());
}

#[test]
fn reading_from_a_position_past_the_end_gives_nothing() {
    let mut log = Log::new(1);
    log.add_entry(1, vec![1]).unwrap();
    let mut buf = Vec::new();
    log.stream_entries(13, 5, &mut buf).unwrap();
    log.stream_entries(14, 5, &mut buf).unwrap();
    log.stream_entries(u64::MAX, 5, &mut buf).unwrap();
    log.stream_entries(0, 0, &mut buf).unwrap();
    assert!(buf.is_empty());
    log.stream_entries(12, 5, &mut buf).unwrap();
    assert_eq!(buf, vec![1]);
}

#[test]
fn library_decoder_reads_back_what_was_appended() {
    let payloads = vec![vec![], vec![1], vec![2; 70000], vec![3, 4]];
    let mut ledger = Ledger::new(1 << 30);
    ledger.add(9, payloads[..2].to_vec()).unwrap();
    ledger.add(9, payloads[2..].to_vec()).unwrap();

    let mut buf = Vec::new();
    ledger.stream(9, 9, usize::MAX, &mut buf).unwrap();
    assert_eq!(ledgers::encoding::decode(&buf), payloads);

    let mut partial = Vec::new();
    ledger.stream(9, 9, 30, &mut partial).unwrap();
    assert_eq!(partial.len(), 30);
    assert_eq!(&partial[..], &buf[..30]);
    assert_eq!(ledgers::encoding::decode(&partial), payloads[..2].to_vec());
    assert_eq!(ledgers::encoding::decode(&[]), Vec::<Vec<u8>>::new());
    assert_eq!(ledgers::encoding::decode(&[0; 11]), Vec::<Vec<u8>>::new());
    assert_eq!(ledgers::encoding::decode(&[0; 12]), vec![Vec::<u8>::new()]);
}

#[test]
fn io_failures_become_io_errors() {
    let failure = std::io::Error::from(std::io::ErrorKind::PermissionDenied);
    let error = Error::from(failure);
    assert!(matches!(error, Error::IOError(_)));
    assert!(!error.is_segment_full());
    assert!(!error.is_offset_out_of_range());
}

#[test]
fn reopened_ledger_reports_the_sizes_it_had() {
    let mut ledger = Ledger::new(64);
    ledger.add(7, vec![vec![1, 2, 3], vec![]]).unwrap();
    ledger.add(9, vec![vec![4; 100]]).unwrap();
    let sizes = (ledger.segment_size(7), ledger.segment_size(9));
    assert_eq!(sizes, (27, 112));
    let files: Vec<(u64, Vec<u8>, Vec<u8>)> = [9u64, 7]
        .iter()
        .map(|id| {
            let handle = ledger.segments.get(*id).unwrap().handle.as_ref().unwrap();
            (*id, handle.log.data.clone(), handle.index.data.clone())
        })
        .collect();

    let reopened = Ledger::open(ledger.id.clone(), 64, Some(files)).unwrap();

    assert_eq!(reopened.segments.len(), 2);
    assert_eq!(reopened.segment_size(7), 27);
    assert_eq!(reopened.segment_size(9), 112);
    assert_eq!(reopened.segment_size(8), 0);
    for id in [7u64, 9] {
        let was = ledger.segments.get(id).unwrap().handle.as_ref().unwrap();
        let is = reopened.segments.get(id).unwrap().handle.as_ref().unwrap();
        assert_eq!(is.index.next_offset, was.index.next_offset);
        assert_eq!(is.index.base_offset, id);
        assert_eq!(is.log.position, was.log.position);
        assert_eq!(is.log.data, was.log.data);
        assert_eq!(is.index.data, was.index.data);
    }
}

#[test]
fn write_after_reopening_goes_on_where_the_log_ended() {
    let mut ledger = Ledger::new(100);
    ledger.add(10, vec![vec![1, 2], vec![3, 4]]).unwrap();
    let old_log = ledger.segments.get(10).unwrap().handle.as_ref().unwrap().log.data.clone();
    let old_index = ledger.segments.get(10).unwrap().handle.as_ref().unwrap().index.data.clone();
    assert_eq!(old_log.len(), 28);

    let files = vec![(10u64, old_log.clone(), old_index.clone())];
    let mut reopened = Ledger::open(ledger.id.clone(), 100, Some(files)).unwrap();
    reopened.add(10, vec![vec![5]]).unwrap();

    let handle = reopened.segments.get(10).unwrap().handle.as_ref().unwrap();
    let mut expected_log = old_log;
    expected_log.extend_from_slice(&[0, 0, 0, 0, 0, 0, 0, 12, 0, 0, 0, 1, 5]);
    assert_eq!(handle.log.data, expected_log);
    let mut expected_index = old_index;
    expected_index.extend_from_slice(&[0, 0, 0, 0, 0, 0, 0, 28]);
    assert_eq!(handle.index.data, expected_index);
    assert_eq!(reopened.segment_size(10), 41);
    assert_eq!(handle.index.find_entry(12).unwrap(), 28);
}

#[test]
fn opening_takes_the_first_entry_of_a_segment_and_recovers_its_index() {
    let mut whole = Handle::new(4);
    whole.add(vec![vec![1], vec![2], vec![3]]).unwrap();
    let files = vec![
        (4u64, whole.log.data.clone(), whole.index.data[..8].to_vec()),
        (4u64, Vec::new(), Vec::new()),
        (5u64, Vec::new(), Vec::new()),
    ];

    let opened = Ledger::open("l".to_owned(), 10, Some(files)).unwrap();

    assert_eq!(opened.segments.len(), 2);
    assert_eq!(opened.segment_size(4), 39);
    let handle = opened.segments.get(4).unwrap().handle.as_ref().unwrap();
    assert_eq!(handle.index.data, whole.index.data);
    assert_eq!(handle.index.next_offset, 7);
    assert_eq!(opened.segment_size(5), 0);
    assert!(opened.segments.get(5).unwrap().handle.is_some());
    let empty = Ledger::open("l".to_owned(), 10, Some(Vec::new())).unwrap();
    assert_eq!(empty.segments.len(), 0);
}

#[test]
fn repository_hands_out_a_ledger_for_writing() {
    let mut repository = LedgerRepository::new();
    let first = repository.create(50);
    let second = repository.create(50);

    repository.get_mut(&second).unwrap().add(3, vec![vec![1, 2]]).unwrap();

    assert_eq!(repository.get(&second).unwrap().segment_size(3), 14);
    assert_eq!(repository.get(&first).unwrap().segment_size(3), 0);
    assert_eq!(repository.get(&first).unwrap().id, first);
    assert!(repository.get_mut(&"missing".to_owned()).is_none());
    assert_eq!(repository.len(), 2);
}
