use std::collections::BTreeMap;

use mrecordlog::{
    AppendError, CreateQueueError, Directory, FileNumber, IoOp, LogReplay, MultiRecordLog, Record,
    RecordType, TruncateError, FILE_SIZE_LIMIT,
};

/// Files kept in memory, changed by the operations that the log hands out.
#[derive(Default, Clone)]
struct Disk {
    files: BTreeMap<u32, Vec<u8>>,
}

impl Disk {
    fn apply(&mut self, log: &mut MultiRecordLog) {
        for op in log.take_ops() {
            match op {
                IoOp::CreateFile(f) => {
                    assert!(self.files.insert(f.file_number(), Vec::new()).is_none());
                }
                IoOp::Write(f, bytes) => self.files.get_mut(&f.file_number()).unwrap().extend(bytes),
                IoOp::Sync(f) => assert!(self.files.contains_key(&f.file_number())),
                IoOp::DeleteFile(f) => {
                    assert!(self.files.remove(&f.file_number()).is_some());
                }
            }
        }
    }

    fn open_with_limit(&self, limit: u64) -> MultiRecordLog {
        let names: Vec<String> = self.files.keys().map(|&n| FileNumber::new(n).filename()).collect();
        let mut replay = LogReplay::new(Directory::open(&names));
        while let Some(file) = replay.next_file() {
            assert!(replay.replay_file(self.files[&file.file_number()].clone()));
        }
        replay.into_log(limit).unwrap()
    }

    fn open(&self) -> MultiRecordLog {
        self.open_with_limit(FILE_SIZE_LIMIT)
    }
}

fn read_all_records(log: &MultiRecordLog, queue: &str) -> Vec<Vec<u8>> {
    let mut records = Vec::new();
    let mut next_pos = u64::default();
    for (pos, payload) in log.range(queue, next_pos..).unwrap() {
        assert_eq!(pos, next_pos);
        records.push(payload);
        next_pos += 1;
    }
    records
}

#[test]
fn test_multi_record_log() {
    let mut disk = Disk::default();
    {
        let mut log = disk.open();
        log.create_queue("queue1").unwrap();
        log.create_queue("queue2").unwrap();
        log.append_record("queue1", None, b"hello").unwrap();
        log.append_record("queue2", None, b"maitre").unwrap();
        log.append_record("queue1", None, b"happy").unwrap();
        log.append_record("queue1", None, b"tax").unwrap();
        log.append_record("queue2", None, b"corbeau").unwrap();
        disk.apply(&mut log);
        assert_eq!(
            read_all_records(&log, "queue1"),
            vec![b"hello".to_vec(), b"happy".to_vec(), b"tax".to_vec()]
        );
        assert_eq!(read_all_records(&log, "queue2"), vec![b"maitre".to_vec(), b"corbeau".to_vec()]);
        assert_eq!(log.num_files(), 1);
    }
    {
        let mut log = disk.open();
        log.append_record("queue1", None, b"bubu").unwrap();
        disk.apply(&mut log);
        assert_eq!(
            read_all_records(&log, "queue1"),
            vec![b"hello".to_vec(), b"happy".to_vec(), b"tax".to_vec(), b"bubu".to_vec()]
        );
        assert_eq!(log.num_files(), 2);
    }
}

#[test]
fn simple_append_read() {
    let mut disk = Disk::default();
    let mut log = disk.open();
    log.create_queue("q").unwrap();
    assert_eq!(log.append_record("q", None, b"hello"), Ok(Some(0)));
    assert_eq!(log.append_record("q", None, b"world"), Ok(Some(1)));
    disk.apply(&mut log);
    assert_eq!(
        log.range("q", 0..).unwrap(),
        vec![(0, b"hello".to_vec()), (1, b"world".to_vec())]
    );
}

#[test]
fn idempotent_retry_writes_nothing() {
    let mut disk = Disk::default();
    let mut log = disk.open();
    log.create_queue("q").unwrap();
    assert_eq!(log.append_record("q", Some(0), b"a"), Ok(Some(0)));
    disk.apply(&mut log);
    let before = disk.files.clone();
    assert_eq!(log.append_record("q", Some(0), b"b"), Ok(None));
    assert!(log.take_ops().is_empty());
    assert_eq!(disk.files, before);
    assert_eq!(log.range("q", ..).unwrap(), vec![(0, b"a".to_vec())]);
    assert_eq!(log.append_record("q", Some(3), b"c"), Err(AppendError::Future));
    log.append_record("q", None, b"d").unwrap();
    assert_eq!(log.append_record("q", Some(0), b"e"), Err(AppendError::Past));
    assert_eq!(
        log.append_record("nope", None, b"f"),
        Err(AppendError::MissingQueue("nope".to_string()))
    );
}

#[test]
fn create_queue_twice_fails() {
    let mut disk = Disk::default();
    let mut log = disk.open();
    log.create_queue("q").unwrap();
    disk.apply(&mut log);
    let mut log = disk.open();
    assert!(log.queue_exists("q"));
    assert_eq!(log.create_queue("q"), Err(CreateQueueError::AlreadyExists));
    assert_eq!(log.list_queues(), vec!["q".to_string()]);
}

fn make_long_entry(len: usize) -> Vec<u8> {
    let mut long_entry = Vec::new();
    for i in 0u32..(1u32 + (len as u32) / 4u32) {
        long_entry.extend_from_slice(&i.to_le_bytes());
    }
    long_entry.resize(len, 0u8);
    long_entry
}

#[test]
fn cross_block_record_survives_reopen() {
    let mut disk = Disk::default();
    let payload = make_long_entry(80_000);
    let mut log = disk.open();
    log.create_queue("q").unwrap();
    log.append_record("q", None, &payload).unwrap();
    disk.apply(&mut log);
    let log = disk.open();
    assert_eq!(log.range("q", ..).unwrap(), vec![(0, payload)]);
}

#[test]
fn block_boundary_padding_survives_reopen() {
    let mut disk = Disk::default();
    let payload = make_long_entry(32_768 - 7 - 7 - 1);
    let mut log = disk.open();
    log.create_queue("q").unwrap();
    log.append_record("q", None, &payload).unwrap();
    log.append_record("q", None, b"hello").unwrap();
    disk.apply(&mut log);
    let log = disk.open();
    assert_eq!(log.range("q", ..).unwrap(), vec![(0, payload), (1, b"hello".to_vec())]);
}

#[test]
fn acknowledged_appends_survive_reopen() {
    let mut disk = Disk::default();
    let mut expected: Vec<(u64, Vec<u8>)> = Vec::new();
    for round in 0..5u64 {
        let mut log = disk.open();
        if round == 0 {
            log.create_queue("q").unwrap();
        }
        for i in 0..(round + 2) {
            let payload = format!("record-{}-{}", round, i).into_bytes();
            let p = log.append_record("q", None, &payload).unwrap().unwrap();
            expected.push((p, payload));
            disk.apply(&mut log);
        }
        let reopened = disk.open();
        assert_eq!(reopened.range("q", ..).unwrap(), expected);
    }
}

#[test]
fn file_roll_and_gc() {
    let mut disk = Disk::default();
    let mut log = disk.open_with_limit(1 << 20);
    log.create_queue("q").unwrap();
    let payload = vec![42u8; 100_000];
    let mut last = 0;
    while disk.files.len() < 2 {
        last = log.append_record("q", None, &payload).unwrap().unwrap();
        disk.apply(&mut log);
    }
    let first = *disk.files.keys().next().unwrap();
    log.truncate("q", last).unwrap();
    disk.apply(&mut log);
    assert_eq!(disk.files.len(), 1);
    assert!(!disk.files.contains_key(&first));
    assert_eq!(log.num_files(), 1);
    let mut log = disk.open();
    assert_eq!(log.next_position("q"), Ok(last + 1));
    assert_eq!(log.append_record("q", None, b"after"), Ok(Some(last + 1)));
}

#[test]
fn multi_queue_isolation() {
    let mut disk = Disk::default();
    let mut log = disk.open_with_limit(1);
    log.create_queue("a").unwrap();
    log.create_queue("b").unwrap();
    for i in 0..5u8 {
        log.append_record("a", None, &[b'a', i]).unwrap();
        log.append_record("b", None, &[b'b', i]).unwrap();
    }
    disk.apply(&mut log);
    log.truncate("a", 3).unwrap();
    disk.apply(&mut log);
    assert_eq!(log.range("a", ..).unwrap(), vec![(4, vec![b'a', 4])]);
    let b: Vec<(u64, Vec<u8>)> = (0..5u8).map(|i| (i as u64, vec![b'b', i])).collect();
    assert_eq!(log.range("b", ..).unwrap(), b);
    let reopened = disk.open();
    assert_eq!(reopened.range("b", ..).unwrap(), b);
    assert_eq!(reopened.range("a", ..).unwrap(), vec![(4, vec![b'a', 4])]);
}

#[test]
fn truncate_errors() {
    let mut disk = Disk::default();
    let mut log = disk.open();
    log.create_queue("q").unwrap();
    log.append_record("q", None, b"x").unwrap();
    disk.apply(&mut log);
    assert_eq!(log.truncate("q", 1), Err(TruncateError::Future));
    assert_eq!(log.truncate("nope", 0), Err(TruncateError::MissingQueue("nope".to_string())));
    assert!(log.truncate("q", 0).is_ok());
    disk.apply(&mut log);
    let log = disk.open();
    assert_eq!(log.next_position("q"), Ok(1));
    assert!(log.range("q", ..).unwrap().is_empty());
}

#[test]
fn delete_queue_is_replayed() {
    let mut disk = Disk::default();
    let mut log = disk.open();
    log.create_queue("a").unwrap();
    log.create_queue("b").unwrap();
    log.append_record("a", None, b"x").unwrap();
    log.delete_queue("a").unwrap();
    assert!(log.delete_queue("a").is_err());
    disk.apply(&mut log);
    let log = disk.open();
    assert!(!log.queue_exists("a"));
    assert!(log.queue_exists("b"));
}

#[test]
fn torn_tail_reopens_cleanly() {
    let mut disk = Disk::default();
    let mut log = disk.open();
    log.create_queue("q").unwrap();
    disk.apply(&mut log);
    let mut sizes = Vec::new();
    for i in 0..40u32 {
        log.append_record("q", None, &make_long_entry(900 + 13 * i as usize)).unwrap();
        disk.apply(&mut log);
        sizes.push(disk.files.values().next().unwrap().len());
    }
    let full = disk.files.values().next().unwrap().clone();
    for cut in [0usize, 3, 20, 1000, 5000, 32_767, 32_768, 40_000, full.len() - 1] {
        let mut torn = disk.clone();
        *torn.files.values_mut().next().unwrap() = full[..cut].to_vec();
        let log = torn.open();
        let complete = sizes.iter().filter(|&&s| s <= cut).count();
        let records = log.range("q", ..);
        match records {
            Ok(records) => {
                assert_eq!(records.len(), complete);
                for (i, (p, payload)) in records.iter().enumerate() {
                    assert_eq!(*p, i as u64);
                    assert_eq!(payload, &make_long_entry(900 + 13 * i));
                }
            }
            Err(_) => assert_eq!(complete, 0),
        }
    }
}

#[test]
fn flipped_byte_loses_at_most_its_block() {
    let mut disk = Disk::default();
    let mut log = disk.open();
    log.create_queue("q").unwrap();
    for i in 0..3000u32 {
        log.append_record("q", None, &i.to_le_bytes()).unwrap();
    }
    disk.apply(&mut log);
    let mut damaged = disk.clone();
    damaged.files.values_mut().next().unwrap()[40_000] ^= 0x55;
    let log = damaged.open();
    let records = log.range("q", ..).unwrap();
    // Records of the first block are all there; so are those after the damaged block.
    assert_eq!(records[0], (0, 0u32.to_le_bytes().to_vec()));
    assert!(records.len() < 3000);
    assert!(records.len() > 3000 - 32_768 / 20);
}

#[test]
fn log_record_round_trip() {
    let records = vec![
        Record::AppendRecord { position: 5, queue: "q".to_string(), payload: b"xyz".to_vec() },
        Record::Truncate { position: u64::MAX, queue: "é".to_string() },
        Record::Touch { position: 0, queue: String::new() },
        Record::DeleteQueue { position: 9, queue: "queue".to_string() },
    ];
    for record in records {
        let mut buffer = Vec::new();
        record.serialize(&mut buffer);
        assert_eq!(Record::deserialize(&buffer), Some(record));
    }
    let mut buffer = Vec::new();
    Record::Touch { position: 0x0102, queue: "ab".to_string() }.serialize(&mut buffer);
    assert_eq!(buffer, vec![2, 2, 1, 0, 0, 0, 0, 0, 0, 2, 0, b'a', b'b']);
    assert_eq!(Record::deserialize(&buffer[..10]), None);
    buffer[0] = 4;
    assert_eq!(Record::deserialize(&buffer), None);
    let mut bad_name = vec![0u8, 0, 0, 0, 0, 0, 0, 0, 0, 1, 0, 0xff];
    assert_eq!(Record::deserialize(&bad_name), None);
    bad_name[11] = b'z';
    assert!(Record::deserialize(&bad_name).is_some());
}

#[test]
fn test_record_type_serialize() {
    let mut num_record_types = 0;
    for code in 0u8..=255u8 {
        if let Some(record_type) = RecordType::from_code(code) {
            assert_eq!(record_type.code(), code);
            num_record_types += 1;
        }
    }
    assert_eq!(num_record_types, 4);
}

#[test]
fn open_errors() {
    let names = vec!["wal-00000000000000000001".to_string()];
    let replay = LogReplay::new(Directory::open(&names));
    assert_eq!(replay.into_log(FILE_SIZE_LIMIT).err(), Some(mrecordlog::OpenError::UnreadFiles));
    let names = vec!["wal-00000000004294967295".to_string()];
    let mut replay = LogReplay::new(Directory::open(&names));
    assert!(replay.replay_file(Vec::new()));
    assert!(!replay.replay_file(Vec::new()));
    assert_eq!(
        replay.into_log(FILE_SIZE_LIMIT).err(),
        Some(mrecordlog::OpenError::NoFileNumberLeft)
    );
}

#[test]
fn directory_from_names() {
    let names: Vec<String> = vec![
        "wal-00000000000000000007".to_string(),
        "other".to_string(),
        "wal-00000000000000000002".to_string(),
        "wal-00000000000000000007".to_string(),
        "wal-0000000000000000003".to_string(),
    ];
    let mut directory = Directory::open(&names);
    assert_eq!(directory.first_last_files(), Some((2, 7)));
    assert_eq!(directory.num_files(), 2);
    assert_eq!(directory.new_file(), Some(FileNumber::new(8)));
    assert_eq!(directory.first_file_number(), Some(FileNumber::new(2)));
    assert_eq!(directory.last_file_number(), Some(FileNumber::new(8)));
    // Files below 8 are released, but the last file always stays.
    assert_eq!(directory.gc(Some(FileNumber::new(8))), vec![FileNumber::new(2), FileNumber::new(7)]);
    assert_eq!(directory.gc(None), vec![]);
    assert_eq!(directory.first_last_files(), Some((8, 8)));
    let mut empty = Directory::empty();
    assert_eq!(empty.first_last_files(), None);
    assert_eq!(empty.new_file(), Some(FileNumber::new(1)));
}
