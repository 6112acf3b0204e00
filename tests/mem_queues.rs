use mrecordlog::{AlreadyExists, AppendError, MemQueue, MemQueues, MissingQueue, Truncation};

#[test]
fn test_mem_queues_already_exists() {
    let mut mem_queues = MemQueues::default();
    mem_queues.create_queue("droopy").unwrap();
    assert!(matches!(
        mem_queues.create_queue("droopy"),
        Err(AlreadyExists)
    ));
}

#[test]
fn test_mem_queues() {
    let mut mem_queues = MemQueues::default();
    mem_queues.create_queue("droopy").unwrap();
    mem_queues.create_queue("fable").unwrap();
    assert!(mem_queues
        .append_record("droopy", 1.into(), Some(0), b"hello")
        .is_ok());
    assert!(mem_queues
        .append_record("droopy", 1.into(), Some(1), b"happy")
        .is_ok());
    assert!(mem_queues
        .append_record("fable", 1.into(), Some(0), b"maitre")
        .is_ok());
    assert!(mem_queues
        .append_record("fable", 1.into(), Some(1), b"corbeau")
        .is_ok());
    assert!(mem_queues
        .append_record("droopy", 1.into(), Some(2), b"tax")
        .is_ok());
    assert!(mem_queues
        .append_record("droopy", 1.into(), Some(3), b"payer")
        .is_ok());
    assert_eq!(
        mem_queues.range("droopy", 0..).unwrap().into_iter().next(),
        Some((0, b"hello".to_vec()))
    );
    let droopy: Vec<(u64, Vec<u8>)> = mem_queues.range("droopy", 1..).unwrap();
    assert_eq!(
        &droopy,
        &[(1, b"happy".to_vec()), (2, b"tax".to_vec()), (3, b"payer".to_vec())],
    );
    let fable: Vec<(u64, Vec<u8>)> = mem_queues.range("fable", 1..).unwrap();
    assert_eq!(&fable, &[(1, b"corbeau".to_vec())]);
}

#[test]
fn test_mem_queues_truncate() {
    let mut mem_queues = MemQueues::default();
    mem_queues.create_queue("droopy").unwrap();
    assert!(mem_queues
        .append_record("droopy", 1.into(), Some(0), b"hello")
        .is_ok());
    assert!(mem_queues
        .append_record("droopy", 1.into(), Some(1), b"happy")
        .is_ok());
    assert!(mem_queues
        .append_record("droopy", 1.into(), Some(2), b"tax")
        .is_ok());
    assert!(mem_queues
        .append_record("droopy", 1.into(), Some(3), b"payer")
        .is_ok());
    assert!(mem_queues
        .append_record("droopy", 1.into(), Some(4), b"!")
        .is_ok());
    mem_queues
        .append_record("droopy", 1.into(), Some(5), b"payer")
        .unwrap();
    assert_eq!(mem_queues.truncate("droopy", 3), Ok(Truncation::NoTruncation));
    let droopy: Vec<(u64, Vec<u8>)> = mem_queues.range("droopy", 0..).unwrap();
    assert_eq!(&droopy[..], &[(4, b"!".to_vec()), (5, b"payer".to_vec()),]);
}

#[test]
fn test_mem_queues_skip_yield_error() {
    let mut mem_queues = MemQueues::default();
    mem_queues.create_queue("droopy").unwrap();
    assert!(mem_queues
        .append_record("droopy", 1.into(), Some(0), b"hello")
        .is_ok());
    assert!(matches!(
        mem_queues.append_record("droopy", 1.into(), Some(2), b"happy"),
        Err(AppendError::Future)
    ));
    assert!(matches!(
        mem_queues.append_record("droopy", 1.into(), Some(3), b"happy"),
        Err(AppendError::Future)
    ));
    assert!(mem_queues
        .append_record("droopy", 1.into(), Some(1), b"happy")
        .is_ok());
    let droopy: Vec<(u64, Vec<u8>)> = mem_queues.range("droopy", 0..).unwrap();
    assert_eq!(&droopy[..], &[(0, b"hello".to_vec()), (1, b"happy".to_vec())]);
}

#[test]
fn test_mem_queues_append_in_the_past_yield_error() {
    let mut mem_queues = MemQueues::default();
    mem_queues.create_queue("droopy").unwrap();
    assert!(mem_queues
        .append_record("droopy", 1.into(), Some(0), b"hello")
        .is_ok());
    assert!(mem_queues
        .append_record("droopy", 1.into(), Some(1), b"happy")
        .is_ok());
    assert!(matches!(
        mem_queues.append_record("droopy", 1.into(), Some(0), b"happy"),
        Err(AppendError::Past)
    ));
}

#[test]
fn test_mem_queues_append_nilpotence() {
    let mut mem_queues = MemQueues::default();
    mem_queues.create_queue("droopy").unwrap();
    assert!(mem_queues
        .append_record("droopy", 1.into(), Some(0), b"hello")
        .is_ok());
    assert!(mem_queues
        .append_record("droopy", 1.into(), Some(0), b"different")
        .is_ok()); //< the string is different
                   // Right now there are no checks, on the string being equal.
    let droopy: Vec<(u64, Vec<u8>)> = mem_queues.range("droopy", 0..).unwrap();
    assert_eq!(&droopy, &[(0, b"hello".to_vec())]);
}

#[test]
fn test_mem_queues_non_zero_first_el() {
    let mut mem_queues = MemQueues::default();
    mem_queues.create_queue("droopy").unwrap();
    assert!(mem_queues
        .append_record("droopy", 1.into(), Some(5), b"hello")
        .is_ok());
    let droopy: Vec<(u64, Vec<u8>)> = mem_queues.range("droopy", 0..).unwrap();
    assert_eq!(droopy, &[(5, b"hello".to_vec())]);
}

#[test]
fn test_mem_queues_no_target_position() {
    let mut mem_queues = MemQueues::default();
    mem_queues.create_queue("droopy").unwrap();
    assert!(mem_queues
        .append_record("droopy", 1.into(), Some(5), b"hello")
        .is_ok());
    assert!(mem_queues
        .append_record("droopy", 1.into(), None, b"happy")
        .is_ok());
    assert!(mem_queues
        .append_record("droopy", 1.into(), None, b"tax")
        .is_ok());
    let droopy: Vec<(u64, Vec<u8>)> = mem_queues.range("droopy", 5..).unwrap();
    assert_eq!(
        &droopy[..],
        &[(5, b"hello".to_vec()), (6, b"happy".to_vec()), (7, b"tax".to_vec())]
    );
}

#[test]
fn mem_queues_missing_queue_errors() {
    let mut mem_queues = MemQueues::default();
    assert_eq!(
        mem_queues.append_record("nope", 1.into(), None, b"x"),
        Err(AppendError::MissingQueue("nope".to_string()))
    );
    assert_eq!(mem_queues.next_position("nope"), Err(MissingQueue("nope".to_string())));
    assert_eq!(mem_queues.truncate("nope", 3), Err(MissingQueue("nope".to_string())));
    assert!(mem_queues.range("nope", ..).is_err());
    assert_eq!(mem_queues.delete_queue("nope"), Err(MissingQueue("nope".to_string())));
}

#[test]
fn mem_queues_idempotent_append_keeps_state() {
    let mut mem_queues = MemQueues::default();
    mem_queues.create_queue("q").unwrap();
    assert_eq!(mem_queues.append_record("q", 1.into(), Some(0), b"a"), Ok(Some(0)));
    assert_eq!(mem_queues.append_record("q", 1.into(), Some(0), b"b"), Ok(None));
    assert_eq!(mem_queues.range("q", ..).unwrap(), vec![(0, b"a".to_vec())]);
    assert_eq!(mem_queues.next_position("q"), Ok(1));
}

#[test]
fn mem_queues_truncation_releases_files() {
    let mut mem_queues = MemQueues::default();
    mem_queues.create_queue("a").unwrap();
    mem_queues.create_queue("b").unwrap();
    mem_queues.append_record("a", 1.into(), None, b"a0").unwrap();
    mem_queues.append_record("b", 2.into(), None, b"b0").unwrap();
    mem_queues.append_record("a", 3.into(), None, b"a1").unwrap();
    assert_eq!(mem_queues.first_retained_file_number(), Some(1.into()));
    // File 1 is released; the least retained file is now 2, held by "b".
    assert_eq!(mem_queues.truncate("a", 0), Ok(Truncation::RemoveFiles(2.into())));
    assert_eq!(mem_queues.truncate("b", 0), Ok(Truncation::RemoveFiles(3.into())));
    assert_eq!(mem_queues.truncate("a", 1), Ok(Truncation::RemoveAllFiles));
    assert_eq!(mem_queues.first_retained_file_number(), None);
    let mut empties = mem_queues.empty_queue_positions();
    empties.sort();
    assert_eq!(empties, vec![("a".to_string(), 2), ("b".to_string(), 1)]);
}

#[test]
fn mem_queues_touch_and_delete() {
    let mut mem_queues = MemQueues::default();
    assert!(mem_queues.touch("q", 7).is_ok());
    assert_eq!(mem_queues.next_position("q"), Ok(7));
    assert!(mem_queues.touch("q", 7).is_ok());
    assert!(mem_queues.touch("q", 8).is_err());
    assert!(mem_queues.contains_queue("q"));
    assert_eq!(mem_queues.list_queues(), vec!["q".to_string()]);
    assert!(mem_queues.delete_queue("q").is_ok());
    assert!(!mem_queues.contains_queue("q"));
}

#[test]
fn mem_queue_truncate_everything_keeps_next_position() {
    let mut queue = MemQueue::with_next_position(10);
    assert_eq!(queue.append_record(1.into(), None, b"x"), Ok(Some(10)));
    assert_eq!(queue.append_record(1.into(), None, b"y"), Ok(Some(11)));
    assert_eq!(queue.first_retained_position(), Some(1.into()));
    queue.truncate(50);
    assert!(queue.is_empty());
    assert_eq!(queue.next_position(), 12);
    assert_eq!(queue.append_record(2.into(), None, b"z"), Ok(Some(12)));
    assert_eq!(queue.range(12..13), vec![(12, b"z".to_vec())]);
    assert_eq!(queue.range(0..12), vec![]);
}
