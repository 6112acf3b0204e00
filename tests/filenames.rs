use mrecordlog::{filename_to_position, FileNumber};

#[test]
fn test_filename_to_seq_number_invalid_prefix_rejected() {
    assert_eq!(filename_to_position("fil-00000000000000000001"), None);
}

#[test]
fn test_filename_to_seq_number_invalid_padding_rejected() {
    assert_eq!(filename_to_position("wal-0000000000000000001"), None);
}

#[test]
fn test_filename_to_seq_number_invalid_len_rejected() {
    assert_eq!(filename_to_position("wal-000000000000000000011"), None);
}

#[test]
fn test_filename_to_seq_number_simple() {
    assert_eq!(filename_to_position("wal-00000000000000000001"), Some(1));
}

#[test]
fn test_filename_to_seq_number() {
    assert_eq!(filename_to_position("wal-00000000000000000001"), Some(1));
}

#[test]
fn filename_rejects_values_beyond_u32() {
    assert_eq!(filename_to_position("wal-00000000004294967295"), Some(u32::MAX));
    assert_eq!(filename_to_position("wal-00000000004294967296"), None);
    assert_eq!(filename_to_position("wal-99999999999999999999"), None);
    assert_eq!(filename_to_position("wal-0000000000000000000a"), None);
}

#[test]
fn filename_of_file_number() {
    assert_eq!(FileNumber::new(1).filename(), "wal-00000000000000000001");
    assert_eq!(FileNumber::new(4294967295).filename(), "wal-00000000004294967295");
    let name = FileNumber::new(1234).filename();
    assert_eq!(filename_to_position(&name), Some(1234));
}

#[test]
fn file_number_inc() {
    assert_eq!(FileNumber::new(3).inc(), Some(FileNumber::new(4)));
    assert_eq!(FileNumber::new(u32::MAX).inc(), None);
    assert_eq!(FileNumber::for_test(9).file_number(), 9);
}
