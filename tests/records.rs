use mrecordlog::{ReadRecordError, RecordReader, RecordWriter, BLOCK_LEN, HEADER_LEN};

fn write_records(records: &[&[u8]]) -> Vec<u8> {
    let mut writer = RecordWriter::open();
    for record in records {
        writer.write_record(record);
    }
    writer.take_bytes()
}

#[test]
fn test_no_data() {
    let mut reader = RecordReader::open(Vec::new());
    assert_eq!(reader.read_record(), Ok(None));
}

#[test]
fn test_empty_record() {
    let buffer = write_records(&[b""]);
    let mut reader = RecordReader::open(buffer);
    assert_eq!(reader.read_record(), Ok(Some(Vec::new())));
    assert_eq!(reader.read_record(), Ok(None));
}

#[test]
fn test_simple_record() {
    let buffer = write_records(&[b"hello"]);
    let mut reader = RecordReader::open(buffer);
    assert_eq!(reader.read_record(), Ok(Some(b"hello".to_vec())));
    assert_eq!(reader.read_record(), Ok(None));
}

fn make_long_entry(len: usize) -> Vec<u8> {
    let mut long_entry = Vec::new();
    for i in 0u32..(1u32 + (len as u32) / 4u32) {
        long_entry.extend_from_slice(&i.to_le_bytes());
    }
    long_entry.resize(len, 0u8);
    long_entry
}

#[test]
fn test_spans_over_more_than_one_block() {
    let long_entry: Vec<u8> = make_long_entry(80_000);
    let buffer = write_records(&[&long_entry]);
    let mut reader = RecordReader::open(buffer);
    let record_payload = reader.read_record().unwrap().unwrap();
    assert_eq!(record_payload, long_entry);
    assert_eq!(reader.read_record(), Ok(None));
}

#[test]
fn test_block_requires_padding() {
    // We'll miss 1 byte to be able to fit our next chunk header in the
    // first block.
    let long_entry = make_long_entry(BLOCK_LEN - HEADER_LEN - HEADER_LEN - 1);
    let buffer = write_records(&[&long_entry, b"hello"]);
    let mut reader = RecordReader::open(buffer);
    assert_eq!(reader.read_record().unwrap(), Some(long_entry));
    assert_eq!(reader.read_record().unwrap(), Some(b"hello".to_vec()));
    assert_eq!(reader.read_record().unwrap(), None);
}

#[test]
fn test_first_chunk_empty() {
    let long_entry = make_long_entry(BLOCK_LEN - HEADER_LEN - HEADER_LEN);
    let buffer = write_records(&[&long_entry, b"hello"]);
    let mut reader = RecordReader::open(buffer);
    assert_eq!(reader.read_record().unwrap(), Some(long_entry));
    assert_eq!(reader.read_record().unwrap(), Some(b"hello".to_vec()));
    assert_eq!(reader.read_record().unwrap(), None);
}

#[test]
fn test_behavior_upon_corruption() {
    let records: Vec<String> = (0..1_000).map(|i| format!("hello{}", i)).collect();
    let payloads: Vec<&[u8]> = records.iter().map(|r| r.as_bytes()).collect();
    let mut buffer = write_records(&payloads);
    {
        let mut reader = RecordReader::open(buffer.clone());
        for record in &records {
            assert_eq!(reader.read_record().unwrap(), Some(record.as_bytes().to_vec()));
        }
        assert_eq!(reader.read_record().unwrap(), None);
    }
    buffer[1_000] = 3;
    {
        let mut reader = RecordReader::open(buffer);
        for record in &records[0..72] {
            assert_eq!(reader.read_record().unwrap(), Some(record.as_bytes().to_vec()));
        }
        assert!(matches!(reader.read_record(), Err(ReadRecordError::Corruption)));
    }
}

#[test]
fn corruption_costs_only_the_records_of_its_block() {
    let long_entry = make_long_entry(3 * BLOCK_LEN);
    let buffer_ok = write_records(&[b"a", &long_entry, b"b"]);
    // A record that straddles the corrupted block is lost, the others stay.
    let mut buffer = buffer_ok.clone();
    buffer[BLOCK_LEN + 100] ^= 0xff;
    let mut reader = RecordReader::open(buffer);
    assert_eq!(reader.read_record(), Ok(Some(b"a".to_vec())));
    assert_eq!(reader.read_record(), Err(ReadRecordError::Corruption));
    assert_eq!(reader.read_record(), Ok(Some(b"b".to_vec())));
    assert_eq!(reader.read_record(), Ok(None));
}

#[test]
fn torn_tail_keeps_complete_records() {
    let records: Vec<Vec<u8>> = (0..50u32).map(|i| make_long_entry(1000 + i as usize * 37)).collect();
    let payloads: Vec<&[u8]> = records.iter().map(|r| r.as_slice()).collect();
    let buffer = write_records(&payloads);
    let mut ends = Vec::new();
    {
        let mut writer = RecordWriter::open();
        let mut total = 0;
        for record in &records {
            writer.write_record(record);
            total += writer.take_bytes().len();
            ends.push(total);
        }
    }
    for cut in [0usize, 1, 6, 7, 500, 1007, 1008, 20_000, 33_000, buffer.len() - 1] {
        let mut reader = RecordReader::open(buffer[..cut].to_vec());
        let mut read = Vec::new();
        while let Ok(Some(r)) = reader.read_record() {
            read.push(r);
        }
        let complete = ends.iter().filter(|&&end| end <= cut).count();
        assert_eq!(read.len(), complete);
        assert_eq!(&read[..], &records[..complete]);
    }
}
