use mrecordlog::{FrameReader, FrameType, FrameWriter, ReadFrameError, BLOCK_LEN, HEADER_LEN};

fn write_frames(frames: &[(FrameType, &[u8])]) -> Vec<u8> {
    let mut frame_writer = FrameWriter::create_with_aligned_write();
    for (frame_type, payload) in frames {
        frame_writer.write_frame(*frame_type, payload);
    }
    frame_writer.take_bytes()
}

#[test]
fn test_frame_simple() {
    let wrt = write_frames(&[
        (FrameType::First, &b"abc"[..]),
        (FrameType::Middle, &b"de"[..]),
        (FrameType::Last, &b"fgh"[..]),
    ]);
    let mut frame_reader = FrameReader::open(wrt);
    assert_eq!(frame_reader.read_frame(), Ok((FrameType::First, b"abc".to_vec())));
    assert_eq!(frame_reader.read_frame(), Ok((FrameType::Middle, b"de".to_vec())));
    assert_eq!(frame_reader.read_frame(), Ok((FrameType::Last, b"fgh".to_vec())));
    assert_eq!(frame_reader.read_frame(), Err(ReadFrameError::NotAvailable));
}

#[test]
fn test_frame_partial() {
    let mut wrt = write_frames(&[(FrameType::First, &b"abc"[..])]);
    assert_eq!(wrt.len(), HEADER_LEN + 3);
    wrt.truncate(HEADER_LEN + 2);
    let mut frame_reader = FrameReader::open(wrt);
    assert_eq!(frame_reader.read_frame(), Err(ReadFrameError::NotAvailable));
}

#[test]
fn test_frame_corruption_in_payload() {
    let mut wrt = write_frames(&[(FrameType::First, &b"abc"[..])]);
    wrt.extend(write_frames(&[(FrameType::Middle, &b"de"[..])]));
    wrt[8] = 0u8;
    let mut frame_reader = FrameReader::open(wrt);
    assert_eq!(frame_reader.read_frame(), Err(ReadFrameError::Corruption));
    // The rest of the corrupted block is dropped.
    assert_eq!(frame_reader.read_frame(), Err(ReadFrameError::NotAvailable));
}

fn repeat_empty_frame_util(repeat: usize) -> Vec<u8> {
    let mut frame_writer = FrameWriter::create_with_aligned_write();
    for _ in 0..repeat {
        frame_writer.write_frame(FrameType::Full, &b""[..]);
    }
    frame_writer.take_bytes()
}

#[test]
fn test_simple_multiple_blocks() {
    let num_frames = 1 + BLOCK_LEN / HEADER_LEN;
    let buffer = repeat_empty_frame_util(num_frames);
    assert_eq!(buffer.len(), BLOCK_LEN + HEADER_LEN);
    let mut frame_reader = FrameReader::open(buffer);
    for _ in 0..num_frames {
        assert_eq!(frame_reader.read_frame(), Ok((FrameType::Full, vec![])));
    }
    assert_eq!(frame_reader.read_frame(), Err(ReadFrameError::NotAvailable));
}

#[test]
fn test_multiple_blocks_corruption_on_length() {
    // We end up with 4681 frames on the first block.
    // 1 frame on the second block
    let num_frames = 1 + BLOCK_LEN / HEADER_LEN;
    let mut buffer = repeat_empty_frame_util(num_frames);
    buffer[2000 * HEADER_LEN + 5] = 255u8;
    assert_eq!(buffer.len(), BLOCK_LEN + HEADER_LEN);
    let mut frame_reader = FrameReader::open(buffer);
    for _ in 0..2000 {
        assert_eq!(frame_reader.read_frame(), Ok((FrameType::Full, vec![])));
    }
    assert_eq!(frame_reader.read_frame(), Err(ReadFrameError::Corruption));
    assert_eq!(frame_reader.read_frame(), Ok((FrameType::Full, vec![])));
    assert_eq!(frame_reader.read_frame(), Err(ReadFrameError::NotAvailable));
}

#[test]
fn frame_header_layout() {
    let bytes = write_frames(&[(FrameType::Full, &b"hello"[..])]);
    // CRC-32 (IEEE) of "hello" is 0x3610a686.
    assert_eq!(&bytes[..4], &[0x86, 0xa6, 0x10, 0x36]);
    assert_eq!(&bytes[4..6], &[5, 0]);
    assert_eq!(bytes[6], 1);
    assert_eq!(&bytes[7..], b"hello");
}

#[test]
fn frame_type_byte_zero_is_corruption() {
    let mut frame_reader = FrameReader::open(vec![0u8; 20]);
    assert_eq!(frame_reader.read_frame(), Err(ReadFrameError::Corruption));
    assert_eq!(frame_reader.read_frame(), Err(ReadFrameError::NotAvailable));
}

#[test]
fn frame_writer_fills_block_exactly() {
    let mut frame_writer = FrameWriter::create_with_aligned_write();
    let payload = vec![7u8; BLOCK_LEN - HEADER_LEN - HEADER_LEN];
    frame_writer.write_frame(FrameType::Full, &payload);
    assert_eq!(frame_writer.max_writable_frame_length(), 0);
    frame_writer.write_frame(FrameType::Full, &b""[..]);
    assert_eq!(frame_writer.max_writable_frame_length(), BLOCK_LEN - HEADER_LEN);
    frame_writer.write_frame(FrameType::Full, &b"x"[..]);
    let bytes = frame_writer.take_bytes();
    assert_eq!(bytes.len(), BLOCK_LEN + HEADER_LEN + 1);
    let mut frame_reader = FrameReader::open(bytes);
    assert_eq!(frame_reader.read_frame(), Ok((FrameType::Full, payload)));
    assert_eq!(frame_reader.read_frame(), Ok((FrameType::Full, vec![])));
    assert_eq!(frame_reader.read_frame(), Ok((FrameType::Full, b"x".to_vec())));
}

#[test]
fn frame_writer_pads_short_block_end() {
    let mut frame_writer = FrameWriter::create_with_aligned_write();
    let payload = vec![7u8; BLOCK_LEN - HEADER_LEN - 3];
    frame_writer.write_frame(FrameType::Full, &payload);
    assert_eq!(frame_writer.max_writable_frame_length(), BLOCK_LEN - HEADER_LEN);
    frame_writer.write_frame(FrameType::Full, &b"x"[..]);
    let bytes = frame_writer.take_bytes();
    assert_eq!(bytes.len(), BLOCK_LEN + HEADER_LEN + 1);
    assert_eq!(&bytes[BLOCK_LEN - 3..BLOCK_LEN], &[0u8, 0, 0]);
    let mut frame_reader = FrameReader::open(bytes);
    assert_eq!(frame_reader.read_frame(), Ok((FrameType::Full, payload)));
    assert_eq!(frame_reader.read_frame(), Ok((FrameType::Full, b"x".to_vec())));
    assert_eq!(frame_reader.read_frame(), Err(ReadFrameError::NotAvailable));
}

#[test]
fn frame_writer_append_to_pads_to_block() {
    let frame_writer = FrameWriter::append_to(10);
    assert_eq!(frame_writer.num_bytes_written(), (BLOCK_LEN - 10) as u64);
    let mut frame_writer = FrameWriter::append_to(2 * BLOCK_LEN as u64);
    assert!(frame_writer.take_bytes().is_empty());
}
