use cacti::bit_reader::BitReader;
use cacti::error::ArchiveError;

#[test]
fn bit_reader_test_bit_reader() -> Result<(), ArchiveError> {
    let bytes = [0b10110101, 0b01110110, 0b00101011, 0b11000101];
    let bytes: &[u8] = &bytes;
    let mut r = BitReader::new(bytes);
    r.skip_to_byte(); // Must be no-op
    assert_eq!(r.read_bit()?, 1);
    assert_eq!(r.read_bit()?, 0);
    assert_eq!(r.read_to_u8(4)?, 0b1101);
    assert_eq!(r.read_to_u8(5)?, 0b11010);
    assert_eq!(r.read_to_u8(4)?, 0b1110);
    r.skip_to_byte(); // Must be no-op
    assert_eq!(r.read_to_u8(3)?, 0b011);
    r.skip_to_byte();
    assert_eq!(r.read_to_u8(4)?, 0b0101);
    Ok(())
}

#[test]
fn lib_test_bit_reader() -> Result<(), ArchiveError> {
    let bytes = [0b10110101, 0b01110110, 0b00101011, 0b11000101];
    let bytes: &[u8] = &bytes;
    let mut r = BitReader::new(bytes);
    r.skip_to_byte(); // Must be no-op
    assert_eq!(r.read_bit()?, 1);
    assert_eq!(r.read_bit()?, 0);
    assert_eq!(r.read_to_u8(4)?, 0b1101);
    assert_eq!(r.read_to_u8(5)?, 0b11010);
    assert_eq!(r.read_to_u8(4)?, 0b1110);
    r.skip_to_byte(); // Must be no-op
    assert_eq!(r.read_to_u8(3)?, 0b011);
    r.skip_to_byte();
    assert_eq!(r.read_to_u8(4)?, 0b0101);
    Ok(())
}

#[test]
fn bit_reader_reads_past_end_fail_and_leave_position() {
    let bytes = [0xffu8];
    let mut r = BitReader::new(&bytes);
    assert_eq!(r.read_to_u8(6), Ok(0b111111));
    assert_eq!(r.read_to_u8(3), Err(ArchiveError::UnexpectedEof));
    assert_eq!(r.position(), 6);
    assert_eq!(r.read_to_u16(2), Ok(0b11));
    assert_eq!(r.read_bit(), Err(ArchiveError::UnexpectedEof));
}

#[test]
fn bit_reader_peeks_zeros_past_end() {
    let bytes = [0b1010_0001u8];
    let mut r = BitReader::new(&bytes);
    assert_eq!(r.peek_to_u8(8), Ok(0b1010_0001));
    assert_eq!(r.peek_to_u16(12), Ok(0b1010_0001));
    assert_eq!(r.peek_bit(7), Ok(1));
    assert_eq!(r.peek_bit(9), Ok(0));
    assert_eq!(r.position(), 0);
}

#[test]
fn bit_reader_aligned_reads() {
    let bytes = [0xabu8, 0x34, 0x12, 0x77, 0x88, 0x99];
    let mut r = BitReader::new(&bytes);
    assert_eq!(r.read_bit(), Ok(1));
    assert_eq!(r.read_aligned_le_u16(), Ok(0x1234));
    assert_eq!(r.read_aligned_u8(), Ok(0x77));
    let mut buf = [0u8; 2];
    assert_eq!(r.read_aligned_to_buffer(&mut buf), Ok(()));
    assert_eq!(buf, [0x88, 0x99]);
    let mut more = [5u8; 1];
    assert_eq!(r.read_aligned_to_buffer(&mut more), Err(ArchiveError::UnexpectedEof));
    assert_eq!(more, [5]);
}

#[test]
fn bit_reader_consume_and_skip() {
    let bytes = [0u8, 0b0000_0110];
    let mut r = BitReader::new(&bytes);
    r.consume_bits(3);
    assert_eq!(r.position(), 3);
    r.skip_to_byte();
    assert_eq!(r.position(), 8);
    r.skip_to_byte();
    assert_eq!(r.position(), 8);
    assert_eq!(r.read_to_u8(3), Ok(0b110));
    assert_eq!(r.bit_len(), 16);
}
