use cacti::crc32::{crc32_of, Crc32};
use cacti::error::ArchiveError;
use cacti::text::decode_cp437;
use cacti::zip::{decode_ms_dos_datetime, ByteReader, Compression, ZipArchive};

/// A zip archive of a stored file, a directory, a DEFLATE-compressed file and
/// a file with a UTF-8 name. The central directory starts at 1591, its file
/// headers at 1591, 1646, 1696 and 1755; the end of central directory record
/// is at 1810.
const ARCHIVE: [u8; 1847] = [
    80, 75, 3, 4, 20, 0, 0, 0, 0, 0, 197, 99, 207, 80, 214, 155, 56, 214, 12, 0,
    0, 0, 12, 0, 0, 0, 9, 0, 0, 0, 104, 101, 108, 108, 111, 46, 116, 120, 116, 72,
    101, 108, 108, 111, 44, 32, 122, 105, 112, 33, 10, 80, 75, 3, 4, 20, 0, 0, 0, 0,
    0, 131, 24, 34, 82, 0, 0, 0, 0, 0, 0, 0, 0, 0, 0, 0, 0, 4, 0, 0,
    0, 100, 105, 114, 47, 80, 75, 3, 4, 20, 0, 0, 0, 8, 0, 125, 191, 159, 39, 180,
    46, 239, 197, 135, 5, 0, 0, 10, 31, 0, 0, 13, 0, 0, 0, 100, 105, 114, 47, 108,
    105, 110, 101, 115, 46, 116, 120, 116, 109, 153, 73, 142, 100, 55, 12, 68, 247, 125, 138, 60,
    194, 23, 53, 210, 183, 241, 162, 128, 110, 160, 224, 141, 187, 125, 126, 219, 40, 70, 36, 160,
    215, 219, 175, 212, 192, 16, 135, 39, 230, 231, 143, 191, 62, 94, 207, 31, 175, 159, 223, 63,
    94, 255, 252, 249, 249, 235, 227, 245, 227, 239, 215, 243, 237, 243, 255, 207, 237, 250, 220, 190,
    62, 199, 245, 121, 124, 125, 238, 215, 231, 252, 250, 60, 238, 69, 214, 215, 247, 121, 125, 143,
    249, 245, 125, 93, 223, 123, 253, 126, 223, 187, 214, 250, 231, 250, 190, 234, 56, 121, 125, 63,
    117, 250, 118, 27, 219, 30, 153, 11, 123, 67, 115, 110, 147, 219, 168, 93, 90, 135, 121, 117,
    174, 6, 195, 179, 44, 105, 48, 93, 182, 183, 5, 81, 52, 231, 54, 63, 142, 246, 185, 5,
    232, 161, 179, 37, 164, 212, 13, 222, 26, 12, 105, 16, 183, 6, 99, 104, 14, 174, 253, 212,
    62, 113, 107, 48, 163, 206, 22, 183, 6, 115, 151, 61, 113, 107, 176, 164, 65, 220, 26, 44,
    207, 185, 53, 216, 222, 231, 214, 96, 251, 108, 112, 3, 217, 211, 111, 13, 82, 26, 244, 91,
    131, 148, 110, 29, 26, 236, 26, 128, 27, 180, 168, 17, 184, 193, 174, 67, 119, 184, 193, 56,
    53, 130, 24, 104, 154, 115, 75, 208, 83, 251, 220, 18, 140, 165, 179, 221, 18, 76, 57, 239,
    120, 112, 9, 189, 70, 110, 9, 246, 163, 57, 1, 169, 107, 159, 113, 107, 112, 118, 157, 109,
    220, 26, 228, 84, 114, 184, 53, 216, 165, 244, 88, 136, 43, 45, 134, 72, 152, 229, 57, 3,
    145, 48, 235, 70, 71, 194, 171, 235, 208, 243, 129, 56, 202, 79, 13, 137, 69, 115, 32, 129,
    246, 153, 144, 64, 103, 155, 144, 64, 246, 204, 91, 130, 44, 165, 39, 146, 193, 163, 197, 224,
    5, 173, 60, 103, 194, 11, 122, 221, 232, 132, 23, 232, 208, 11, 94, 160, 20, 182, 224, 5,
    169, 57, 183, 4, 217, 106, 159, 117, 75, 160, 216, 89, 8, 132, 83, 135, 94, 19, 230, 148,
    210, 107, 225, 222, 52, 231, 150, 96, 42, 191, 47, 228, 2, 85, 156, 133, 92, 48, 235, 208,
    27, 53, 161, 148, 222, 40, 9, 74, 200, 251, 86, 32, 178, 84, 219, 29, 135, 174, 27, 221,
    72, 135, 89, 135, 222, 136, 131, 81, 74, 239, 91, 130, 227, 57, 27, 137, 178, 6, 14, 234,
    75, 249, 218, 70, 69, 80, 50, 58, 136, 131, 94, 74, 31, 196, 129, 12, 61, 183, 4, 71,
    62, 125, 80, 17, 202, 154, 115, 43, 16, 186, 234, 3, 39, 56, 165, 244, 89, 240, 92, 205,
    65, 65, 232, 218, 231, 32, 185, 215, 141, 158, 68, 249, 175, 145, 124, 80, 98, 133, 18, 40,
    138, 75, 115, 2, 73, 162, 100, 75, 164, 2, 69, 98, 14, 196, 104, 13, 160, 32, 244, 210,
    51, 17, 7, 74, 212, 9, 39, 144, 183, 231, 1, 0, 149, 227, 36, 188, 192, 104, 4, 9,
    36, 104, 123, 160, 193, 123, 22, 68, 232, 34, 144, 135, 42, 8, 91, 158, 1, 191, 210, 8,
    116, 216, 71, 67, 16, 194, 24, 244, 192, 25, 158, 208, 16, 188, 65, 94, 215, 30, 184, 131,
    156, 171, 1, 20, 187, 64, 164, 129, 20, 103, 122, 22, 130, 34, 140, 151, 72, 141, 50, 11,
    172, 24, 41, 34, 4, 44, 78, 227, 29, 104, 113, 79, 207, 218, 224, 17, 141, 32, 57, 12,
    91, 133, 42, 121, 186, 248, 247, 1, 122, 73, 220, 32, 45, 121, 22, 114, 164, 128, 173, 129,
    25, 199, 150, 89, 128, 198, 253, 198, 112, 212, 202, 45, 113, 129, 141, 97, 68, 15, 62, 29,
    116, 91, 4, 199, 105, 187, 16, 37, 26, 1, 57, 134, 82, 114, 3, 58, 78, 175, 7, 118,
    60, 42, 50, 141, 244, 248, 72, 66, 224, 99, 183, 197, 224, 199, 229, 216, 2, 64, 102, 243,
    44, 224, 211, 163, 251, 39, 66, 250, 205, 4, 134, 220, 83, 190, 75, 136, 212, 86, 128, 200,
    46, 246, 110, 160, 200, 101, 175, 6, 70, 230, 227, 23, 21, 171, 135, 135, 16, 38, 143, 15,
    136, 48, 73, 207, 98, 152, 232, 78, 0, 147, 195, 18, 130, 38, 247, 35, 127, 154, 116, 13,
    141, 64, 12, 167, 214, 201, 252, 169, 235, 7, 80, 166, 202, 114, 3, 81, 134, 211, 9, 144,
    114, 110, 31, 16, 56, 113, 60, 11, 158, 225, 59, 1, 86, 78, 187, 218, 36, 84, 201, 159,
    0, 150, 45, 181, 23, 200, 114, 250, 38, 129, 150, 103, 40, 132, 192, 150, 77, 60, 218, 64,
    151, 211, 41, 30, 120, 121, 156, 241, 22, 17, 219, 11, 2, 48, 125, 41, 32, 204, 99, 229,
    129, 152, 17, 26, 2, 99, 78, 241, 90, 3, 101, 166, 157, 151, 152, 233, 60, 185, 73, 218,
    210, 112, 243, 181, 225, 62, 2, 56, 203, 30, 5, 212, 92, 46, 174, 100, 77, 197, 9, 96,
    115, 184, 222, 129, 54, 183, 221, 240, 16, 184, 221, 206, 128, 107, 120, 65, 2, 167, 11, 20,
    136, 51, 244, 146, 108, 96, 206, 101, 139, 9, 157, 222, 10, 160, 241, 120, 61, 128, 134, 175,
    4, 216, 217, 244, 4, 110, 135, 175, 112, 89, 12, 240, 76, 59, 77, 50, 107, 104, 65, 160,
    231, 118, 238, 2, 123, 54, 225, 98, 75, 198, 137, 76, 6, 126, 30, 231, 201, 100, 67, 194,
    11, 18, 187, 228, 106, 32, 208, 246, 238, 76, 65, 141, 112, 107, 138, 106, 168, 55, 245, 176,
    160, 168, 205, 3, 6, 221, 122, 173, 7, 24, 244, 191, 24, 208, 16, 212, 56, 161, 161, 137,
    150, 159, 70, 8, 227, 94, 111, 3, 119, 143, 134, 192, 93, 110, 107, 129, 65, 87, 118, 117,
    227, 16, 39, 93, 123, 145, 65, 149, 120, 3, 12, 42, 163, 64, 160, 35, 164, 18, 16, 244,
    76, 25, 220, 24, 37, 222, 9, 181, 181, 123, 65, 212, 214, 183, 85, 232, 217, 202, 225, 3,
    12, 170, 242, 20, 64, 208, 233, 179, 255, 6, 65, 61, 11, 29, 59, 189, 77, 34, 216, 175,
    82, 59, 17, 8, 218, 135, 135, 240, 82, 79, 239, 133, 106, 162, 232, 143, 223, 180, 46, 117,
    143, 64, 208, 16, 252, 5, 16, 116, 137, 173, 2, 12, 218, 84, 37, 3, 12, 186, 188, 32,
    25, 84, 102, 1, 65, 167, 175, 31, 8, 234, 160, 3, 129, 206, 230, 157, 224, 24, 26, 0,
    140, 31, 219, 132, 103, 154, 222, 51, 1, 254, 28, 30, 2, 127, 166, 111, 120, 240, 205, 170,
    187, 2, 128, 166, 19, 208, 96, 144, 184, 157, 141, 186, 170, 215, 118, 0, 64, 135, 125, 122,
    144, 198, 189, 32, 212, 112, 124, 3, 64, 83, 197, 41, 216, 206, 84, 127, 37, 0, 160, 105,
    207, 5, 129, 142, 173, 219, 2, 129, 230, 187, 79, 207, 86, 142, 228, 157, 140, 18, 141, 192,
    49, 134, 183, 130, 99, 200, 51, 192, 159, 51, 109, 21, 43, 137, 196, 5, 127, 174, 225, 63,
    18, 16, 35, 106, 85, 7, 59, 155, 34, 174, 0, 127, 134, 35, 1, 252, 185, 157, 49, 192,
    159, 221, 78, 67, 254, 156, 222, 11, 165, 68, 127, 27, 4, 248, 51, 223, 118, 129, 198, 29,
    224, 224, 79, 189, 197, 99, 243, 153, 166, 173, 216, 228, 92, 254, 199, 5, 101, 85, 143, 177,
    216, 36, 46, 169, 11, 252, 60, 42, 252, 65, 252, 76, 239, 133, 48, 113, 9, 7, 126, 206,
    176, 93, 112, 13, 129, 90, 128, 63, 151, 133, 7, 127, 134, 250, 173, 1, 254, 60, 94, 16,
    252, 217, 237, 80, 224, 207, 212, 195, 63, 192, 159, 211, 169, 26, 252, 217, 28, 66, 0, 208,
    173, 62, 101, 0, 64, 251, 251, 132, 120, 154, 56, 144, 1, 160, 195, 67, 0, 80, 245, 219,
    2, 252, 185, 196, 233, 1, 254, 12, 189, 9, 130, 189, 79, 231, 39, 54, 63, 93, 210, 192,
    159, 174, 158, 192, 207, 101, 183, 6, 126, 134, 67, 146, 13, 208, 237, 63, 5, 161, 69, 142,
    111, 255, 2, 80, 75, 3, 4, 20, 0, 0, 8, 0, 0, 197, 99, 207, 80, 95, 127, 206,
    202, 9, 0, 0, 0, 9, 0, 0, 0, 9, 0, 0, 0, 195, 188, 98, 101, 114, 46, 116,
    120, 116, 117, 116, 102, 56, 32, 110, 97, 109, 101, 80, 75, 1, 2, 20, 3, 20, 0, 0,
    0, 0, 0, 197, 99, 207, 80, 214, 155, 56, 214, 12, 0, 0, 0, 12, 0, 0, 0, 9,
    0, 0, 0, 0, 0, 0, 0, 0, 0, 0, 0, 128, 1, 0, 0, 0, 0, 104, 101, 108,
    108, 111, 46, 116, 120, 116, 80, 75, 1, 2, 20, 3, 20, 0, 0, 0, 0, 0, 131, 24,
    34, 82, 0, 0, 0, 0, 0, 0, 0, 0, 0, 0, 0, 0, 4, 0, 0, 0, 0, 0,
    0, 0, 0, 0, 0, 0, 128, 1, 51, 0, 0, 0, 100, 105, 114, 47, 80, 75, 1, 2,
    20, 3, 20, 0, 0, 0, 8, 0, 125, 191, 159, 39, 180, 46, 239, 197, 135, 5, 0, 0,
    10, 31, 0, 0, 13, 0, 0, 0, 0, 0, 0, 0, 0, 0, 0, 0, 128, 1, 85, 0,
    0, 0, 100, 105, 114, 47, 108, 105, 110, 101, 115, 46, 116, 120, 116, 80, 75, 1, 2, 20,
    3, 20, 0, 0, 8, 0, 0, 197, 99, 207, 80, 95, 127, 206, 202, 9, 0, 0, 0, 9,
    0, 0, 0, 9, 0, 0, 0, 0, 0, 0, 0, 0, 0, 0, 0, 128, 1, 7, 6, 0,
    0, 195, 188, 98, 101, 114, 46, 116, 120, 116, 80, 75, 5, 6, 0, 0, 0, 0, 4, 0,
    4, 0, 219, 0, 0, 0, 55, 6, 0, 0, 15, 0, 97, 114, 99, 104, 105, 118, 101, 32,
    99, 111, 109, 109, 101, 110, 116,
];

fn lines_text() -> Vec<u8> {
    let mut text = Vec::new();
    for i in 0..300u32 {
        text.extend_from_slice(format!("line {}: the value is {}\n", i, i * i % 977).as_bytes());
    }
    text
}

fn content(archive: &mut ZipArchive, index: usize) -> Result<Vec<u8>, ArchiveError> {
    let file = archive.entry_at_index(index)?;
    let mut dec = file.decompressor()?;
    let mut out = Vec::new();
    let mut buf = [0u8; 100];
    loop {
        let n = dec.read(&mut buf)?;
        out.extend_from_slice(&buf[..n]);
        if n < buf.len() {
            return Ok(out);
        }
    }
}

#[test]
fn zip_lists_entries() {
    let mut archive = ZipArchive::parse(ARCHIVE.to_vec()).unwrap();
    assert_eq!(archive.entry_count(), 4);
    let f = archive.entry_at_index(0).unwrap();
    assert_eq!(f.name(), "hello.txt");
    assert!(f.is_file());
    assert!(!f.is_dir());
    assert_eq!(f.compressed_size(), 12);
    assert_eq!(f.uncompressed_size(), 12);
    assert_eq!(f.modification_time(), 1592224210);
    let d = archive.entry_at_index(1).unwrap();
    assert_eq!(d.name(), "dir");
    assert!(d.is_dir());
    assert!(!d.is_file());
    assert_eq!(d.modification_time(), 1609556646);
    let l = archive.entry_at_index(2).unwrap();
    assert_eq!(l.name(), "dir/lines.txt");
    assert_eq!(l.compressed_size(), 1415);
    assert_eq!(l.uncompressed_size(), 7946);
    assert_eq!(l.modification_time(), 946684798);
    let u = archive.entry_at_index(3).unwrap();
    assert_eq!(u.name(), "\u{fc}ber.txt");
}

#[test]
fn zip_reads_contents() {
    let mut archive = ZipArchive::parse(ARCHIVE.to_vec()).unwrap();
    assert_eq!(content(&mut archive, 0), Ok(b"Hello, zip!\n".to_vec()));
    assert_eq!(content(&mut archive, 1), Ok(Vec::new()));
    assert_eq!(content(&mut archive, 2), Ok(lines_text()));
    assert_eq!(content(&mut archive, 3), Ok(b"utf8 name".to_vec()));
}

#[test]
fn zip_checks_crc32() {
    let mut archive = ZipArchive::parse(ARCHIVE.to_vec()).unwrap();
    for i in 0..4 {
        assert_eq!(archive.entry_at_index(i).unwrap().check_crc32(), Ok(true));
    }
    let mut damaged = ARCHIVE.to_vec();
    damaged[30 + 9] ^= 0x20; // the first byte of "Hello, zip!"
    let mut archive = ZipArchive::parse(damaged).unwrap();
    assert_eq!(archive.entry_at_index(0).unwrap().check_crc32(), Ok(false));
}

#[test]
fn zip_encrypted_entry() {
    let mut data = ARCHIVE.to_vec();
    data[1591 + 8] |= 1;
    let mut archive = ZipArchive::parse(data).unwrap();
    let f = archive.entry_at_index(0).unwrap();
    assert!(matches!(f.decompressor(), Err(ArchiveError::EncryptionNotSupported)));
    assert_eq!(f.check_crc32(), Err(ArchiveError::EncryptionNotSupported));
}

#[test]
fn zip_unsupported_compression() {
    let mut data = ARCHIVE.to_vec();
    data[1591 + 10] = 12;
    let mut archive = ZipArchive::parse(data).unwrap();
    assert!(matches!(archive.entry_at_index(0), Err(ArchiveError::UnsupportedCompression)));
    assert!(archive.entry_at_index(2).is_ok());
    assert_eq!(Compression::try_from(8), Ok(Compression::Deflate));
    assert_eq!(Compression::try_from(0), Ok(Compression::NoCompression));
    assert_eq!(Compression::try_from(12), Err(ArchiveError::UnsupportedCompression));
}

#[test]
fn zip_wrong_local_signature() {
    let mut data = ARCHIVE.to_vec();
    data[0] = 0;
    let mut archive = ZipArchive::parse(data).unwrap();
    assert!(matches!(archive.entry_at_index(0), Err(ArchiveError::WrongSignature)));
}

#[test]
fn zip_missing_end_of_central_directory() {
    assert!(matches!(ZipArchive::parse(vec![0u8; 100]), Err(ArchiveError::EndOfCentralDirectoryNotFound)));
    assert!(matches!(ZipArchive::parse(vec![1u8; 5]), Err(ArchiveError::EndOfCentralDirectoryNotFound)));
    let mut data = ARCHIVE.to_vec();
    data.truncate(1810 + 10);
    assert!(matches!(ZipArchive::parse(data), Err(ArchiveError::EndOfCentralDirectoryNotFound)));
}

#[test]
fn zip_bad_central_directory() {
    let mut data = ARCHIVE.to_vec();
    data[1810 + 10] = 5;
    assert!(matches!(ZipArchive::parse(data), Err(ArchiveError::UnexpectedEof)));
    let mut data = ARCHIVE.to_vec();
    for b in &mut data[1810 + 16..1810 + 20] {
        *b = 0;
    }
    assert!(matches!(ZipArchive::parse(data), Err(ArchiveError::WrongSignature)));
    let mut data = ARCHIVE.to_vec();
    data[1810 + 19] = 0x7f;
    assert!(matches!(ZipArchive::parse(data), Err(ArchiveError::UnexpectedEof)));
}

#[test]
fn zip_empty_archive() {
    let mut data = vec![0x50u8, 0x4b, 0x05, 0x06];
    data.extend_from_slice(&[0u8; 18]);
    let archive = ZipArchive::parse(data).unwrap();
    assert_eq!(archive.entry_count(), 0);
}

#[test]
fn byte_reader_reads_little_endian() {
    let mut r = ByteReader::new(vec![0x34, 0x12, 0x78, 0x56, 0x34, 0x12, 9]);
    assert_eq!(r.total_len(), 7);
    assert_eq!(r.read_le_u16(), Ok(0x1234));
    assert_eq!(r.read_le_u32(), Ok(0x12345678));
    assert_eq!(r.offset(), 6);
    assert_eq!(r.rem_len(), 1);
    assert_eq!(r.read_le_u16(), Err(ArchiveError::UnexpectedEof));
    assert_eq!(r.read_to_vec(1), Ok(vec![9]));
    assert_eq!(r.set_offset(8), Err(ArchiveError::UnexpectedEof));
    assert_eq!(r.set_offset(2), Ok(()));
    assert_eq!(r.read_to_vec(3), Ok(vec![0x78, 0x56, 0x34]));
}

#[test]
fn crc32_check_value() {
    assert_eq!(crc32_of(b"123456789"), 0xcbf43926);
    assert_eq!(crc32_of(b""), 0);
    let mut crc = Crc32::new();
    crc.push_slice(b"1234");
    crc.push(b'5');
    crc.push_slice(b"6789");
    assert_eq!(crc.finalize(), 0xcbf43926);
}

#[test]
fn ms_dos_datetime() {
    // 2020-06-15 12:30:10
    assert_eq!(decode_ms_dos_datetime(20687, 25541), 1592224210);
    // 1980-01-01 00:00:00
    assert_eq!(decode_ms_dos_datetime((0 << 9) | (1 << 5) | 1, 0), 315532800);
    // 2000-03-01 00:00:00, after a leap day
    assert_eq!(decode_ms_dos_datetime((20 << 9) | (3 << 5) | 1, 0), 951868800);
    // Month 0 and day 0 count as January the 1st
    assert_eq!(decode_ms_dos_datetime(0, 0), 315532800);
}

#[test]
fn cp437_decoding() {
    assert_eq!(decode_cp437(b"plain.txt"), "plain.txt");
    assert_eq!(decode_cp437(&[b'c', b'a', b'f', 0x82]), "caf\u{e9}");
    assert_eq!(decode_cp437(&[0xb0, 0xdb, 0xff]), "\u{2591}\u{2588}\u{a0}");
}
