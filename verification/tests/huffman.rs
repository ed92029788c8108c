use cacti::bit_reader::BitReader;
use cacti::error::ArchiveError;
use cacti::huffman::{generate_huffman_from_lengths, HuffmanCodes};

/// Code lengths 1 to 15 for symbols 0 to 14, and 15 for symbol 15: the
/// canonical codes are `0`, `10`, `110`, ..., fourteen ones and a zero, and
/// fifteen ones.
fn lens() -> Vec<usize> {
    let mut lens: Vec<usize> = (1..=15).collect();
    lens.push(15);
    lens
}

fn decode(bytes: &[u8]) -> (Result<u16, ArchiveError>, usize) {
    let codes = HuffmanCodes::from_code_lengths(&lens()).unwrap();
    let mut r = BitReader::new(bytes);
    let s = codes.decode_symbol(&mut r);
    (s, r.position())
}

#[test]
fn decode_short_code_through_table() {
    // `110`, most significant code bit first.
    assert_eq!(decode(&[0b0000_0011, 0]), (Ok(2), 3));
    assert_eq!(decode(&[0b0000_0000, 0]), (Ok(0), 1));
}

#[test]
fn decode_long_codes_through_dictionary() {
    // Fourteen ones and a zero; then fifteen ones.
    assert_eq!(decode(&[0xff, 0x3f]), (Ok(14), 15));
    assert_eq!(decode(&[0xff, 0x7f]), (Ok(15), 15));
}

#[test]
fn decode_truncated_code() {
    assert_eq!(decode(&[0xff]), (Err(ArchiveError::UnexpectedEof), 0));
}

#[test]
fn decode_beyond_the_deflate_alphabet() {
    // 1024 symbols with 10-bit codes: symbol i has code i.
    let lens = vec![10usize; 1024];
    let codes = HuffmanCodes::from_code_lengths(&lens).unwrap();
    for (bytes, sym) in [([128u8, 2u8], 5u16), ([159, 3], 999), ([255, 3], 1023)] {
        let mut r = BitReader::new(&bytes);
        assert_eq!(codes.decode_symbol(&mut r), Ok(sym));
        assert_eq!(r.position(), 10);
    }
}

#[test]
fn canonical_codes_of_a_long_list() {
    let mut lens = vec![0usize; 40000];
    for l in lens.iter_mut().take(32768) {
        *l = 15;
    }
    let codes = generate_huffman_from_lengths(&lens).unwrap();
    assert_eq!(codes.len(), 40000);
    assert_eq!(codes[0], 0);
    assert_eq!(codes[32767], 32767);
    assert_eq!(codes[39999], 0);
    lens.push(15);
    assert_eq!(generate_huffman_from_lengths(&lens), Err(ArchiveError::OverSubscribedCodes));
}
