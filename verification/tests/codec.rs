use engine::bytes::{
    compare_bytes, copy_range, push_range, push_u32, push_u64, read_u32, read_u64, Sign,
};
use engine::db::{push_doc_id, read_doc_id, terms_of, DocId};
use engine::error::DecodeError;
use engine::inverted_index::InvertedIndex;
use engine::record::Reader;

fn id(byte: u8) -> DocId {
    DocId::from_bytes([byte; 12])
}

#[test]
fn u64_is_written_big_endian() {
    let mut out = vec![0xffu8];
    push_u64(&mut out, 0x0102_0304_0506_0708);
    assert_eq!(out, vec![0xff, 1, 2, 3, 4, 5, 6, 7, 8]);
    assert_eq!(read_u64(&out, 1), 0x0102_0304_0506_0708);
}

#[test]
fn u64_extremes_round_trip() {
    for x in [0u64, 1, 255, 256, u64::MAX, 1 << 63, 0x00ff_00ff_00ff_00ff] {
        let mut out = Vec::new();
        push_u64(&mut out, x);
        assert_eq!(out.len(), 8);
        assert_eq!(out, x.to_be_bytes().to_vec());
        assert_eq!(read_u64(&out, 0), x);
    }
}

#[test]
fn u32_is_written_big_endian() {
    let mut out = Vec::new();
    push_u32(&mut out, 0xa1b2_c3d4);
    assert_eq!(out, vec![0xa1, 0xb2, 0xc3, 0xd4]);
    assert_eq!(read_u32(&out, 0), 0xa1b2_c3d4);
}

#[test]
fn weight_bits_are_the_big_endian_double() {
    let weight = 1.0f64 + 2.0f64.log10();
    let mut out = Vec::new();
    push_u64(&mut out, weight.to_bits());
    assert_eq!(out, weight.to_be_bytes().to_vec());
    assert_eq!(f64::from_bits(read_u64(&out, 0)), weight);
}

#[test]
fn ranges_are_copied() {
    let data = [10u8, 11, 12, 13, 14];
    assert_eq!(copy_range(&data, 1, 4), vec![11, 12, 13]);
    assert_eq!(copy_range(&data, 2, 2), Vec::<u8>::new());
    let mut out = vec![1u8];
    push_range(&mut out, &data, 3, 5);
    assert_eq!(out, vec![1, 13, 14]);
}

#[test]
fn doc_id_round_trips_through_bytes() {
    let bytes = [0x01, 0x02, 0x03, 0x04, 0x05, 0x06, 0x07, 0x08, 0x09, 0x0a, 0x0b, 0x0c];
    let d = DocId::from_bytes(bytes);
    assert_eq!(d.hi, 0x0102_0304);
    assert_eq!(d.lo, 0x0506_0708_090a_0b0c);
    assert_eq!(d.bytes(), bytes);
    assert_eq!(d.key_u128(), 0x0102_0304_0506_0708_090a_0b0c);
}

#[test]
fn doc_ids_are_ordered_as_their_bytes() {
    let small = DocId::from_bytes([0, 0, 0, 1, 0xff, 0xff, 0xff, 0xff, 0xff, 0xff, 0xff, 0xff]);
    let large = DocId::from_bytes([0, 0, 0, 2, 0, 0, 0, 0, 0, 0, 0, 0]);
    assert!(small.precedes(&large));
    assert!(!large.precedes(&small));
    assert!(!small.precedes(&small));
    assert!(small.bytes() < large.bytes());
    assert!(small < large);
    assert!(id(1).precedes(&id(2)));
}

#[test]
fn doc_id_is_written_as_twelve_bytes() {
    let mut out = Vec::new();
    push_doc_id(&mut out, id(7));
    assert_eq!(out, vec![7u8; 12]);
    assert_eq!(read_doc_id(&out, 0), id(7));
}

#[test]
fn byte_strings_compare_lexicographically() {
    assert_eq!(compare_bytes(b"a", b"b"), Sign::Less);
    assert_eq!(compare_bytes(b"b", b"a"), Sign::Greater);
    assert_eq!(compare_bytes(b"ab", b"ab"), Sign::Equal);
    assert_eq!(compare_bytes(b"a", b"ab"), Sign::Less);
    assert_eq!(compare_bytes(b"ab", b"a"), Sign::Greater);
    assert_eq!(compare_bytes(b"", b""), Sign::Equal);
    assert_eq!(compare_bytes(b"", b"a"), Sign::Less);
    assert_eq!(compare_bytes(&[0xff], &[0x01, 0x02]), Sign::Greater);
}

#[test]
fn words_become_their_utf8_bytes() {
    let words = vec!["a".to_string(), "héllo".to_string(), String::new()];
    let terms = terms_of(&words);
    assert_eq!(terms, vec![b"a".to_vec(), "héllo".as_bytes().to_vec(), Vec::new()]);
}

#[test]
fn record_is_length_term_length_postings() {
    let mut out = Vec::new();
    InvertedIndex::write_inverted_index_record_to_disk(
        &mut out,
        &b"ab".to_vec(),
        &vec![id(1), id(3)],
    );
    let mut expected = vec![0, 0, 0, 0, 0, 0, 0, 2, b'a', b'b', 0, 0, 0, 0, 0, 0, 0, 2];
    expected.extend_from_slice(&[1u8; 12]);
    expected.extend_from_slice(&[3u8; 12]);
    assert_eq!(out, expected);
}

#[test]
fn header_is_read_and_reader_stops_before_postings() {
    let mut data = Vec::new();
    InvertedIndex::write_inverted_index_record_to_disk(&mut data, &b"ab".to_vec(), &vec![id(1)]);
    let mut reader = Reader::new(&data);
    assert!(!reader.at_end());
    let header = reader.read_header().unwrap();
    assert_eq!(header, Some((b"ab".to_vec(), 1)));
    assert_eq!(reader.pos, 18);
}

#[test]
fn clean_end_of_data_is_no_record() {
    let data: Vec<u8> = Vec::new();
    let mut reader = Reader::new(&data);
    assert!(reader.at_end());
    assert_eq!(reader.read_header(), Ok(None));
    assert_eq!(reader.pos, 0);
}

#[test]
fn end_of_data_inside_a_record_is_an_error() {
    let mut data = Vec::new();
    InvertedIndex::write_inverted_index_record_to_disk(&mut data, &b"ab".to_vec(), &vec![id(1)]);
    for cut in 1..data.len() {
        let part = data[..cut].to_vec();
        let mut reader = Reader::new(&part);
        assert_eq!(reader.read_header(), Err(DecodeError::UnexpectedEof), "cut at {}", cut);
        assert_eq!(reader.pos, 0);
    }
}

#[test]
fn huge_length_field_is_an_error() {
    let mut data = Vec::new();
    push_u64(&mut data, u64::MAX);
    data.extend_from_slice(&[0u8; 40]);
    let mut reader = Reader::new(&data);
    assert_eq!(reader.read_header(), Err(DecodeError::UnexpectedEof));
    let mut data = Vec::new();
    push_u64(&mut data, 1);
    data.push(b'a');
    push_u64(&mut data, u64::MAX);
    data.extend_from_slice(&[0u8; 40]);
    let mut reader = Reader::new(&data);
    assert_eq!(reader.read_header(), Err(DecodeError::UnexpectedEof));
}

#[test]
fn errors_describe_themselves() {
    assert_eq!(DecodeError::UnexpectedEof.message(), "unexpected end of data inside a record");
    assert_eq!(DecodeError::InvalidUtf8.message(), "a term is not valid UTF-8");
    assert_eq!(DecodeError::Malformed.message(), "a document has no record in the forward index");
}
