use engine::block::{add_posting, dedup_adjacent};
use engine::bytes::{push_u64, read_u64};
use engine::corpus::docs_ascend;
use engine::counts::count_terms;
use engine::db::{read_doc_id, Doc, DocId};
use engine::error::DecodeError;
use engine::index::{create_index, is_index_built, Index};
use engine::inverted_index::{
    create_inverted_index, is_inverted_index_built, HeadValue, InvertedIndex,
};
use engine::record::Reader;
use engine::term_map::TermMap;

fn tf_weight(count: u64) -> u64 {
    (1.0 + (count as f64).log10()).to_bits()
}

fn idf(df: u64, n: u64) -> u64 {
    (n as f64 / df as f64).log10().to_bits()
}

fn id(byte: u8) -> DocId {
    DocId::from_bytes([byte; 12])
}

fn ids(bytes: &[u8]) -> Vec<DocId> {
    bytes.iter().map(|b| id(*b)).collect()
}

fn doc(byte: u8, words: &[&str]) -> Doc {
    Doc {
        _id: id(byte),
        title: String::new(),
        path: String::new(),
        words: words.iter().map(|w| w.to_string()).collect(),
    }
}

fn corpus() -> Vec<Doc> {
    vec![doc(1, &["a", "b", "a"]), doc(2, &["b", "c"]), doc(3, &["a", "c", "c"])]
}

fn build_inverted(docs: &Vec<Doc>, max_block_postings: usize) -> InvertedIndex {
    let mut index = InvertedIndex::with_max_block_postings(max_block_postings);
    index.build(docs, docs.len() as u64, idf);
    index
}

fn build_forward(docs: &Vec<Doc>) -> Index {
    let mut index = create_index();
    index.build(docs, tf_weight);
    index
}

fn records(content: &[u8]) -> Vec<(String, Vec<DocId>)> {
    let mut reader = Reader::new(content);
    let mut out = Vec::new();
    while let Some((term, len)) = reader.read_header().unwrap() {
        let mut postings = Vec::new();
        for _ in 0..len {
            postings.push(read_doc_id(content, reader.pos));
            reader.pos += 12;
        }
        out.push((String::from_utf8(term).unwrap(), postings));
    }
    out
}

fn expected(records: &[(&str, &[u8])]) -> Vec<(String, Vec<DocId>)> {
    records.iter().map(|(t, d)| (t.to_string(), ids(d))).collect()
}

fn approx(bits: u64, value: f64) -> bool {
    (f64::from_bits(bits) - value).abs() < 1e-4
}

#[test]
fn posting_lists_of_the_three_documents() {
    let index = build_inverted(&corpus(), 10_000);
    assert_eq!(
        records(&index.index_content_file),
        expected(&[("a", &[1, 3]), ("b", &[1, 2]), ("c", &[2, 3])])
    );
}

#[test]
fn document_frequencies_and_idf_of_the_three_documents() {
    let index = build_inverted(&corpus(), 10_000);
    assert_eq!(index.head.keys, vec![b"a".to_vec(), b"b".to_vec(), b"c".to_vec()]);
    for value in &index.head.values {
        assert_eq!(value.df, 2);
        assert!(approx(value.idf, 0.1761));
        assert_eq!(value.idf, (3.0f64 / 2.0).log10().to_bits());
    }
}

#[test]
fn a_word_repeated_in_a_document_counts_the_document_once() {
    let docs = vec![doc(1, &["x", "x", "x"]), doc(2, &["x", "y"])];
    let index = build_inverted(&docs, 10_000);
    assert_eq!(index.head.values[0].df, 2);
    assert_eq!(index.head.values[1].df, 1);
    assert_eq!(records(&index.index_content_file), expected(&[("x", &[1, 2]), ("y", &[2])]));
}

#[test]
fn offsets_point_at_the_length_of_the_posting_list() {
    let index = build_inverted(&corpus(), 10_000);
    let content = &index.index_content_file;
    assert_eq!(index.head.values[0].offset, 9);
    assert_eq!(index.head.values[1].offset, 9 + 32 + 9);
    assert_eq!(index.head.values[2].offset, 9 + 32 + 9 + 32 + 9);
    for (i, value) in index.head.values.iter().enumerate() {
        let at = value.offset as usize;
        let len = read_u64(content, at);
        assert_eq!(len, value.df);
        let mut last: Option<DocId> = None;
        for k in 0..len as usize {
            let d = read_doc_id(content, at + 8 + 12 * k);
            if let Some(before) = last {
                assert!(before.precedes(&d), "term {}", i);
            }
            last = Some(d);
        }
    }
}

#[test]
fn head_file_holds_one_entry_for_each_term() {
    let index = build_inverted(&corpus(), 10_000);
    let mut want = Vec::new();
    for (term, offset) in [(b'a', 9u64), (b'b', 50), (b'c', 91)] {
        push_u64(&mut want, 1);
        want.push(term);
        push_u64(&mut want, offset);
        want.extend_from_slice(&(1.5f64).log10().to_be_bytes());
    }
    assert_eq!(index.index_head_file, want);
}

#[test]
fn small_blocks_give_the_same_content_as_one_block() {
    let whole = build_inverted(&corpus(), 10_000);
    let cut = build_inverted(&corpus(), 3);
    assert_eq!(cut.blocks_directory.len(), 3);
    assert_eq!(cut.count_of_written_blocks, 3);
    assert_eq!(whole.blocks_directory.len(), 1);
    assert_eq!(cut.index_content_file, whole.index_content_file);
    assert_eq!(cut.index_head_file, whole.index_head_file);
    assert_eq!(cut.head.keys, whole.head.keys);
    assert_eq!(cut.head.values, whole.head.values);
}

#[test]
fn blocks_hold_their_part_of_the_stream() {
    let index = build_inverted(&corpus(), 3);
    assert_eq!(records(&index.blocks_directory[0]), expected(&[("a", &[1]), ("b", &[1])]));
    assert_eq!(
        records(&index.blocks_directory[1]),
        expected(&[("a", &[3]), ("b", &[2]), ("c", &[2, 3])])
    );
    assert_eq!(index.blocks_directory[2], index.index_content_file);
}

#[test]
fn a_document_is_listed_once_for_a_term_whatever_the_block_size() {
    let index = build_inverted(&corpus(), 2);
    assert_eq!(
        records(&index.index_content_file),
        expected(&[("a", &[1, 3]), ("b", &[1, 2]), ("c", &[2, 3])])
    );
    assert_eq!(index.head.values[0].df, 2);
    let one = vec![doc(1, &["a", "b", "a"])];
    let index = build_inverted(&one, 2);
    assert_eq!(records(&index.index_content_file), expected(&[("a", &[1]), ("b", &[1])]));
    assert_eq!(index.head.values[0].df, 1);
    assert_eq!(read_u64(&index.index_content_file, index.head.values[0].offset as usize), 1);
    assert_eq!(index.blocks_directory.len(), 1);
}

#[test]
fn blocks_of_no_postings_are_blocks_of_one() {
    let none = build_inverted(&corpus(), 0);
    let one = build_inverted(&corpus(), 1);
    assert_eq!(none.index_content_file, one.index_content_file);
    assert_eq!(none.blocks_directory.len(), one.blocks_directory.len());
    assert_eq!(one.blocks_directory.len(), 3 + 2);
    assert_eq!(
        records(&one.index_content_file),
        expected(&[("a", &[1, 3]), ("b", &[1, 2]), ("c", &[2, 3])])
    );
}

#[test]
fn the_size_of_the_blocks_does_not_show_in_the_index() {
    let whole = build_inverted(&corpus(), 10_000);
    for max in 0..=9usize {
        let cut = build_inverted(&corpus(), max);
        assert_eq!(cut.index_content_file, whole.index_content_file, "blocks of {}", max);
        assert_eq!(cut.index_head_file, whole.index_head_file, "blocks of {}", max);
        assert_eq!(cut.head, whole.head, "blocks of {}", max);
    }
    let docs: Vec<Doc> = (1..=40u8)
        .map(|b| {
            let words: &[&str] = if b % 3 == 0 { &["x", "y", "x", "z"] } else { &["y", "w", "y"] };
            doc(b, words)
        })
        .collect();
    let whole = build_inverted(&docs, 10_000);
    for max in [1usize, 2, 3, 5, 7, 11, 50, 200] {
        let cut = build_inverted(&docs, max);
        assert_eq!(cut.index_content_file, whole.index_content_file, "blocks of {}", max);
        assert_eq!(cut.head, whole.head, "blocks of {}", max);
    }
    for (term, list) in records(&whole.index_content_file) {
        for pair in list.windows(2) {
            assert!(pair[0].precedes(&pair[1]), "term {}", term);
        }
    }
}

#[test]
fn building_twice_gives_the_same_bytes() {
    for max in [1usize, 2, 3, 4, 10_000] {
        let first = build_inverted(&corpus(), max);
        let second = build_inverted(&corpus(), max);
        assert_eq!(first.index_content_file, second.index_content_file);
        assert_eq!(first.index_head_file, second.index_head_file);
        assert_eq!(first.head.keys, second.head.keys);
        assert_eq!(first.head.values, second.head.values);
    }
    let first = build_forward(&corpus());
    let second = build_forward(&corpus());
    assert_eq!(first.index_content_file, second.index_content_file);
    assert_eq!(first.index_head_file, second.index_head_file);
    assert_eq!(first.head, second.head);
}

#[test]
fn no_documents_give_an_empty_index() {
    let index = build_inverted(&Vec::new(), 10_000);
    assert!(index.index_content_file.is_empty());
    assert!(index.index_head_file.is_empty());
    assert!(index.head.keys.is_empty());
    assert_eq!(index.count_of_written_blocks, 0);
    let forward = build_forward(&Vec::new());
    assert!(forward.index_content_file.is_empty());
    assert!(forward.head.is_empty());
}

#[test]
fn documents_without_words_add_nothing_to_the_inverted_index() {
    let docs = vec![doc(1, &[]), doc(2, &["w"]), doc(3, &[])];
    let index = build_inverted(&docs, 10_000);
    assert_eq!(records(&index.index_content_file), expected(&[("w", &[2])]));
    assert!(approx(index.head.values[0].idf, 3.0f64.log10()));
}

#[test]
fn documents_must_come_in_the_order_of_their_identifiers() {
    assert!(docs_ascend(&corpus()));
    assert!(docs_ascend(&Vec::new()));
    assert!(docs_ascend(&vec![doc(9, &["x"])]));
    assert!(!docs_ascend(&vec![doc(2, &["x"]), doc(1, &["y"])]));
    assert!(!docs_ascend(&vec![doc(1, &["x"]), doc(1, &["y"])]));
    assert!(!docs_ascend(&vec![doc(1, &[]), doc(3, &[]), doc(2, &[])]));
}

#[test]
fn default_index_takes_ten_thousand_postings_a_block() {
    let index = create_inverted_index();
    assert_eq!(index.max_map_size, 10_000);
    assert_eq!(index.cur_map_size, 0);
    assert_eq!(index.count_of_written_blocks, 0);
    assert!(index.blocks_directory.is_empty());
}

#[test]
fn a_block_is_written_once_it_is_full_at_the_end_of_a_document() {
    let docs: Vec<Doc> = vec![doc(1, &["a"]), doc(2, &["b"]), doc(3, &["c", "d", "c"])];
    let index = build_inverted(&docs, 2);
    assert_eq!(index.blocks_directory.len(), 2 + 1);
    assert_eq!(records(&index.blocks_directory[0]), expected(&[("a", &[1]), ("b", &[2])]));
    assert_eq!(records(&index.blocks_directory[1]), expected(&[("c", &[3]), ("d", &[3])]));
    assert_eq!(index.cur_map_size, 0);
    let long: Vec<Doc> = vec![doc(1, &["a", "b", "c", "d", "e"]), doc(2, &["f"])];
    let index = build_inverted(&long, 2);
    assert_eq!(
        records(&index.blocks_directory[0]),
        expected(&[("a", &[1]), ("b", &[1]), ("c", &[1]), ("d", &[1]), ("e", &[1])])
    );
    assert_eq!(records(&index.blocks_directory[1]), expected(&[("f", &[2])]));
    assert_eq!(index.blocks_directory.len(), 3);
}

#[test]
fn a_block_lists_a_document_once_for_a_term() {
    let mut block: TermMap<Vec<DocId>> = TermMap::new();
    for (term, d) in [("b", 1u8), ("a", 1), ("b", 1), ("b", 2), ("a", 2), ("a", 2)] {
        add_posting(&mut block, &term.as_bytes().to_vec(), id(d));
    }
    assert_eq!(block.keys, vec![b"a".to_vec(), b"b".to_vec()]);
    assert_eq!(block.values, vec![ids(&[1, 2, 2]), ids(&[1, 1, 2])]);
    let bytes = InvertedIndex::write_block_to_disk(block);
    assert_eq!(records(&bytes), expected(&[("a", &[1, 2]), ("b", &[1, 2])]));
}

#[test]
fn neighbours_that_repeat_are_removed() {
    assert_eq!(dedup_adjacent(&ids(&[1, 1, 2, 2, 2, 3, 1, 1])), ids(&[1, 2, 3, 1]));
    assert_eq!(dedup_adjacent(&ids(&[])), ids(&[]));
    assert_eq!(dedup_adjacent(&ids(&[4])), ids(&[4]));
}

#[test]
fn words_are_counted() {
    let words: Vec<Vec<u8>> =
        ["b", "a", "b", "c", "b"].iter().map(|w| w.as_bytes().to_vec()).collect();
    let counts = count_terms(&words);
    assert_eq!(counts.keys, vec![b"a".to_vec(), b"b".to_vec(), b"c".to_vec()]);
    assert_eq!(counts.values, vec![1, 3, 1]);
    assert_eq!(counts.find(b"b"), (true, 1));
    assert_eq!(counts.find(b"bb"), (false, 2));
    assert_eq!(counts.find(b""), (false, 0));
    assert_eq!(counts.len(), 3);
}

#[test]
fn set_offsets_passes_over_terms_without_an_entry() {
    let built = build_inverted(&corpus(), 10_000);
    let mut index = InvertedIndex::with_max_block_postings(10_000);
    index.index_content_file = built.index_content_file.clone();
    index.head.insert(0, b"b".to_vec(), HeadValue { offset: 7, df: 1, idf: 3 });
    index.head.insert(1, b"q".to_vec(), HeadValue { offset: 7, df: 1, idf: 3 });
    index.set_offsets().unwrap();
    assert_eq!(index.head.values[0], HeadValue { offset: 50, df: 1, idf: 3 });
    assert_eq!(index.head.values[1], HeadValue { offset: 7, df: 1, idf: 3 });
}

#[test]
fn set_offsets_fails_on_content_that_ends_inside_a_record() {
    let built = build_inverted(&corpus(), 10_000);
    let mut index = InvertedIndex::with_max_block_postings(10_000);
    index.index_content_file = built.index_content_file.clone();
    index.index_content_file.pop();
    index.head.insert(0, b"a".to_vec(), HeadValue { offset: 0, df: 2, idf: 1 });
    index.head.insert(1, b"c".to_vec(), HeadValue { offset: 0, df: 2, idf: 1 });
    assert_eq!(index.set_offsets(), Err(DecodeError::UnexpectedEof));
    assert_eq!(index.head.values[0], HeadValue { offset: 9, df: 2, idf: 1 });
    assert_eq!(index.head.values[1], HeadValue { offset: 0, df: 2, idf: 1 });
}

#[test]
fn set_offsets_fails_on_a_term_that_is_not_utf8() {
    let mut content = Vec::new();
    InvertedIndex::write_inverted_index_record_to_disk(&mut content, &b"a".to_vec(), &ids(&[1]));
    InvertedIndex::write_inverted_index_record_to_disk(&mut content, &vec![0xff], &ids(&[2]));
    InvertedIndex::write_inverted_index_record_to_disk(&mut content, &b"z".to_vec(), &ids(&[3]));
    let mut index = InvertedIndex::with_max_block_postings(10_000);
    index.index_content_file = content.clone();
    index.head.insert(0, b"a".to_vec(), HeadValue { offset: 0, df: 1, idf: 0 });
    index.head.insert(1, b"z".to_vec(), HeadValue { offset: 0, df: 1, idf: 0 });
    assert_eq!(index.set_offsets(), Err(DecodeError::InvalidUtf8));
    assert_eq!(index.head.values[0].offset, 9);
    assert_eq!(index.head.values[1].offset, 29 + 29 + 9);
    content[29 + 8] = b'm';
    index.index_content_file = content;
    assert_eq!(index.set_offsets(), Ok(()));
}

#[test]
fn stored_index_needs_both_files_with_something_in_them() {
    assert!(is_index_built(Some(20), Some(59)));
    assert!(!is_index_built(None, Some(59)));
    assert!(!is_index_built(Some(20), None));
    assert!(!is_index_built(Some(0), Some(59)));
    assert!(!is_index_built(Some(20), Some(0)));
    assert!(!is_index_built(None, None));
    assert!(is_inverted_index_built(Some(1), Some(1)));
    assert!(!is_inverted_index_built(Some(1), Some(0)));
    assert!(!is_inverted_index_built(None, Some(1)));
    assert!(!is_inverted_index_built(Some(1), None));
}

#[test]
fn forward_records_hold_the_words_with_their_weights() {
    let index = build_forward(&corpus());
    let content = &index.index_content_file;
    assert_eq!(read_u64(content, 0), 3);
    let mut pos = 8;
    let mut seen = Vec::new();
    for _ in 0..3 {
        let len = read_u64(content, pos) as usize;
        let word = content[pos + 8..pos + 8 + len].to_vec();
        let weight = f64::from_bits(read_u64(content, pos + 8 + len));
        seen.push((word, weight));
        pos += 16 + len;
    }
    assert_eq!(pos, 59);
    assert_eq!(seen[0].0, b"a".to_vec());
    assert_eq!(seen[1].0, b"b".to_vec());
    assert_eq!(seen[2].0, b"a".to_vec());
    assert!((seen[0].1 - 1.3010).abs() < 1e-4);
    assert_eq!(seen[1].1, 1.0);
    assert!((seen[2].1 - 1.3010).abs() < 1e-4);
    assert_eq!(seen[0].1, 1.0 + 2.0f64.log10());
}

#[test]
fn forward_head_holds_each_document_once_with_its_offset() {
    let index = build_forward(&corpus());
    assert_eq!(index.head.len(), 3);
    assert_eq!(index.head[&id(1).key_u128()], 0);
    assert_eq!(index.head[&id(2).key_u128()], 59);
    assert_eq!(index.head[&id(3).key_u128()], 101);
    assert_eq!(index.next_offset, 101 + 59);
    assert_eq!(index.index_content_file.len(), 160);
    let mut want = Vec::new();
    for (d, offset) in [(1u8, 0u64), (2, 59), (3, 101)] {
        want.extend_from_slice(&[d; 12]);
        push_u64(&mut want, offset);
    }
    assert_eq!(index.index_head_file, want);
    for (d, words) in [(1u8, 3u64), (2, 2), (3, 3)] {
        let at = index.head[&id(d).key_u128()] as usize;
        assert_eq!(read_u64(&index.index_content_file, at), words);
    }
}

#[test]
fn a_stored_forward_index_is_loaded() {
    let built = build_forward(&corpus());
    let mut index = create_index();
    index.load(built.index_head_file.clone(), built.index_content_file.clone()).unwrap();
    assert_eq!(index.head, built.head);
    assert_eq!(index.index_content_file, built.index_content_file);
    assert_eq!(index.index_head_file, built.index_head_file);
    assert_eq!(index.next_offset, built.next_offset);
}

#[test]
fn a_head_that_ends_inside_an_entry_is_not_loaded() {
    let built = build_forward(&corpus());
    let mut head = built.index_head_file.clone();
    head.pop();
    let mut index = create_index();
    assert_eq!(index.load(head, built.index_content_file.clone()), Err(DecodeError::UnexpectedEof));
    assert!(index.head.is_empty());
    assert!(index.index_content_file.is_empty());
}

#[test]
fn a_later_head_entry_replaces_an_earlier_one() {
    let mut head = Vec::new();
    for offset in [5u64, 9] {
        head.extend_from_slice(&[4u8; 12]);
        push_u64(&mut head, offset);
    }
    let mut index = create_index();
    index.load(head, Vec::new()).unwrap();
    assert_eq!(index.head.len(), 1);
    assert_eq!(index.head[&id(4).key_u128()], 9);
}
