use engine::db::DocId;
use engine::error::DecodeError;
use engine::inverted_index::InvertedIndex;
use engine::record::Reader;

fn id(byte: u8) -> DocId {
    DocId::from_bytes([byte; 12])
}

fn block(records: &[(&str, &[u8])]) -> Vec<u8> {
    let mut out = Vec::new();
    for (term, docs) in records {
        let postings: Vec<DocId> = docs.iter().map(|b| id(*b)).collect();
        InvertedIndex::write_inverted_index_record_to_disk(
            &mut out,
            &term.as_bytes().to_vec(),
            &postings,
        );
    }
    out
}

fn index_with(blocks: Vec<Vec<u8>>) -> InvertedIndex {
    let mut index = InvertedIndex::with_max_block_postings(10_000);
    index.count_of_written_blocks = blocks.len();
    index.blocks_directory = blocks;
    index
}

#[test]
fn two_blocks_merge_by_term() {
    let lhs = block(&[("a", &[1]), ("b", &[1])]);
    let rhs = block(&[("b", &[2]), ("c", &[2])]);
    let mut index = index_with(vec![lhs, rhs]);
    index.merge_task(0, 1).unwrap();
    assert_eq!(index.blocks_directory.len(), 3);
    assert_eq!(index.blocks_directory[2], block(&[("a", &[1]), ("b", &[1, 2]), ("c", &[2])]));
}

#[test]
fn equal_terms_merge_their_postings_in_order() {
    let lhs = block(&[("t", &[1, 4, 6])]);
    let rhs = block(&[("t", &[2, 3, 5, 7, 8])]);
    let mut index = index_with(vec![lhs, rhs]);
    index.merge_task(0, 1).unwrap();
    assert_eq!(index.blocks_directory[2], block(&[("t", &[1, 2, 3, 4, 5, 6, 7, 8])]));
    let mut index = index_with(vec![block(&[("t", &[5, 6])]), block(&[("t", &[1, 2])])]);
    index.merge_task(0, 1).unwrap();
    assert_eq!(index.blocks_directory[2], block(&[("t", &[1, 2, 5, 6])]));
}

#[test]
fn equal_postings_of_both_sides_are_both_kept() {
    let mut index = index_with(vec![block(&[("t", &[1, 2])]), block(&[("t", &[2, 3])])]);
    index.merge_task(0, 1).unwrap();
    assert_eq!(index.blocks_directory[2], block(&[("t", &[1, 2, 2, 3])]));
}

#[test]
fn empty_block_on_either_side_streams_the_other() {
    let full = block(&[("a", &[1]), ("b", &[2, 3])]);
    let mut index = index_with(vec![Vec::new(), full.clone()]);
    index.merge_task(0, 1).unwrap();
    assert_eq!(index.blocks_directory[2], full);
    let mut index = index_with(vec![full.clone(), Vec::new()]);
    index.merge_task(0, 1).unwrap();
    assert_eq!(index.blocks_directory[2], full);
    let mut index = index_with(vec![Vec::new(), Vec::new()]);
    index.merge_task(0, 1).unwrap();
    assert_eq!(index.blocks_directory[2], Vec::<u8>::new());
}

#[test]
fn one_side_running_out_streams_the_rest_of_the_other() {
    let lhs = block(&[("a", &[1]), ("z", &[1])]);
    let rhs = block(&[("b", &[2]), ("c", &[2]), ("d", &[2])]);
    let mut index = index_with(vec![lhs, rhs]);
    index.merge_task(0, 1).unwrap();
    assert_eq!(
        index.blocks_directory[2],
        block(&[("a", &[1]), ("b", &[2]), ("c", &[2]), ("d", &[2]), ("z", &[1])])
    );
    let lhs = block(&[("m", &[1])]);
    let rhs = block(&[("m", &[2]), ("n", &[2]), ("o", &[2])]);
    let mut index = index_with(vec![lhs, rhs]);
    index.merge_task(0, 1).unwrap();
    assert_eq!(index.blocks_directory[2], block(&[("m", &[1, 2]), ("n", &[2]), ("o", &[2])]));
}

#[test]
fn a_block_that_ends_inside_a_record_is_an_error() {
    let good = block(&[("a", &[1]), ("b", &[2])]);
    let mut bad = block(&[("a", &[3]), ("c", &[3])]);
    bad.pop();
    let mut index = index_with(vec![good.clone(), bad.clone()]);
    assert_eq!(index.merge_task(0, 1), Err(DecodeError::UnexpectedEof));
    assert_eq!(index.blocks_directory.len(), 2);
    let mut index = index_with(vec![bad, good]);
    assert_eq!(index.merge_task(0, 1), Err(DecodeError::UnexpectedEof));
    assert_eq!(index.blocks_directory.len(), 2);
}

#[test]
fn blocks_merge_two_by_two_until_one_is_left() {
    let blocks = vec![
        block(&[("a", &[1]), ("b", &[1])]),
        block(&[("b", &[2]), ("c", &[2])]),
        block(&[("a", &[3]), ("c", &[3])]),
    ];
    let mut index = index_with(blocks);
    index.merge_blocks().unwrap();
    assert_eq!(index.count_of_written_blocks, 5);
    assert_eq!(index.blocks_directory.len(), 5);
    assert_eq!(index.blocks_directory[3], block(&[("a", &[1]), ("b", &[1, 2]), ("c", &[2])]));
    assert_eq!(
        index.blocks_directory[4],
        block(&[("a", &[1, 3]), ("b", &[1, 2]), ("c", &[2, 3])])
    );
}

#[test]
fn fewer_than_two_blocks_are_left_alone() {
    let mut index = index_with(Vec::new());
    index.merge_blocks().unwrap();
    assert_eq!(index.count_of_written_blocks, 0);
    let mut bad = block(&[("a", &[1])]);
    bad.pop();
    let mut index = index_with(vec![bad.clone()]);
    index.merge_blocks().unwrap();
    assert_eq!(index.blocks_directory, vec![bad]);
}

#[test]
fn merging_blocks_stops_at_a_damaged_block() {
    let mut bad = block(&[("a", &[3])]);
    bad.truncate(20);
    let blocks = vec![block(&[("a", &[1])]), block(&[("b", &[2])]), bad];
    let mut index = index_with(blocks);
    assert_eq!(index.merge_blocks(), Err(DecodeError::UnexpectedEof));
}

#[test]
fn rewrite_record_copies_the_postings() {
    let data = block(&[("ab", &[1, 2]), ("cd", &[3])]);
    let mut reader = Reader::new(&data);
    let (word, len) = reader.read_header().unwrap().unwrap();
    let mut out = Vec::new();
    InvertedIndex::rewrite_record(&mut out, &word, len, &mut reader).unwrap();
    assert_eq!(out, block(&[("ab", &[1, 2])]));
    assert_eq!(reader.pos, out.len());
    let mut out = Vec::new();
    assert_eq!(
        InvertedIndex::rewrite_record(&mut out, &word, 9, &mut reader),
        Err(DecodeError::UnexpectedEof)
    );
    assert!(out.is_empty());
}

#[test]
fn write_tail_copies_every_record_to_the_end() {
    let data = block(&[("a", &[1]), ("b", &[2, 3]), ("c", &[4])]);
    let mut reader = Reader::new(&data);
    let (word, len) = reader.read_header().unwrap().unwrap();
    let mut out = vec![9u8];
    InvertedIndex::write_tail(&mut out, word, len, &mut reader).unwrap();
    assert_eq!(out[0], 9);
    assert_eq!(out[1..].to_vec(), data);
    assert!(reader.at_end());
}

#[test]
fn write_tail_keeps_what_came_before_the_damage() {
    let mut data = block(&[("a", &[1]), ("b", &[2, 3])]);
    data.pop();
    let mut reader = Reader::new(&data);
    let (word, len) = reader.read_header().unwrap().unwrap();
    let mut out = Vec::new();
    assert_eq!(
        InvertedIndex::write_tail(&mut out, word, len, &mut reader),
        Err(DecodeError::UnexpectedEof)
    );
    assert_eq!(out, block(&[("a", &[1])]));
}

#[test]
fn merge_records_writes_one_record_for_both_sides() {
    let lhs = block(&[("t", &[1, 5])]);
    let rhs = block(&[("t", &[2, 3, 9])]);
    let mut lhs_reader = Reader::new(&lhs);
    let mut rhs_reader = Reader::new(&rhs);
    let (word, lhs_len) = lhs_reader.read_header().unwrap().unwrap();
    let (_, rhs_len) = rhs_reader.read_header().unwrap().unwrap();
    let mut out = Vec::new();
    InvertedIndex::merge_records(
        &mut out,
        &word,
        lhs_len,
        &mut lhs_reader,
        rhs_len,
        &mut rhs_reader,
    )
    .unwrap();
    assert_eq!(out, block(&[("t", &[1, 2, 3, 5, 9])]));
    assert!(lhs_reader.at_end());
    assert!(rhs_reader.at_end());
}

#[test]
fn merge_records_needs_all_postings_of_both_sides() {
    let lhs = block(&[("t", &[1, 5])]);
    let rhs = block(&[("t", &[2])]);
    let mut lhs_reader = Reader::new(&lhs);
    let mut rhs_reader = Reader::new(&rhs);
    let (word, lhs_len) = lhs_reader.read_header().unwrap().unwrap();
    rhs_reader.read_header().unwrap().unwrap();
    let mut out = Vec::new();
    assert_eq!(
        InvertedIndex::merge_records(&mut out, &word, lhs_len, &mut lhs_reader, 2, &mut rhs_reader),
        Err(DecodeError::UnexpectedEof)
    );
    assert!(out.is_empty());
    assert_eq!(lhs_reader.pos, 17);
}
