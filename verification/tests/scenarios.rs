use engine::boolean::intersect;
use engine::bytes::push_u64;
use engine::db::{Doc, DocId};
use engine::engine::{init_engine, Engine};
use engine::error::DecodeError;
use engine::index::create_index;
use engine::inverted_index::InvertedIndex;
use engine::ranking::{find_best, top_documents, Scored};
use engine::vectors::{common_terms, DocWeight, QueryWeight};

fn tf_weight(count: u64) -> u64 {
    (1.0 + (count as f64).log10()).to_bits()
}

fn idf(df: u64, n: u64) -> u64 {
    (n as f64 / df as f64).log10().to_bits()
}

fn score(q: &Vec<QueryWeight>, d: &Vec<DocWeight>, common: &Vec<(usize, usize)>) -> f64 {
    let qw: Vec<f64> = q
        .iter()
        .map(|w| (1.0 + (w.count as f64).log10()) * f64::from_bits(w.idf))
        .collect();
    let dw: Vec<f64> = d.iter().map(|w| f64::from_bits(w.tf) * f64::from_bits(w.idf)).collect();
    let qn = qw.iter().map(|x| x * x).sum::<f64>().sqrt();
    let dn = dw.iter().map(|x| x * x).sum::<f64>().sqrt();
    if qn == 0.0 || dn == 0.0 {
        return 0.0;
    }
    let mut dot = 0.0;
    for (i, j) in common {
        dot += (qw[*i] / qn) * (dw[*j] / dn);
    }
    dot
}

fn cosine(q: &Vec<QueryWeight>, d: &Vec<DocWeight>, common: &Vec<(usize, usize)>) -> u64 {
    score(q, d, common).to_bits()
}

fn id(byte: u8) -> DocId {
    DocId::from_bytes([byte; 12])
}

fn ids(bytes: &[u8]) -> Vec<DocId> {
    bytes.iter().map(|b| id(*b)).collect()
}

fn doc(byte: u8, words: &[&str]) -> Doc {
    Doc {
        _id: id(byte),
        title: String::new(),
        path: String::new(),
        words: words.iter().map(|w| w.to_string()).collect(),
    }
}

fn corpus() -> Vec<Doc> {
    vec![doc(1, &["a", "b", "a"]), doc(2, &["b", "c"]), doc(3, &["a", "c", "c"])]
}

fn built() -> Engine {
    init_engine(&corpus(), 3, tf_weight, idf)
}

fn query(words: &[&str]) -> Vec<String> {
    words.iter().map(|w| w.to_string()).collect()
}

fn terms(words: &[&str]) -> Vec<Vec<u8>> {
    words.iter().map(|w| w.as_bytes().to_vec()).collect()
}

#[test]
fn search_single_term_ranks_higher_tf_first() {
    let engine = built();
    assert_eq!(engine.find_candidates(&terms(&["a"])).unwrap(), Some(ids(&[1, 3])));
    let result = engine.search(query(&["a"]), cosine).unwrap();
    assert_eq!(result.len(), 2);
    assert_eq!(result[0], id(1));
    assert_eq!(result, ids(&[1, 3]));
}

#[test]
fn search_two_terms_keeps_the_documents_with_both() {
    let engine = built();
    assert_eq!(engine.find_candidates(&terms(&["a", "b"])).unwrap(), Some(ids(&[1])));
    assert_eq!(engine.search(query(&["a", "b"]), cosine).unwrap(), ids(&[1]));
}

#[test]
fn search_terms_without_a_common_document_finds_nothing() {
    let docs = vec![doc(1, &["a", "b", "a"]), doc(2, &["b", "c"]), doc(3, &["c", "c"])];
    let engine = init_engine(&docs, 3, tf_weight, idf);
    assert_eq!(engine.find_candidates(&terms(&["a", "c"])).unwrap(), Some(ids(&[])));
    assert_eq!(engine.search(query(&["a", "c"]), cosine).unwrap(), ids(&[]));
}

#[test]
fn search_a_and_c_finds_the_document_with_both() {
    let engine = built();
    assert_eq!(engine.find_candidates(&terms(&["a", "c"])).unwrap(), Some(ids(&[3])));
    assert_eq!(engine.search(query(&["a", "c"]), cosine).unwrap(), ids(&[3]));
}

#[test]
fn search_unknown_term_finds_nothing() {
    let engine = built();
    assert_eq!(engine.find_candidates(&terms(&["z"])).unwrap(), None);
    assert_eq!(engine.search(query(&["z"]), cosine).unwrap(), ids(&[]));
    assert_eq!(engine.search(query(&[]), cosine).unwrap(), ids(&[]));
}

#[test]
fn search_passes_over_unknown_terms() {
    let engine = built();
    assert_eq!(engine.find_candidates(&terms(&["a", "z"])).unwrap(), Some(ids(&[1, 3])));
    assert_eq!(
        engine.search(query(&["a", "z"]), cosine).unwrap(),
        engine.search(query(&["a"]), cosine).unwrap()
    );
    assert_eq!(engine.search(query(&["z", "a", "y"]), cosine).unwrap(), ids(&[1, 3]));
}

#[test]
fn search_b_and_c_finds_the_second_document() {
    let engine = built();
    assert_eq!(engine.find_candidates(&terms(&["b", "c"])).unwrap(), Some(ids(&[2])));
    assert_eq!(engine.search(query(&["b", "c"]), cosine).unwrap(), ids(&[2]));
}

#[test]
fn a_document_is_found_by_its_own_words_with_a_positive_score() {
    let docs = corpus();
    let engine = built();
    for d in &docs {
        let result = engine.search(d.words.clone(), cosine).unwrap();
        assert!(result.contains(&d._id));
        let q = engine.query_into_vec(&d.words);
        let v = engine.doc_into_vec(&d._id).unwrap();
        let common = common_terms(&q, &v);
        assert!(score(&q.values, &v.values, &common) > 0.0);
    }
}

#[test]
fn candidates_are_the_documents_in_every_known_posting_list() {
    let engine = built();
    for words in [vec!["a"], vec!["b"], vec!["a", "b"], vec!["b", "c", "z"], vec!["a", "b", "c"]] {
        let found = engine.find_candidates(&terms(&words)).unwrap().unwrap();
        for d in [1u8, 2, 3] {
            let in_all = words.iter().filter(|w| **w != "z").all(|w| {
                engine.get_posting_list(&w.as_bytes().to_vec()).unwrap().contains(&id(d))
            });
            assert_eq!(found.contains(&id(d)), in_all);
        }
    }
}

#[test]
fn repeated_query_words_count_in_the_query_vector() {
    let engine = built();
    let q = engine.query_into_vec(&query(&["c", "a", "c", "z", "c"]));
    assert_eq!(q.keys, terms(&["a", "c", "z"]));
    assert_eq!(q.values[0].count, 1);
    assert_eq!(q.values[1].count, 3);
    assert_eq!(q.values[2].count, 1);
    assert_eq!(q.values[0].idf, (1.5f64).log10().to_bits());
    assert_eq!(q.values[2].idf, 0);
    assert_eq!(engine.search(query(&["c", "a", "c", "z", "c"]), cosine).unwrap(), ids(&[3]));
}

#[test]
fn document_vector_holds_each_term_once() {
    let engine = built();
    let v = engine.doc_into_vec(&id(3)).unwrap();
    assert_eq!(v.keys, terms(&["a", "c"]));
    assert_eq!(f64::from_bits(v.values[0].tf), 1.0);
    assert_eq!(v.values[1].tf, (1.0 + 2.0f64.log10()).to_bits());
    assert_eq!(v.values[0].idf, (1.5f64).log10().to_bits());
    let q = engine.query_into_vec(&query(&["c", "b"]));
    assert_eq!(common_terms(&q, &v), vec![(1, 1)]);
}

#[test]
fn weights_of_the_three_documents() {
    let engine = built();
    let double = 1.0 + 2.0f64.log10();
    assert!((double - 1.3010).abs() < 1e-4);
    let d1 = engine.doc_into_vec(&id(1)).unwrap();
    assert_eq!(d1.keys, terms(&["a", "b"]));
    assert_eq!(f64::from_bits(d1.values[0].tf), double);
    assert_eq!(f64::from_bits(d1.values[1].tf), 1.0);
    let d2 = engine.doc_into_vec(&id(2)).unwrap();
    assert_eq!(d2.keys, terms(&["b", "c"]));
    assert_eq!(f64::from_bits(d2.values[0].tf), 1.0);
    assert_eq!(f64::from_bits(d2.values[1].tf), 1.0);
    let d3 = engine.doc_into_vec(&id(3)).unwrap();
    assert_eq!(d3.keys, terms(&["a", "c"]));
    assert_eq!(f64::from_bits(d3.values[0].tf), 1.0);
    assert_eq!(f64::from_bits(d3.values[1].tf), double);
    for v in [&d1, &d2, &d3] {
        for w in &v.values {
            assert!((f64::from_bits(w.idf) - 0.1761).abs() < 1e-4);
        }
    }
}

#[test]
fn posting_lists_are_read_at_their_offsets() {
    let engine = built();
    assert_eq!(engine.get_posting_list(&b"a".to_vec()).unwrap(), ids(&[1, 3]));
    assert_eq!(engine.get_posting_list(&b"b".to_vec()).unwrap(), ids(&[1, 2]));
    assert_eq!(engine.get_posting_list(&b"c".to_vec()).unwrap(), ids(&[2, 3]));
    assert_eq!(engine.intersec(&ids(&[1, 2, 3]), &b"c".to_vec()).unwrap(), ids(&[2, 3]));
    assert_eq!(engine.intersec(&ids(&[1]), &b"c".to_vec()).unwrap(), ids(&[]));
}

#[test]
fn no_more_than_top_n_documents_are_returned() {
    let docs: Vec<Doc> = (1..=30u8).map(|b| doc(b, &["w", "x"])).collect();
    let engine = init_engine(&docs, 60, tf_weight, idf);
    assert_eq!(engine.top_n, 20);
    let result = engine.search(query(&["w"]), cosine).unwrap();
    assert_eq!(result.len(), 20);
    let mut small = init_engine(&docs, 60, tf_weight, idf);
    small.top_n = 3;
    assert_eq!(small.search(query(&["w"]), cosine).unwrap().len(), 3);
    small.top_n = 0;
    assert_eq!(small.search(query(&["w"]), cosine).unwrap().len(), 0);
}

#[test]
fn cosine_of_a_document_with_its_own_words_is_one() {
    let engine = built();
    let q = engine.query_into_vec(&query(&["b", "c"]));
    let d2 = engine.doc_into_vec(&id(2)).unwrap();
    let common = common_terms(&q, &d2);
    assert_eq!(common, vec![(0, 0), (1, 1)]);
    assert!((score(&q.values, &d2.values, &common) - 1.0).abs() < 1e-12);
    let d1 = engine.doc_into_vec(&id(1)).unwrap();
    let common = common_terms(&q, &d1);
    assert_eq!(common, vec![(0, 1)]);
    let double = 1.0 + 2.0f64.log10();
    let want = (1.0 / 2.0f64.sqrt()) * (1.0 / (1.0 + double * double).sqrt());
    assert!((score(&q.values, &d1.values, &common) - want).abs() < 1e-12);
}

#[test]
fn an_inverted_head_with_a_term_that_is_not_utf8_is_not_loaded() {
    let mut head = Vec::new();
    push_u64(&mut head, 2);
    head.extend_from_slice(&[0xc3, 0x28]);
    push_u64(&mut head, 10);
    push_u64(&mut head, 0);
    let mut index = InvertedIndex::with_max_block_postings(10_000);
    assert_eq!(index.load(head.clone(), Vec::new()), Err(DecodeError::InvalidUtf8));
    assert!(index.head.keys.is_empty());
    head[8] = b'o';
    head[9] = b'k';
    assert_eq!(index.load(head, vec![1, 2, 3]), Ok(()));
    assert_eq!(index.head.keys, terms(&["ok"]));
    assert_eq!(index.head.values[0].offset, 10);
    assert_eq!(index.head.values[0].df, 0);
    assert_eq!(index.index_content_file, vec![1, 2, 3]);
}

#[test]
fn an_engine_knows_whether_its_head_is_in_order() {
    let mut engine = built();
    assert!(engine.is_wf());
    assert!(engine.inverted_index.head.is_wf());
    engine.inverted_index.head.keys.swap(0, 1);
    assert!(!engine.is_wf());
    engine.inverted_index.head.keys.swap(0, 1);
    engine.inverted_index.head.keys[1] = b"a".to_vec();
    assert!(!engine.is_wf());
    engine.inverted_index.head.keys[1] = b"b".to_vec();
    engine.inverted_index.head.values.pop();
    assert!(!engine.is_wf());
}

#[test]
fn terms_held_by_every_document_give_a_score_of_zero() {
    let docs = vec![doc(1, &["w"]), doc(2, &["w", "w"]), doc(3, &["w"])];
    let engine = init_engine(&docs, 3, tf_weight, idf);
    let q = engine.query_into_vec(&query(&["w"]));
    assert_eq!(f64::from_bits(q.values[0].idf), 0.0);
    let d = engine.doc_into_vec(&id(2)).unwrap();
    let common = common_terms(&q, &d);
    let s = score(&q.values, &d.values, &common);
    assert!(s.is_finite());
    assert_eq!(s, 0.0);
    assert_eq!(engine.search(query(&["w"]), cosine).unwrap(), ids(&[3, 2, 1]));
    let single = init_engine(&vec![doc(7, &["only", "one"])], 1, tf_weight, idf);
    assert_eq!(single.search(query(&["one"]), cosine).unwrap(), ids(&[7]));
}

#[test]
fn an_answer_holds_no_document_twice() {
    let engine = built();
    for words in [vec!["a"], vec!["a", "a"], vec!["b", "a", "b"], vec!["c", "z", "c"]] {
        let mut result = engine.search(query(&words), cosine).unwrap();
        let len = result.len();
        result.sort();
        result.dedup();
        assert_eq!(result.len(), len);
        let candidates = engine.find_candidates(&terms(&words)).unwrap().unwrap();
        assert_eq!(result, candidates);
    }
}

#[test]
fn unknown_words_do_not_change_the_answer() {
    let engine = built();
    for (with, without) in [
        (vec!["z", "a"], vec!["a"]),
        (vec!["a", "y", "b", "z"], vec!["a", "b"]),
        (vec!["q", "c", "q", "c"], vec!["c", "c"]),
        (vec!["z", "y"], vec![]),
    ] {
        assert_eq!(
            engine.find_candidates(&terms(&with)).unwrap(),
            engine.find_candidates(&terms(&without)).unwrap()
        );
        assert_eq!(
            engine.search(query(&with), cosine).unwrap(),
            engine.search(query(&without), cosine).unwrap()
        );
    }
}

#[test]
fn shared_documents_of_two_lists() {
    assert_eq!(intersect(&ids(&[1, 2, 4, 7]), &ids(&[2, 3, 4, 8])), ids(&[2, 4]));
    assert_eq!(intersect(&ids(&[1, 2]), &ids(&[])), ids(&[]));
    assert_eq!(intersect(&ids(&[]), &ids(&[1])), ids(&[]));
    assert_eq!(intersect(&ids(&[5]), &ids(&[5])), ids(&[5]));
    assert_eq!(intersect(&ids(&[1, 3, 5]), &ids(&[2, 4, 6])), ids(&[]));
}

#[test]
fn the_best_documents_come_first() {
    let scored = vec![
        Scored { score: 5, doc: id(1) },
        Scored { score: 9, doc: id(2) },
        Scored { score: 1, doc: id(3) },
        Scored { score: 9, doc: id(4) },
        Scored { score: 7, doc: id(5) },
    ];
    assert_eq!(find_best(&scored), 3);
    assert_eq!(top_documents(scored.clone(), 3), ids(&[4, 2, 5]));
    assert_eq!(top_documents(scored.clone(), 10), ids(&[4, 2, 5, 1, 3]));
    assert_eq!(top_documents(scored.clone(), 0), ids(&[]));
    assert_eq!(top_documents(Vec::new(), 4), ids(&[]));
}

#[test]
fn scores_are_ordered_as_their_bits() {
    let values = [0.0f64, 1e-300, 0.1761, 0.5, 1.0, 1.3010, 1e300];
    for pair in values.windows(2) {
        assert!(pair[0].to_bits() < pair[1].to_bits());
    }
    let scored: Vec<Scored> = values
        .iter()
        .enumerate()
        .map(|(i, v)| Scored { score: v.to_bits(), doc: id(i as u8) })
        .collect();
    assert_eq!(top_documents(scored, 2), ids(&[6, 5]));
}

#[test]
fn a_candidate_without_a_forward_record_is_an_error() {
    let mut engine = built();
    engine.forward_index = create_index();
    assert_eq!(engine.doc_into_vec(&id(1)), Err(DecodeError::Malformed));
    assert_eq!(engine.search(query(&["a"]), cosine), Err(DecodeError::Malformed));
    assert_eq!(engine.search(query(&["z"]), cosine), Ok(Vec::new()));
}

#[test]
fn a_forward_record_that_ends_early_is_an_error() {
    let mut engine = built();
    engine.forward_index.index_content_file.truncate(150);
    assert!(engine.doc_into_vec(&id(1)).is_ok());
    assert_eq!(engine.doc_into_vec(&id(3)), Err(DecodeError::UnexpectedEof));
    assert_eq!(engine.search(query(&["b"]), cosine).unwrap(), ids(&[2, 1]));
    assert_eq!(engine.search(query(&["c"]), cosine), Err(DecodeError::UnexpectedEof));
    engine.forward_index.index_content_file.truncate(4);
    assert_eq!(engine.doc_into_vec(&id(1)), Err(DecodeError::UnexpectedEof));
}

#[test]
fn a_term_that_is_not_utf8_is_an_error() {
    let mut engine = built();
    assert!(engine.doc_into_vec(&id(2)).is_ok());
    let at = 59 + 8 + 8;
    assert_eq!(engine.forward_index.index_content_file[at], b'b');
    engine.forward_index.index_content_file[at] = 0xff;
    assert_eq!(engine.doc_into_vec(&id(2)), Err(DecodeError::InvalidUtf8));
    assert!(engine.doc_into_vec(&id(1)).is_ok());
    assert_eq!(engine.search(query(&["c"]), cosine), Err(DecodeError::InvalidUtf8));
}

#[test]
fn words_beyond_ascii_are_indexed_by_their_bytes() {
    let docs = vec![doc(1, &["naïve", "日本語"]), doc(2, &["日本語", "x"])];
    let engine = init_engine(&docs, 2, tf_weight, idf);
    assert_eq!(engine.search(query(&["naïve"]), cosine).unwrap(), ids(&[1]));
    assert_eq!(engine.find_candidates(&terms(&["日本語"])).unwrap(), Some(ids(&[1, 2])));
    assert!(engine.doc_into_vec(&id(1)).is_ok());
}

#[test]
fn a_posting_list_that_ends_early_is_an_error() {
    let mut engine = built();
    engine.inverted_index.index_content_file.truncate(100);
    assert_eq!(engine.get_posting_list(&b"a".to_vec()).unwrap(), ids(&[1, 3]));
    assert_eq!(engine.get_posting_list(&b"c".to_vec()), Err(DecodeError::UnexpectedEof));
    assert_eq!(engine.find_candidates(&terms(&["a", "c"])), Err(DecodeError::UnexpectedEof));
    assert_eq!(engine.search(query(&["c"]), cosine), Err(DecodeError::UnexpectedEof));
    engine.inverted_index.index_content_file.truncate(4);
    assert_eq!(engine.get_posting_list(&b"a".to_vec()), Err(DecodeError::UnexpectedEof));
}

#[test]
fn an_engine_over_loaded_indexes_answers_as_the_built_one() {
    let first = built();
    let mut forward = create_index();
    forward
        .load(
            first.forward_index.index_head_file.clone(),
            first.forward_index.index_content_file.clone(),
        )
        .unwrap();
    let mut inverted = InvertedIndex::with_max_block_postings(10_000);
    inverted
        .load(
            first.inverted_index.index_head_file.clone(),
            first.inverted_index.index_content_file.clone(),
        )
        .unwrap();
    let engine = Engine { top_n: 20, forward_index: forward, inverted_index: inverted };
    for words in [vec!["a"], vec!["a", "b"], vec!["z"], vec!["b", "c"], vec!["c", "c", "a"]] {
        assert_eq!(
            engine.search(query(&words), cosine).unwrap(),
            first.search(query(&words), cosine).unwrap()
        );
    }
    let mut bytes = Vec::new();
    push_u64(&mut bytes, 9);
    let mut inverted = InvertedIndex::with_max_block_postings(10_000);
    assert_eq!(inverted.load(bytes, Vec::new()), Err(DecodeError::UnexpectedEof));
}
