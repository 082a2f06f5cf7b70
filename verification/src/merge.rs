//! Merging two blocks into one.

use crate::bytes::{be_u64, compare_bytes, lex_lt, push_range, push_u64, Sign};
use crate::db::{encode_doc_id, push_doc_id, read_doc_id, DocId};
use crate::error::DecodeError;
use crate::inverted_index::InvertedIndex;
use crate::record::{
    encode_ids, encode_record, encode_records, ids_at, lemma_encode_ids_at,
    lemma_encode_records_push, parse_record_at, parse_records_from, whole_records_from, Reader,
    Record,
};
use vstd::prelude::*;

verus! {

/// Two posting lists as one: the smaller first identifier leaves first, the
/// right one where neither is smaller, and what is left of one side follows
/// when the other is used up.
pub open spec fn merge_postings(a: Seq<DocId>, b: Seq<DocId>) -> Seq<DocId>
    decreases a.len() + b.len(),
{
    if a.len() == 0 {
        b
    } else if b.len() == 0 {
        a
    } else if a[0].key() < b[0].key() {
        seq![a[0]] + merge_postings(a.skip(1), b)
    } else {
        seq![b[0]] + merge_postings(a, b.skip(1))
    }
}

/// Two sequences of records as one: the record with the smaller first term
/// leaves first; where the first terms are equal the two records leave as
/// one, with their posting lists merged.
pub open spec fn merge_records(l: Seq<Record>, r: Seq<Record>) -> Seq<Record>
    decreases l.len() + r.len(),
{
    if l.len() == 0 {
        r
    } else if r.len() == 0 {
        l
    } else if lex_lt(l[0].term, r[0].term) {
        seq![l[0]] + merge_records(l.skip(1), r)
    } else if lex_lt(r[0].term, l[0].term) {
        seq![r[0]] + merge_records(l, r.skip(1))
    } else {
        seq![Record { term: l[0].term, postings: merge_postings(l[0].postings, r[0].postings) }]
            + merge_records(l.skip(1), r.skip(1))
    }
}

/// The merged records of what stands in `lhs` from `lp` on and in `rhs`
/// from `rp` on; `None` if either ends inside a record.
pub open spec fn merged_from(lhs: Seq<u8>, lp: int, rhs: Seq<u8>, rp: int) -> Option<
    Seq<Record>,
> {
    match (parse_records_from(lhs, lp), parse_records_from(rhs, rp)) {
        (Some(l), Some(r)) => Some(merge_records(l, r)),
        _ => None,
    }
}

/// `done` in front of `rest`, if there is a rest.
pub open spec fn prepend(done: Seq<Record>, rest: Option<Seq<Record>>) -> Option<Seq<Record>> {
    match rest {
        Some(m) => Some(done + m),
        None => None,
    }
}

/// The records from the one whose header was read to the end of the data:
/// the record with the given term and `len` postings at `pos`, then what
/// follows it. `None` if the data ends inside a record.
pub open spec fn tail_records(word: Seq<u8>, len: u64, data: Seq<u8>, pos: int) -> Option<
    Seq<Record>,
> {
    if pos + 12 * len > data.len() {
        None
    } else {
        prepend(
            seq![Record { term: word, postings: ids_at(data, pos, len as int) }],
            parse_records_from(data, pos + 12 * len),
        )
    }
}

/// The records from the one whose header was read last that stand in the
/// data before it ends: the record with the given term and `len` postings
/// at `pos`, if the data holds it to its last posting, and the records
/// behind it.
pub open spec fn tail_whole_records(word: Seq<u8>, len: u64, data: Seq<u8>, pos: int) -> Seq<
    Record,
> {
    if pos + 12 * len > data.len() {
        Seq::empty()
    } else {
        seq![Record { term: word, postings: ids_at(data, pos, len as int) }] + whole_records_from(
            data,
            pos + 12 * len,
        )
    }
}

/// The bytes of two posting lists, one behind the other.
pub proof fn lemma_encode_ids_concat(a: Seq<DocId>, b: Seq<DocId>)
    ensures
        encode_ids(a + b) == encode_ids(a) + encode_ids(b),
    decreases b.len(),
{
    if b.len() == 0 {
        assert(a + b =~= a);
        assert(encode_ids(a) + encode_ids(b) =~= encode_ids(a));
    } else {
        lemma_encode_ids_concat(a, b.drop_last());
        assert((a + b).drop_last() =~= a + b.drop_last());
        assert((a + b).last() == b.last());
        assert(encode_ids(a + b) =~= encode_ids(a) + encode_ids(b));
    }
}

/// The merged list holds as many identifiers as the two lists together.
pub proof fn lemma_merge_postings_len(a: Seq<DocId>, b: Seq<DocId>)
    ensures
        merge_postings(a, b).len() == a.len() + b.len(),
    decreases a.len() + b.len(),
{
    if a.len() > 0 && b.len() > 0 {
        if a[0].key() < b[0].key() {
            lemma_merge_postings_len(a.skip(1), b);
        } else {
            lemma_merge_postings_len(a, b.skip(1));
        }
    }
}

/// The bytes of two sequences of records, one behind the other.
pub proof fn lemma_encode_records_concat(a: Seq<Record>, b: Seq<Record>)
    ensures
        encode_records(a + b) == encode_records(a) + encode_records(b),
    decreases b.len(),
{
    if b.len() == 0 {
        assert(a + b =~= a);
        assert(encode_records(a) + encode_records(b) =~= encode_records(a));
    } else {
        lemma_encode_records_concat(a, b.drop_last());
        assert((a + b).drop_last() =~= a + b.drop_last());
        assert((a + b).last() == b.last());
        assert(encode_records(a + b) =~= encode_records(a) + encode_records(b));
    }
}

/// One step of the merge of two posting lists in which the left
/// identifier leaves.
proof fn lemma_merge_postings_left(a: Seq<DocId>, b: Seq<DocId>, i: int, j: int, out: Seq<DocId>)
    requires
        0 <= i < a.len(),
        0 <= j < b.len(),
        a[i].key() < b[j].key(),
        out + merge_postings(a.skip(i), b.skip(j)) == merge_postings(a, b),
    ensures
        out.push(a[i]) + merge_postings(a.skip(i + 1), b.skip(j)) == merge_postings(a, b),
{
    assert(a.skip(i)[0] == a[i]);
    assert(b.skip(j)[0] == b[j]);
    assert(a.skip(i).skip(1) =~= a.skip(i + 1));
    assert(out.push(a[i]) + merge_postings(a.skip(i + 1), b.skip(j)) =~= out + merge_postings(
        a.skip(i),
        b.skip(j),
    ));
}

/// One step of the merge of two posting lists in which the right
/// identifier leaves.
proof fn lemma_merge_postings_right(a: Seq<DocId>, b: Seq<DocId>, i: int, j: int, out: Seq<DocId>)
    requires
        0 <= i < a.len(),
        0 <= j < b.len(),
        !(a[i].key() < b[j].key()),
        out + merge_postings(a.skip(i), b.skip(j)) == merge_postings(a, b),
    ensures
        out.push(b[j]) + merge_postings(a.skip(i), b.skip(j + 1)) == merge_postings(a, b),
{
    assert(a.skip(i)[0] == a[i]);
    assert(b.skip(j)[0] == b[j]);
    assert(b.skip(j).skip(1) =~= b.skip(j + 1));
    assert(out.push(b[j]) + merge_postings(a.skip(i), b.skip(j + 1)) =~= out + merge_postings(
        a.skip(i),
        b.skip(j),
    ));
}

/// Once one of two posting lists is used up, what is merged from there on
/// is what is left of the other.
proof fn lemma_merge_postings_rest(a: Seq<DocId>, b: Seq<DocId>, i: int, j: int)
    requires
        0 <= i <= a.len(),
        0 <= j <= b.len(),
        i == a.len() || j == b.len(),
    ensures
        merge_postings(a.skip(i), b.skip(j)) == a.skip(i) + b.skip(j),
{
    let rest_a = a.skip(i);
    let rest_b = b.skip(j);
    if rest_a.len() == 0 {
        assert(rest_a + rest_b =~= rest_b);
    } else {
        assert(rest_a + rest_b =~= rest_a);
    }
}

/// What a writer holds once the postings of two lists have been merged
/// into it up to the end of one list and the rest of the other list has
/// been copied behind them.
proof fn lemma_merge_written(
    ldata: Seq<u8>,
    lstart: int,
    ln: int,
    rdata: Seq<u8>,
    rstart: int,
    rn: int,
    i: int,
    j: int,
    out: Seq<DocId>,
    base: Seq<u8>,
    after: Seq<u8>,
)
    requires
        0 <= lstart,
        0 <= rstart,
        0 <= i <= ln,
        0 <= j <= rn,
        i == ln || j == rn,
        lstart + 12 * ln <= ldata.len(),
        rstart + 12 * rn <= rdata.len(),
        out + merge_postings(ids_at(ldata, lstart, ln).skip(i), ids_at(rdata, rstart, rn).skip(j))
            == merge_postings(ids_at(ldata, lstart, ln), ids_at(rdata, rstart, rn)),
        after == base + encode_ids(out) + ldata.subrange(lstart + 12 * i, lstart + 12 * ln)
            + rdata.subrange(rstart + 12 * j, rstart + 12 * rn),
    ensures
        after == base + encode_ids(
            merge_postings(ids_at(ldata, lstart, ln), ids_at(rdata, rstart, rn)),
        ),
{
    let a = ids_at(ldata, lstart, ln);
    let b = ids_at(rdata, rstart, rn);
    let rest_a = a.skip(i);
    let rest_b = b.skip(j);
    lemma_encode_ids_at(ldata, lstart + 12 * i, ln - i);
    lemma_encode_ids_at(rdata, rstart + 12 * j, rn - j);
    assert(ids_at(ldata, lstart + 12 * i, ln - i) =~= rest_a);
    assert(ids_at(rdata, rstart + 12 * j, rn - j) =~= rest_b);
    lemma_merge_postings_rest(a, b, i, j);
    lemma_encode_ids_concat(rest_a, rest_b);
    lemma_encode_ids_concat(out, rest_a + rest_b);
    assert(after =~= base + encode_ids(merge_postings(a, b)));
}

/// What a writer holds once the parts of a record have been appended to it.
proof fn lemma_record_bytes(before: Seq<u8>, word: Seq<u8>, postings: Seq<DocId>, after: Seq<u8>)
    requires
        after == before + be_u64(word.len() as u64) + word.subrange(0, word.len() as int) + be_u64(
            postings.len() as u64,
        ) + encode_ids(postings),
    ensures
        after == before + encode_record(Record { term: word, postings }),
{
    assert(word.subrange(0, word.len() as int) =~= word);
    assert(after =~= before + encode_record(Record { term: word, postings }));
}

/// One step of the merge of two blocks in which the left record leaves.
proof fn lemma_step_less(
    lhs: Seq<u8>,
    ls: int,
    rhs: Seq<u8>,
    rs: int,
    done: Seq<Record>,
    total: Option<Seq<Record>>,
)
    requires
        0 <= ls < lhs.len(),
        0 <= rs < rhs.len(),
        parse_record_at(lhs, ls) is Some,
        parse_record_at(rhs, rs) is Some,
        lex_lt(parse_record_at(lhs, ls).unwrap().0.term, parse_record_at(rhs, rs).unwrap().0.term),
        total == prepend(done, merged_from(lhs, ls, rhs, rs)),
    ensures
        total == prepend(
            done.push(parse_record_at(lhs, ls).unwrap().0),
            merged_from(lhs, parse_record_at(lhs, ls).unwrap().1, rhs, rs),
        ),
{
    lemma_merge_step(lhs, ls, rhs, rs);
    let (lrec, lnext) = parse_record_at(lhs, ls).unwrap();
    let rest = merged_from(lhs, lnext, rhs, rs);
    if rest is Some {
        assert(done + (seq![lrec] + rest.unwrap()) =~= done.push(lrec) + rest.unwrap());
    }
}

/// One step of the merge of two blocks in which the right record leaves.
proof fn lemma_step_greater(
    lhs: Seq<u8>,
    ls: int,
    rhs: Seq<u8>,
    rs: int,
    done: Seq<Record>,
    total: Option<Seq<Record>>,
)
    requires
        0 <= ls < lhs.len(),
        0 <= rs < rhs.len(),
        parse_record_at(lhs, ls) is Some,
        parse_record_at(rhs, rs) is Some,
        lex_lt(parse_record_at(rhs, rs).unwrap().0.term, parse_record_at(lhs, ls).unwrap().0.term),
        total == prepend(done, merged_from(lhs, ls, rhs, rs)),
    ensures
        total == prepend(
            done.push(parse_record_at(rhs, rs).unwrap().0),
            merged_from(lhs, ls, rhs, parse_record_at(rhs, rs).unwrap().1),
        ),
{
    lemma_merge_step(lhs, ls, rhs, rs);
    crate::bytes::lemma_lex_trichotomy(
        parse_record_at(lhs, ls).unwrap().0.term,
        parse_record_at(rhs, rs).unwrap().0.term,
    );
    let (rrec, rnext) = parse_record_at(rhs, rs).unwrap();
    let rest = merged_from(lhs, ls, rhs, rnext);
    if rest is Some {
        assert(done + (seq![rrec] + rest.unwrap()) =~= done.push(rrec) + rest.unwrap());
    }
}

/// One step of the merge of two blocks in which the two records leave as
/// one.
proof fn lemma_step_equal(
    lhs: Seq<u8>,
    ls: int,
    rhs: Seq<u8>,
    rs: int,
    done: Seq<Record>,
    total: Option<Seq<Record>>,
)
    requires
        0 <= ls < lhs.len(),
        0 <= rs < rhs.len(),
        parse_record_at(lhs, ls) is Some,
        parse_record_at(rhs, rs) is Some,
        parse_record_at(rhs, rs).unwrap().0.term == parse_record_at(lhs, ls).unwrap().0.term,
        total == prepend(done, merged_from(lhs, ls, rhs, rs)),
    ensures
        total == prepend(
            done.push(
                Record {
                    term: parse_record_at(lhs, ls).unwrap().0.term,
                    postings: merge_postings(
                        parse_record_at(lhs, ls).unwrap().0.postings,
                        parse_record_at(rhs, rs).unwrap().0.postings,
                    ),
                },
            ),
            merged_from(
                lhs,
                parse_record_at(lhs, ls).unwrap().1,
                rhs,
                parse_record_at(rhs, rs).unwrap().1,
            ),
        ),
{
    lemma_merge_step(lhs, ls, rhs, rs);
    crate::bytes::lemma_lex_trichotomy(
        parse_record_at(lhs, ls).unwrap().0.term,
        parse_record_at(rhs, rs).unwrap().0.term,
    );
    let (lrec, lnext) = parse_record_at(lhs, ls).unwrap();
    let (rrec, rnext) = parse_record_at(rhs, rs).unwrap();
    let both = Record { term: lrec.term, postings: merge_postings(lrec.postings, rrec.postings) };
    let rest = merged_from(lhs, lnext, rhs, rnext);
    if rest is Some {
        assert(done + (seq![both] + rest.unwrap()) =~= done.push(both) + rest.unwrap());
    }
}

/// After the loop of the merge one side is used up, and what is merged
/// from there on is what the other side still holds.
proof fn lemma_merge_one_side(lhs: Seq<u8>, ls: int, rhs: Seq<u8>, rs: int)
    requires
        0 <= ls <= lhs.len(),
        0 <= rs <= rhs.len(),
        ls == lhs.len() || rs == rhs.len(),
    ensures
        rs == rhs.len() ==> merged_from(lhs, ls, rhs, rs) == parse_records_from(lhs, ls),
        ls == lhs.len() ==> merged_from(lhs, ls, rhs, rs) == parse_records_from(rhs, rs),
{
    if rs == rhs.len() {
        if parse_records_from(lhs, ls) is Some {
            lemma_merge_right_done(parse_records_from(lhs, ls).unwrap());
        }
    }
    if ls == lhs.len() {
        if parse_records_from(rhs, rs) is Some {
            lemma_merge_left_done(parse_records_from(rhs, rs).unwrap());
        }
    }
}

/// The bytes of a posting list with one more identifier behind it.
proof fn lemma_encode_ids_push(a: Seq<DocId>, d: DocId)
    ensures
        encode_ids(a.push(d)) == encode_ids(a) + encode_doc_id(d),
{
    assert(a.push(d).drop_last() =~= a);
}

/// The reader stands behind the header of the record that starts at
/// `start`, and `head` is that header; or there is no record at `start`,
/// where the data ends, and `head` is `None`.
pub open spec fn reader_holds(
    data: Seq<u8>,
    pos: int,
    head: Option<(Vec<u8>, u64)>,
    start: int,
) -> bool {
    match head {
        None => start == data.len() && pos == start,
        Some((word, len)) => {
            &&& 0 <= start < data.len()
            &&& parse_record_at(data, start) is Some
            &&& parse_record_at(data, start).unwrap().0.term == word@
            &&& parse_record_at(data, start).unwrap().0.postings.len() == len
            &&& pos == start + 16 + word@.len()
            &&& parse_record_at(data, start).unwrap().1 == pos + 12 * len
        },
    }
}

/// Behind the header of the record that starts at `start`, the records
/// from the one whose header was read are the records from `start` on.
proof fn lemma_tail_is_rest(word: Seq<u8>, len: u64, data: Seq<u8>, pos: int, start: int)
    requires
        0 <= start < data.len(),
        parse_record_at(data, start) is Some,
        parse_record_at(data, start).unwrap().0.term == word,
        parse_record_at(data, start).unwrap().0.postings.len() == len,
        pos == start + 16 + word.len(),
        parse_record_at(data, start).unwrap().1 == pos + 12 * len,
    ensures
        tail_records(word, len, data, pos) == parse_records_from(data, start),
        tail_whole_records(word, len, data, pos) == whole_records_from(data, start),
{
    let rec = parse_record_at(data, start).unwrap().0;
    assert(rec.postings =~= ids_at(data, pos, len as int));
    assert(rec.term == word);
    assert(rec == Record { term: word, postings: ids_at(data, pos, len as int) });
}

/// Nothing merged with records is those records.
proof fn lemma_merge_left_done(r: Seq<Record>)
    ensures
        merge_records(Seq::<Record>::empty(), r) == r,
{
}

/// Records merged with nothing are those records.
proof fn lemma_merge_right_done(l: Seq<Record>)
    ensures
        merge_records(l, Seq::<Record>::empty()) == l,
{
    if l.len() == 0 {
        assert(l =~= Seq::<Record>::empty());
    }
}

/// One step of the merge, seen from the bytes: where a record starts on
/// both sides, what is merged from there on is the record that the
/// comparison of the two terms lets leave, and then what is merged from
/// behind it.
proof fn lemma_merge_step(lhs: Seq<u8>, ls: int, rhs: Seq<u8>, rs: int)
    requires
        0 <= ls < lhs.len(),
        0 <= rs < rhs.len(),
        parse_record_at(lhs, ls) is Some,
        parse_record_at(rhs, rs) is Some,
    ensures
        ({
            let (lrec, lnext) = parse_record_at(lhs, ls).unwrap();
            let (rrec, rnext) = parse_record_at(rhs, rs).unwrap();
            merged_from(lhs, ls, rhs, rs) == if lex_lt(lrec.term, rrec.term) {
                prepend(seq![lrec], merged_from(lhs, lnext, rhs, rs))
            } else if lex_lt(rrec.term, lrec.term) {
                prepend(seq![rrec], merged_from(lhs, ls, rhs, rnext))
            } else {
                prepend(
                    seq![
                        Record {
                            term: lrec.term,
                            postings: merge_postings(lrec.postings, rrec.postings),
                        },
                    ],
                    merged_from(lhs, lnext, rhs, rnext),
                )
            }
        }),
{
    let (lrec, lnext) = parse_record_at(lhs, ls).unwrap();
    let (rrec, rnext) = parse_record_at(rhs, rs).unwrap();
    let lrest = parse_records_from(lhs, lnext);
    let rrest = parse_records_from(rhs, rnext);
    if lrest is Some && rrest is Some {
        let l = seq![lrec] + lrest.unwrap();
        let r = seq![rrec] + rrest.unwrap();
        assert(parse_records_from(lhs, ls) == Some(l));
        assert(parse_records_from(rhs, rs) == Some(r));
        assert(l.skip(1) =~= lrest.unwrap());
        assert(r.skip(1) =~= rrest.unwrap());
        assert(l[0] == lrec && r[0] == rrec);
    }
}

impl InvertedIndex {
    /// Appends the record of `word` and `posting_list` to `writer`.
    pub fn write_inverted_index_record_to_disk(
        writer: &mut Vec<u8>,
        word: &Vec<u8>,
        posting_list: &Vec<DocId>,
    )
        ensures
            final(writer)@ == old(writer)@ + encode_record(
                Record { term: word@, postings: posting_list@ },
            ),
    {
        push_u64(writer, word.len() as u64);
        push_range(writer, word.as_slice(), 0, word.len());
        push_u64(writer, posting_list.len() as u64);
        let ghost base = writer@;
        let mut i: usize = 0;
        while i < posting_list.len()
            invariant
                i <= posting_list@.len(),
                writer@ == base + encode_ids(posting_list@.take(i as int)),
            decreases posting_list.len() - i,
        {
            push_doc_id(writer, posting_list[i]);
            proof {
                lemma_encode_ids_push(posting_list@.take(i as int), posting_list@[i as int]);
                assert(posting_list@.take(i as int).push(posting_list@[i as int])
                    =~= posting_list@.take(i + 1));
            }
            i = i + 1;
        }
        proof {
            assert(posting_list@.take(i as int) =~= posting_list@);
            assert(word@.subrange(0, word@.len() as int) =~= word@);
            assert(writer@ =~= old(writer)@ + encode_record(
                Record { term: word@, postings: posting_list@ },
            ));
        }
    }

    /// Appends to `writer` the record of `word` whose `len` postings stand
    /// at the reader's position, and moves the reader behind them. Where
    /// the data ends before the last of them, nothing is written or read.
    pub fn rewrite_record(
        writer: &mut Vec<u8>,
        word: &Vec<u8>,
        len: u64,
        reader: &mut Reader,
    ) -> (r: Result<(), DecodeError>)
        requires
            old(reader).wf(),
        ensures
            final(reader).wf(),
            final(reader).data@ == old(reader).data@,
            old(reader).pos + 12 * len <= old(reader).data@.len() ==> {
                &&& r is Ok
                &&& final(reader).pos == old(reader).pos + 12 * len
                &&& final(writer)@ == old(writer)@ + encode_record(
                    Record {
                        term: word@,
                        postings: ids_at(old(reader).data@, old(reader).pos as int, len as int),
                    },
                )
            },
            old(reader).pos + 12 * len > old(reader).data@.len() ==> {
                &&& r == Err::<(), DecodeError>(DecodeError::UnexpectedEof)
                &&& final(reader).pos == old(reader).pos
                &&& final(writer)@ == old(writer)@
            },
    {
        let room = reader.data.len() - reader.pos;
        if len > (room / 12) as u64 {
            return Err(DecodeError::UnexpectedEof);
        }
        let bytes = (len as usize) * 12;
        push_u64(writer, word.len() as u64);
        push_range(writer, word.as_slice(), 0, word.len());
        push_u64(writer, len);
        push_range(writer, reader.data, reader.pos, reader.pos + bytes);
        proof {
            lemma_encode_ids_at(reader.data@, reader.pos as int, len as int);
            assert(word@.subrange(0, word@.len() as int) =~= word@);
            assert(writer@ =~= old(writer)@ + encode_record(
                Record {
                    term: word@,
                    postings: ids_at(old(reader).data@, old(reader).pos as int, len as int),
                },
            ));
        }
        reader.pos = reader.pos + bytes;
        Ok(())
    }

    /// Appends to `writer` one record for `word`, whose postings are the
    /// `lhs_len` postings at the position of `lhs_reader` merged with the
    /// `rhs_len` postings at the position of `rhs_reader`, and moves both
    /// readers behind their postings. Where either side ends before its
    /// last posting, nothing is written or read.
    pub fn merge_records(
        writer: &mut Vec<u8>,
        word: &Vec<u8>,
        lhs_len: u64,
        lhs_reader: &mut Reader,
        rhs_len: u64,
        rhs_reader: &mut Reader,
    ) -> (r: Result<(), DecodeError>)
        requires
            old(lhs_reader).wf(),
            old(rhs_reader).wf(),
        ensures
            final(lhs_reader).wf(),
            final(rhs_reader).wf(),
            final(lhs_reader).data@ == old(lhs_reader).data@,
            final(rhs_reader).data@ == old(rhs_reader).data@,
            (old(lhs_reader).pos + 12 * lhs_len <= old(lhs_reader).data@.len() && old(
                rhs_reader,
            ).pos + 12 * rhs_len <= old(rhs_reader).data@.len()) ==> {
                &&& r is Ok
                &&& final(lhs_reader).pos == old(lhs_reader).pos + 12 * lhs_len
                &&& final(rhs_reader).pos == old(rhs_reader).pos + 12 * rhs_len
                &&& final(writer)@ == old(writer)@ + encode_record(
                    Record {
                        term: word@,
                        postings: merge_postings(
                            ids_at(
                                old(lhs_reader).data@,
                                old(lhs_reader).pos as int,
                                lhs_len as int,
                            ),
                            ids_at(
                                old(rhs_reader).data@,
                                old(rhs_reader).pos as int,
                                rhs_len as int,
                            ),
                        ),
                    },
                )
            },
            !(old(lhs_reader).pos + 12 * lhs_len <= old(lhs_reader).data@.len() && old(
                rhs_reader,
            ).pos + 12 * rhs_len <= old(rhs_reader).data@.len()) ==> {
                &&& r == Err::<(), DecodeError>(DecodeError::UnexpectedEof)
                &&& final(lhs_reader).pos == old(lhs_reader).pos
                &&& final(rhs_reader).pos == old(rhs_reader).pos
                &&& final(writer)@ == old(writer)@
            },
    {
        let lhs_room = lhs_reader.data.len() - lhs_reader.pos;
        let rhs_room = rhs_reader.data.len() - rhs_reader.pos;
        if lhs_len > (lhs_room / 12) as u64 || rhs_len > (rhs_room / 12) as u64 {
            return Err(DecodeError::UnexpectedEof);
        }
        let lhs_start = lhs_reader.pos;
        let rhs_start = rhs_reader.pos;
        let lhs_count = lhs_len as usize;
        let rhs_count = rhs_len as usize;
        let ghost a = ids_at(lhs_reader.data@, lhs_start as int, lhs_len as int);
        let ghost b = ids_at(rhs_reader.data@, rhs_start as int, rhs_len as int);
        push_u64(writer, word.len() as u64);
        push_range(writer, word.as_slice(), 0, word.len());
        push_u64(writer, lhs_len + rhs_len);
        let ghost base = writer@;
        let ghost mut out: Seq<DocId> = Seq::empty();
        let mut i: usize = 0;
        let mut j: usize = 0;
        proof {
            assert(a.skip(0) =~= a);
            assert(b.skip(0) =~= b);
            assert(out + merge_postings(a, b) =~= merge_postings(a, b));
        }
        while i < lhs_count && j < rhs_count
            invariant
                lhs_reader.wf(),
                rhs_reader.wf(),
                lhs_reader.data@.len() <= usize::MAX,
                rhs_reader.data@.len() <= usize::MAX,
                lhs_reader.pos == lhs_start,
                rhs_reader.pos == rhs_start,
                lhs_start + 12 * lhs_count <= lhs_reader.data@.len(),
                rhs_start + 12 * rhs_count <= rhs_reader.data@.len(),
                a == ids_at(lhs_reader.data@, lhs_start as int, lhs_count as int),
                b == ids_at(rhs_reader.data@, rhs_start as int, rhs_count as int),
                i <= lhs_count,
                j <= rhs_count,
                writer@ == base + encode_ids(out),
                out + merge_postings(a.skip(i as int), b.skip(j as int)) == merge_postings(a, b),
            decreases lhs_count - i + rhs_count - j,
        {
            let x = read_doc_id(lhs_reader.data, lhs_start + 12 * i);
            let y = read_doc_id(rhs_reader.data, rhs_start + 12 * j);
            if x.precedes(&y) {
                push_doc_id(writer, x);
                proof {
                    lemma_encode_ids_push(out, x);
                    lemma_merge_postings_left(a, b, i as int, j as int, out);
                    out = out.push(x);
                }
                i = i + 1;
            } else {
                push_doc_id(writer, y);
                proof {
                    lemma_encode_ids_push(out, y);
                    lemma_merge_postings_right(a, b, i as int, j as int, out);
                    out = out.push(y);
                }
                j = j + 1;
            }
        }
        push_range(writer, lhs_reader.data, lhs_start + 12 * i, lhs_start + 12 * lhs_count);
        push_range(writer, rhs_reader.data, rhs_start + 12 * j, rhs_start + 12 * rhs_count);
        proof {
            lemma_merge_written(
                lhs_reader.data@,
                lhs_start as int,
                lhs_count as int,
                rhs_reader.data@,
                rhs_start as int,
                rhs_count as int,
                i as int,
                j as int,
                out,
                base,
                writer@,
            );
            lemma_merge_postings_len(a, b);
            lemma_record_bytes(old(writer)@, word@, merge_postings(a, b), writer@);
        }
        lhs_reader.pos = lhs_start + 12 * lhs_count;
        rhs_reader.pos = rhs_start + 12 * rhs_count;
        Ok(())
    }

    /// Appends to `writer` the record whose header was read last, with
    /// term `word` and `len` postings at the reader's position, and every
    /// record that follows it, to the end of the data. Where the data ends
    /// inside a record, the records before that one are written and the
    /// result is an error.
    pub fn write_tail(writer: &mut Vec<u8>, word: Vec<u8>, len: u64, reader: &mut Reader) -> (r:
        Result<(), DecodeError>)
        requires
            old(reader).wf(),
        ensures
            final(reader).wf(),
            final(reader).data@ == old(reader).data@,
            final(writer)@ == old(writer)@ + encode_records(
                tail_whole_records(word@, len, old(reader).data@, old(reader).pos as int),
            ),
            match tail_records(word@, len, old(reader).data@, old(reader).pos as int) {
                Some(rs) => {
                    &&& r is Ok
                    &&& rs == tail_whole_records(
                        word@,
                        len,
                        old(reader).data@,
                        old(reader).pos as int,
                    )
                    &&& final(reader).pos == old(reader).data@.len()
                },
                None => r == Err::<(), DecodeError>(DecodeError::UnexpectedEof),
            },
    {
        let ghost total = tail_records(word@, len, reader.data@, reader.pos as int);
        let ghost whole = tail_whole_records(word@, len, reader.data@, reader.pos as int);
        let ghost mut done: Seq<Record> = Seq::empty();
        let mut cur_word = word;
        let mut cur_len = len;
        let mut more = true;
        proof {
            assert(prepend(done, total) == total) by {
                if total is Some {
                    assert(done + total.unwrap() =~= total.unwrap());
                }
            }
            assert(done + whole =~= whole);
            assert(writer@ =~= old(writer)@ + encode_records(done));
        }
        while more
            invariant
                reader.wf(),
                reader.data@ == old(reader).data@,
                total == tail_records(word@, len, old(reader).data@, old(reader).pos as int),
                whole == tail_whole_records(word@, len, old(reader).data@, old(reader).pos as int),
                writer@ == old(writer)@ + encode_records(done),
                more ==> total == prepend(
                    done,
                    tail_records(cur_word@, cur_len, reader.data@, reader.pos as int),
                ),
                more ==> whole == done + tail_whole_records(
                    cur_word@,
                    cur_len,
                    reader.data@,
                    reader.pos as int,
                ),
                !more ==> total == Some(done) && whole == done && reader.pos
                    == reader.data@.len(),
            decreases reader.data@.len() - reader.pos + (if more { 1int } else { 0int }),
        {
            let ghost rec = Record {
                term: cur_word@,
                postings: ids_at(reader.data@, reader.pos as int, cur_len as int),
            };
            let wrote = InvertedIndex::rewrite_record(writer, &cur_word, cur_len, reader);
            if wrote.is_err() {
                proof {
                    assert(done + Seq::<Record>::empty() =~= done);
                }
                return Err(DecodeError::UnexpectedEof);
            }
            proof {
                lemma_encode_records_push(done, rec);
                assert(old(writer)@ + encode_records(done) + encode_record(rec) =~= old(writer)@
                    + (encode_records(done) + encode_record(rec)));
            }
            let ghost at = reader.pos as int;
            let next = reader.read_header();
            match next {
                Err(_) => {
                    proof {
                        assert(done + (seq![rec] + Seq::<Record>::empty()) =~= done.push(rec));
                    }
                    return Err(DecodeError::UnexpectedEof);
                },
                Ok(None) => {
                    proof {
                        assert(done + (seq![rec] + Seq::<Record>::empty()) =~= done.push(rec));
                        done = done.push(rec);
                    }
                    more = false;
                },
                Ok(Some((next_word, next_len))) => {
                    proof {
                        lemma_tail_is_rest(
                            next_word@,
                            next_len,
                            reader.data@,
                            reader.pos as int,
                            at,
                        );
                        let rest = parse_records_from(reader.data@, at);
                        if rest is Some {
                            assert(done + (seq![rec] + rest.unwrap()) =~= done.push(rec)
                                + rest.unwrap());
                        }
                        assert(done + (seq![rec] + whole_records_from(reader.data@, at))
                            =~= done.push(rec) + whole_records_from(reader.data@, at));
                        done = done.push(rec);
                    }
                    cur_word = next_word;
                    cur_len = next_len;
                },
            }
        }
        Ok(())
    }

    /// Merges the blocks with the two given numbers into a new block, which
    /// gets the next free number. Where either block ends inside a record
    /// no block is added.
    pub fn merge_task(&mut self, lhs_block_num: usize, rhs_block_num: usize) -> (r: Result<
        (),
        DecodeError,
    >)
        requires
            lhs_block_num < old(self).blocks_directory@.len(),
            rhs_block_num < old(self).blocks_directory@.len(),
        ensures
            final(self).index_head_file == old(self).index_head_file,
            final(self).index_content_file == old(self).index_content_file,
            final(self).max_map_size == old(self).max_map_size,
            final(self).cur_map_size == old(self).cur_map_size,
            final(self).count_of_written_blocks == old(self).count_of_written_blocks,
            final(self).head == old(self).head,
            match merged_from(
                old(self).blocks_directory@[lhs_block_num as int]@,
                0,
                old(self).blocks_directory@[rhs_block_num as int]@,
                0,
            ) {
                Some(merged) => {
                    &&& r is Ok
                    &&& final(self).blocks_directory@.len() == old(self).blocks_directory@.len()
                        + 1
                    &&& final(self).blocks_directory@.drop_last() == old(self).blocks_directory@
                    &&& final(self).blocks_directory@.last()@ == encode_records(merged)
                },
                None => {
                    &&& r == Err::<(), DecodeError>(DecodeError::UnexpectedEof)
                    &&& final(self).blocks_directory@ == old(self).blocks_directory@
                },
            },
    {
        let mut res_writer: Vec<u8> = Vec::new();
        let mut lhs_reader = Reader::new(self.blocks_directory[lhs_block_num].as_slice());
        let mut rhs_reader = Reader::new(self.blocks_directory[rhs_block_num].as_slice());
        let ghost lhs = lhs_reader.data@;
        let ghost rhs = rhs_reader.data@;
        let ghost total = merged_from(lhs, 0, rhs, 0);
        let ghost mut done: Seq<Record> = Seq::empty();
        let ghost mut ls: int = 0;
        let ghost mut rs: int = 0;

        let lhs_first = lhs_reader.read_header();
        if lhs_first.is_err() {
            return Err(DecodeError::UnexpectedEof);
        }
        let rhs_first = rhs_reader.read_header();
        if rhs_first.is_err() {
            return Err(DecodeError::UnexpectedEof);
        }
        let mut lhs_head = lhs_first.unwrap();
        let mut rhs_head = rhs_first.unwrap();
        proof {
            assert(prepend(done, total) == total) by {
                if total is Some {
                    assert(done + total.unwrap() =~= total.unwrap());
                }
            }
        }
        while lhs_head.is_some() && rhs_head.is_some()
            invariant
                lhs_reader.wf(),
                rhs_reader.wf(),
                lhs_reader.data@ == lhs,
                rhs_reader.data@ == rhs,
                reader_holds(lhs, lhs_reader.pos as int, lhs_head, ls),
                reader_holds(rhs, rhs_reader.pos as int, rhs_head, rs),
                0 <= ls <= lhs.len(),
                0 <= rs <= rhs.len(),
                res_writer@ == encode_records(done),
                total == prepend(done, merged_from(lhs, ls, rhs, rs)),
                total == merged_from(lhs, 0, rhs, 0),
                *self == *old(self),
                lhs_block_num < self.blocks_directory@.len(),
                rhs_block_num < self.blocks_directory@.len(),
                lhs == self.blocks_directory@[lhs_block_num as int]@,
                rhs == self.blocks_directory@[rhs_block_num as int]@,
            decreases lhs.len() - ls + rhs.len() - rs,
        {
            let (lhs_word, lhs_len) = lhs_head.unwrap();
            let (rhs_word, rhs_len) = rhs_head.unwrap();
            let ghost lrec = parse_record_at(lhs, ls).unwrap().0;
            let ghost lnext = parse_record_at(lhs, ls).unwrap().1;
            let ghost rrec = parse_record_at(rhs, rs).unwrap().0;
            let ghost rnext = parse_record_at(rhs, rs).unwrap().1;
            proof {
                assert(lrec.postings =~= ids_at(lhs, lhs_reader.pos as int, lhs_len as int));
                assert(rrec.postings =~= ids_at(rhs, rhs_reader.pos as int, rhs_len as int));
                assert(lrec == Record { term: lhs_word@, postings: lrec.postings });
                assert(rrec == Record { term: rhs_word@, postings: rrec.postings });
            }
            match compare_bytes(lhs_word.as_slice(), rhs_word.as_slice()) {
                Sign::Less => {
                    let wrote = InvertedIndex::rewrite_record(
                        &mut res_writer,
                        &lhs_word,
                        lhs_len,
                        &mut lhs_reader,
                    );
                    if wrote.is_err() {
                        return Err(DecodeError::UnexpectedEof);
                    }
                    proof {
                        lemma_encode_records_push(done, lrec);
                        lemma_step_less(lhs, ls, rhs, rs, done, total);
                        done = done.push(lrec);
                        ls = lnext;
                    }
                    let next = lhs_reader.read_header();
                    match next {
                        Err(_) => {
                            return Err(DecodeError::UnexpectedEof);
                        },
                        Ok(h) => {
                            lhs_head = h;
                        },
                    }
                    rhs_head = Some((rhs_word, rhs_len));
                },
                Sign::Greater => {
                    let wrote = InvertedIndex::rewrite_record(
                        &mut res_writer,
                        &rhs_word,
                        rhs_len,
                        &mut rhs_reader,
                    );
                    if wrote.is_err() {
                        return Err(DecodeError::UnexpectedEof);
                    }
                    proof {
                        lemma_encode_records_push(done, rrec);
                        lemma_step_greater(lhs, ls, rhs, rs, done, total);
                        done = done.push(rrec);
                        rs = rnext;
                    }
                    let next = rhs_reader.read_header();
                    match next {
                        Err(_) => {
                            return Err(DecodeError::UnexpectedEof);
                        },
                        Ok(h) => {
                            rhs_head = h;
                        },
                    }
                    lhs_head = Some((lhs_word, lhs_len));
                },
                Sign::Equal => {
                    let ghost both = Record {
                        term: lrec.term,
                        postings: merge_postings(lrec.postings, rrec.postings),
                    };
                    let wrote = InvertedIndex::merge_records(
                        &mut res_writer,
                        &lhs_word,
                        lhs_len,
                        &mut lhs_reader,
                        rhs_len,
                        &mut rhs_reader,
                    );
                    if wrote.is_err() {
                        return Err(DecodeError::UnexpectedEof);
                    }
                    proof {
                        lemma_encode_records_push(done, both);
                        lemma_step_equal(lhs, ls, rhs, rs, done, total);
                        done = done.push(both);
                        ls = lnext;
                        rs = rnext;
                    }
                    let next = lhs_reader.read_header();
                    match next {
                        Err(_) => {
                            return Err(DecodeError::UnexpectedEof);
                        },
                        Ok(h) => {
                            lhs_head = h;
                        },
                    }
                    let next = rhs_reader.read_header();
                    match next {
                        Err(_) => {
                            return Err(DecodeError::UnexpectedEof);
                        },
                        Ok(h) => {
                            rhs_head = h;
                        },
                    }
                },
            }
        }
        proof {
            lemma_merge_one_side(lhs, ls, rhs, rs);
        }
        let tail = if lhs_head.is_some() {
            let (lhs_word, lhs_len) = lhs_head.unwrap();
            proof {
                lemma_tail_is_rest(lhs_word@, lhs_len, lhs, lhs_reader.pos as int, ls);
            }
            InvertedIndex::write_tail(&mut res_writer, lhs_word, lhs_len, &mut lhs_reader)
        } else if rhs_head.is_some() {
            let (rhs_word, rhs_len) = rhs_head.unwrap();
            proof {
                lemma_tail_is_rest(rhs_word@, rhs_len, rhs, rhs_reader.pos as int, rs);
            }
            InvertedIndex::write_tail(&mut res_writer, rhs_word, rhs_len, &mut rhs_reader)
        } else {
            proof {
                assert(res_writer@ + encode_records(Seq::<Record>::empty()) =~= res_writer@);
            }
            Ok(())
        };
        if tail.is_err() {
            return Err(DecodeError::UnexpectedEof);
        }
        proof {
            let rest = merged_from(lhs, ls, rhs, rs).unwrap();
            assert(res_writer@ == encode_records(done) + encode_records(rest));
            lemma_encode_records_concat(done, rest);
        }
        self.blocks_directory.push(res_writer);
        proof {
            assert(self.blocks_directory@.drop_last() =~= old(self).blocks_directory@);
        }
        Ok(())
    }
}

} // verus!
