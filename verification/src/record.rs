//! The records of a block and of the inverted content: a term and its
//! posting list, as bytes and as values.

use crate::bytes::{be_u64, lemma_be_u64_at, lemma_u64_at_be, read_u64, u64_at};
use crate::db::{doc_id_at, encode_doc_id, lemma_doc_id_at_encode, lemma_encode_doc_id_at, DocId};
use crate::error::DecodeError;
use vstd::prelude::*;

verus! {

/// A term with the identifiers of documents that hold it.
pub struct Record {
    pub term: Seq<u8>,
    pub postings: Seq<DocId>,
}

/// The bytes of a posting list, without its length.
pub open spec fn encode_ids(ids: Seq<DocId>) -> Seq<u8>
    decreases ids.len(),
{
    if ids.len() == 0 {
        Seq::empty()
    } else {
        encode_ids(ids.drop_last()) + encode_doc_id(ids.last())
    }
}

/// The `n` identifiers that stand at `data[p ..]`.
pub open spec fn ids_at(data: Seq<u8>, p: int, n: int) -> Seq<DocId> {
    Seq::new(n as nat, |i: int| doc_id_at(data, p + 12 * i))
}

/// The bytes of a record: the length of the term, the term, the length of
/// the posting list, the posting list.
pub open spec fn encode_record(r: Record) -> Seq<u8> {
    be_u64(r.term.len() as u64) + r.term + be_u64(r.postings.len() as u64) + encode_ids(
        r.postings,
    )
}

/// The number of bytes of a record.
pub open spec fn record_size(r: Record) -> int {
    16 + r.term.len() as int + 12 * r.postings.len() as int
}

/// Both lengths of the record fit their eight-byte fields.
pub open spec fn record_fits(r: Record) -> bool {
    r.term.len() <= u64::MAX && r.postings.len() <= u64::MAX
}

/// Every record of `rs` fits.
pub open spec fn records_fit(rs: Seq<Record>) -> bool {
    forall|i: int| 0 <= i < rs.len() ==> record_fits(#[trigger] rs[i])
}

/// The bytes of a sequence of records, one after the other.
pub open spec fn encode_records(rs: Seq<Record>) -> Seq<u8>
    decreases rs.len(),
{
    if rs.len() == 0 {
        Seq::empty()
    } else {
        encode_records(rs.drop_last()) + encode_record(rs.last())
    }
}

/// The record that starts at `p`, with the position behind it; `None` if
/// the data ends before the record does.
pub open spec fn parse_record_at(data: Seq<u8>, p: int) -> Option<(Record, int)> {
    if p < 0 || p + 8 > data.len() {
        None
    } else {
        let wl = u64_at(data, p) as int;
        if p + 8 + wl + 8 > data.len() {
            None
        } else {
            let pl = u64_at(data, p + 8 + wl) as int;
            if p + 16 + wl + 12 * pl > data.len() {
                None
            } else {
                Some(
                    (
                        Record {
                            term: data.subrange(p + 8, p + 8 + wl),
                            postings: ids_at(data, p + 16 + wl, pl),
                        },
                        p + 16 + wl + 12 * pl,
                    ),
                )
            }
        }
    }
}

/// The records that fill `data[p ..]` exactly; `None` if the data ends
/// inside a record.
pub open spec fn parse_records_from(data: Seq<u8>, p: int) -> Option<Seq<Record>>
    decreases data.len() - p,
{
    if p < 0 || p > data.len() {
        None
    } else if p == data.len() {
        Some(Seq::empty())
    } else {
        match parse_record_at(data, p) {
            None => None,
            Some((r, next)) => match parse_records_from(data, next) {
                None => None,
                Some(rest) => Some(seq![r] + rest),
            },
        }
    }
}

/// The records that stand in `data[p ..]` before the data ends, be it
/// behind a record or inside one.
pub open spec fn whole_records_from(data: Seq<u8>, p: int) -> Seq<Record>
    decreases data.len() - p,
{
    if p < 0 || p >= data.len() {
        Seq::empty()
    } else {
        match parse_record_at(data, p) {
            None => Seq::empty(),
            Some((r, next)) => seq![r] + whole_records_from(data, next),
        }
    }
}

/// The records that fill `data` exactly.
pub open spec fn parse_records(data: Seq<u8>) -> Option<Seq<Record>> {
    parse_records_from(data, 0)
}

/// A posting list takes twelve bytes for each identifier.
pub proof fn lemma_encode_ids_len(ids: Seq<DocId>)
    ensures
        encode_ids(ids).len() == 12 * ids.len(),
    decreases ids.len(),
{
    if ids.len() > 0 {
        lemma_encode_ids_len(ids.drop_last());
    }
}

/// A record takes as many bytes as its size says.
pub proof fn lemma_encode_record_len(r: Record)
    ensures
        encode_record(r).len() == record_size(r),
{
    lemma_encode_ids_len(r.postings);
}

/// The bytes from which a posting list was read are the bytes of that list.
pub proof fn lemma_encode_ids_at(data: Seq<u8>, p: int, n: int)
    requires
        0 <= p,
        0 <= n,
        p + 12 * n <= data.len(),
    ensures
        encode_ids(ids_at(data, p, n)) == data.subrange(p, p + 12 * n),
    decreases n,
{
    if n == 0 {
        assert(data.subrange(p, p) =~= Seq::<u8>::empty());
    } else {
        lemma_encode_ids_at(data, p, n - 1);
        assert(ids_at(data, p, n).drop_last() =~= ids_at(data, p, n - 1));
        lemma_encode_doc_id_at(data, p + 12 * (n - 1));
        assert(data.subrange(p, p + 12 * (n - 1)) + data.subrange(p + 12 * (n - 1), p + 12 * n)
            =~= data.subrange(p, p + 12 * n));
    }
}

/// Reading where a posting list was written gives that list.
pub proof fn lemma_ids_at_encode(data: Seq<u8>, p: int, ids: Seq<DocId>)
    requires
        0 <= p,
        p + 12 * ids.len() <= data.len(),
        data.subrange(p, p + 12 * ids.len()) == encode_ids(ids),
    ensures
        ids_at(data, p, ids.len() as int) == ids,
    decreases ids.len(),
{
    let n = ids.len() as int;
    if n > 0 {
        let front = ids.drop_last();
        lemma_encode_ids_len(front);
        let whole = data.subrange(p, p + 12 * n);
        assert(data.subrange(p, p + 12 * (n - 1)) =~= encode_ids(front)) by {
            assert(whole.subrange(0, 12 * (n - 1)) =~= encode_ids(front));
            assert(whole.subrange(0, 12 * (n - 1)) =~= data.subrange(p, p + 12 * (n - 1)));
        }
        lemma_ids_at_encode(data, p, front);
        assert(data.subrange(p + 12 * (n - 1), p + 12 * n) =~= encode_doc_id(ids.last())) by {
            assert(whole.subrange(12 * (n - 1), 12 * n) =~= encode_doc_id(ids.last()));
            assert(whole.subrange(12 * (n - 1), 12 * n) =~= data.subrange(
                p + 12 * (n - 1),
                p + 12 * n,
            ));
        }
        lemma_doc_id_at_encode(data, p + 12 * (n - 1), ids.last());
        assert forall|i: int| 0 <= i < n implies ids_at(data, p, n)[i] == ids[i] by {
            if i < n - 1 {
                assert(ids_at(data, p, n - 1)[i] == front[i]);
            }
        }
    }
    assert(ids_at(data, p, n) =~= ids);
}

/// The bytes from which a record was read are the bytes of that record.
pub proof fn lemma_encode_parsed(data: Seq<u8>, p: int)
    requires
        parse_record_at(data, p) is Some,
    ensures
        encode_record(parse_record_at(data, p).unwrap().0) == data.subrange(
            p,
            parse_record_at(data, p).unwrap().1,
        ),
        record_fits(parse_record_at(data, p).unwrap().0),
        parse_record_at(data, p).unwrap().1 == p + record_size(parse_record_at(data, p).unwrap().0),
{
    let (r, next) = parse_record_at(data, p).unwrap();
    let wl = u64_at(data, p) as int;
    let pl = u64_at(data, p + 8 + wl) as int;
    lemma_be_u64_at(data, p);
    lemma_be_u64_at(data, p + 8 + wl);
    lemma_encode_ids_at(data, p + 16 + wl, pl);
    assert(encode_record(r) =~= data.subrange(p, next));
}

/// Reading where a record was written gives that record.
pub proof fn lemma_parse_encoded(data: Seq<u8>, p: int, r: Record)
    requires
        0 <= p,
        record_fits(r),
        p + record_size(r) <= data.len(),
        data.subrange(p, p + record_size(r)) == encode_record(r),
    ensures
        parse_record_at(data, p) == Some((r, p + record_size(r))),
{
    let wl = r.term.len() as int;
    let pl = r.postings.len() as int;
    let whole = data.subrange(p, p + record_size(r));
    lemma_encode_ids_len(r.postings);
    assert(data.subrange(p, p + 8) =~= be_u64(wl as u64)) by {
        assert(whole.subrange(0, 8) =~= be_u64(wl as u64));
        assert(whole.subrange(0, 8) =~= data.subrange(p, p + 8));
    }
    lemma_u64_at_be(data, p, wl as u64);
    assert(data.subrange(p + 8, p + 8 + wl) =~= r.term) by {
        assert(whole.subrange(8, 8 + wl) =~= r.term);
        assert(whole.subrange(8, 8 + wl) =~= data.subrange(p + 8, p + 8 + wl));
    }
    assert(data.subrange(p + 8 + wl, p + 16 + wl) =~= be_u64(pl as u64)) by {
        assert(whole.subrange(8 + wl, 16 + wl) =~= be_u64(pl as u64));
        assert(whole.subrange(8 + wl, 16 + wl) =~= data.subrange(p + 8 + wl, p + 16 + wl));
    }
    lemma_u64_at_be(data, p + 8 + wl, pl as u64);
    assert(data.subrange(p + 16 + wl, p + 16 + wl + 12 * pl) =~= encode_ids(r.postings)) by {
        assert(whole.subrange(16 + wl, 16 + wl + 12 * pl) =~= encode_ids(r.postings));
        assert(whole.subrange(16 + wl, 16 + wl + 12 * pl) =~= data.subrange(
            p + 16 + wl,
            p + 16 + wl + 12 * pl,
        ));
    }
    lemma_ids_at_encode(data, p + 16 + wl, r.postings);
}

/// The bytes of a sequence of records begin with the bytes of its first
/// record.
pub proof fn lemma_encode_records_front(r: Record, rest: Seq<Record>)
    ensures
        encode_records(seq![r] + rest) == encode_record(r) + encode_records(rest),
    decreases rest.len(),
{
    let all = seq![r] + rest;
    if rest.len() == 0 {
        assert(all.drop_last() =~= Seq::<Record>::empty());
        assert(encode_records(all.drop_last()) =~= Seq::<u8>::empty());
        assert(encode_records(all) =~= encode_record(r) + encode_records(rest));
    } else {
        lemma_encode_records_front(r, rest.drop_last());
        assert(all.drop_last() =~= seq![r] + rest.drop_last());
        assert(all.last() == rest.last());
        assert(encode_records(all) =~= encode_record(r) + encode_records(rest));
    }
}

/// The bytes of a sequence of records with one more record behind it.
pub proof fn lemma_encode_records_push(rs: Seq<Record>, r: Record)
    ensures
        encode_records(rs.push(r)) == encode_records(rs) + encode_record(r),
{
    assert(rs.push(r).drop_last() =~= rs);
}

/// Reading where a sequence of records was written, up to the end of the
/// data, gives those records.
pub proof fn lemma_parse_encoded_records(data: Seq<u8>, p: int, rs: Seq<Record>)
    requires
        0 <= p <= data.len(),
        records_fit(rs),
        data.subrange(p, data.len() as int) == encode_records(rs),
    ensures
        parse_records_from(data, p) == Some(rs),
    decreases rs.len(),
{
    let tail = data.subrange(p, data.len() as int);
    assert(tail.len() == data.len() - p);
    if rs.len() == 0 {
        assert(rs =~= Seq::<Record>::empty());
        assert(p == data.len());
    } else {
        let r = rs[0];
        let rest = rs.skip(1);
        assert(rs =~= seq![r] + rest);
        lemma_encode_records_front(r, rest);
        lemma_encode_record_len(r);
        let next = p + record_size(r);
        assert(tail.len() == encode_record(r).len() + encode_records(rest).len());
        assert(next <= data.len());
        assert(data.subrange(p, next) =~= encode_record(r)) by {
            assert(tail.subrange(0, record_size(r)) =~= encode_record(r));
            assert(tail.subrange(0, record_size(r)) =~= data.subrange(p, next));
        }
        lemma_parse_encoded(data, p, r);
        assert(data.subrange(next, data.len() as int) =~= encode_records(rest)) by {
            assert(tail.subrange(record_size(r), tail.len() as int) =~= encode_records(rest));
            assert(tail.subrange(record_size(r), tail.len() as int) =~= data.subrange(
                next,
                data.len() as int,
            ));
        }
        assert(records_fit(rest)) by {
            assert forall|i: int| 0 <= i < rest.len() implies record_fits(#[trigger] rest[i]) by {
                assert(rest[i] == rs[i + 1]);
            }
        }
        lemma_parse_encoded_records(data, next, rest);
    }
}

/// Decoding the bytes of a sequence of records gives the records back.
pub proof fn lemma_records_roundtrip(rs: Seq<Record>)
    requires
        records_fit(rs),
    ensures
        parse_records(encode_records(rs)) == Some(rs),
{
    let data = encode_records(rs);
    assert(data.subrange(0, data.len() as int) =~= data);
    lemma_parse_encoded_records(data, 0, rs);
}

/// The bytes from which a sequence of records was read are the bytes of
/// those records.
pub proof fn lemma_encode_parsed_records(data: Seq<u8>, p: int)
    requires
        parse_records_from(data, p) is Some,
    ensures
        encode_records(parse_records_from(data, p).unwrap()) == data.subrange(
            p,
            data.len() as int,
        ),
        records_fit(parse_records_from(data, p).unwrap()),
    decreases data.len() - p,
{
    if p == data.len() {
        assert(data.subrange(p, data.len() as int) =~= Seq::<u8>::empty());
    } else {
        let (r, next) = parse_record_at(data, p).unwrap();
        let rest = parse_records_from(data, next).unwrap();
        lemma_encode_parsed(data, p);
        lemma_encode_parsed_records(data, next);
        lemma_encode_records_front(r, rest);
        assert(data.subrange(p, next) + data.subrange(next, data.len() as int) =~= data.subrange(
            p,
            data.len() as int,
        ));
        let rs = seq![r] + rest;
        assert forall|i: int| 0 <= i < rs.len() implies record_fits(#[trigger] rs[i]) by {
            if i > 0 {
                assert(rs[i] == rest[i - 1]);
            }
        }
    }
}

/// A position in a byte buffer from which records are read one after the
/// other.
pub struct Reader<'a> {
    pub data: &'a [u8],
    pub pos: usize,
}

impl<'a> Reader<'a> {
    /// The position lies inside the buffer or at its end.
    pub open spec fn wf(&self) -> bool {
        self.pos <= self.data@.len()
    }

    /// A reader at the start of `data`.
    pub fn new(data: &'a [u8]) -> (r: Reader<'a>)
        ensures
            r.wf(),
            r.data@ == data@,
            r.pos == 0,
    {
        Reader { data, pos: 0 }
    }

    /// Whether every byte has been read.
    pub fn at_end(&self) -> (b: bool)
        requires
            self.wf(),
        ensures
            b == (self.pos == self.data@.len()),
    {
        self.pos == self.data.len()
    }

    /// Reads the term and the length of the posting list of the record at
    /// the reader's position and stops before the first posting. At the end
    /// of the data there is no record and nothing is read. A record that
    /// the data does not hold to its last posting is an error, and nothing
    /// is read then either.
    pub fn read_header(&mut self) -> (r: Result<Option<(Vec<u8>, u64)>, DecodeError>)
        requires
            old(self).wf(),
        ensures
            final(self).wf(),
            final(self).data@ == old(self).data@,
            old(self).pos == old(self).data@.len() ==> r == Ok::<
                Option<(Vec<u8>, u64)>,
                DecodeError,
            >(None) && final(self).pos == old(self).pos,
            old(self).pos < old(self).data@.len() ==> match parse_record_at(
                old(self).data@,
                old(self).pos as int,
            ) {
                None => r == Err::<Option<(Vec<u8>, u64)>, DecodeError>(
                    DecodeError::UnexpectedEof,
                ) && final(self).pos == old(self).pos,
                Some((rec, next)) => {
                    &&& r is Ok
                    &&& r.unwrap() is Some
                    &&& r.unwrap().unwrap().0@ == rec.term
                    &&& r.unwrap().unwrap().1 == rec.postings.len()
                    &&& final(self).pos == old(self).pos + 16 + rec.term.len()
                    &&& next == final(self).pos + 12 * rec.postings.len()
                },
            },
    {
        let len = self.data.len();
        let start = self.pos;
        if start == len {
            return Ok(None);
        }
        let left = len - start;
        if left < 8 {
            return Err(DecodeError::UnexpectedEof);
        }
        let word_len = read_u64(self.data, start);
        if word_len > (left - 8) as u64 {
            return Err(DecodeError::UnexpectedEof);
        }
        let wl = word_len as usize;
        if left - 8 - wl < 8 {
            return Err(DecodeError::UnexpectedEof);
        }
        let posting_len = read_u64(self.data, start + 8 + wl);
        let room = left - 16 - wl;
        if posting_len > (room / 12) as u64 {
            return Err(DecodeError::UnexpectedEof);
        }
        let term = crate::bytes::copy_range(self.data, start + 8, start + 8 + wl);
        self.pos = start + 16 + wl;
        Ok(Some((term, posting_len)))
    }
}

} // verus!
