//! Where in the inverted content the posting list of each term stands, and
//! the head that says so.

use crate::bytes::{
    be_u64, copy_range, is_valid_utf8, lemma_lex_trichotomy, lex_lt, push_range, push_u64, read_u64,
    u64_at,
};
use crate::db::DocId;
use crate::error::DecodeError;
use crate::inverted_index::{HeadValue, InvertedIndex};
use crate::merge::prepend;
use crate::postings::record_terms;
use crate::record::{
    ids_at, parse_record_at, parse_records, parse_records_from, record_size, whole_records_from,
    Reader, Record,
};
use crate::term_map::{strictly_ascending, TermMap};
use vstd::prelude::*;
use vstd::utf8::valid_utf8;

verus! {

/// The number of bytes of the records.
pub open spec fn records_len(rs: Seq<Record>) -> int
    decreases rs.len(),
{
    if rs.len() == 0 {
        0
    } else {
        records_len(rs.drop_last()) + record_size(rs.last())
    }
}

/// Where the length of the posting list of `t` stands in the bytes of
/// `rs`: behind the term of the last record of `t`. `None` where no record
/// has the term.
pub open spec fn last_offset(rs: Seq<Record>, t: Seq<u8>) -> Option<int>
    decreases rs.len(),
{
    if rs.len() == 0 {
        None
    } else if rs.last().term == t {
        Some(records_len(rs.drop_last()) + 8 + t.len())
    } else {
        last_offset(rs.drop_last(), t)
    }
}

/// The posting list that is read at `offset`: a length, then as many
/// identifiers. `None` where the data ends before the list does.
pub open spec fn posting_list_at(data: Seq<u8>, offset: int) -> Option<Seq<DocId>> {
    if offset < 0 || offset + 8 > data.len() {
        None
    } else if offset + 8 + 12 * u64_at(data, offset) > data.len() {
        None
    } else {
        Some(ids_at(data, offset + 8, u64_at(data, offset) as int))
    }
}

/// The offsets of the head are those of the records: each term of the head
/// that has a record points behind the term of its last record, and each
/// other term has the offset given by `before`.
pub open spec fn offsets_set(
    head: TermMap<HeadValue>,
    before: Seq<HeadValue>,
    rs: Seq<Record>,
) -> bool {
    forall|i: int|
        0 <= i < head.keys@.len() ==> (#[trigger] head.values@[i]).offset == (match last_offset(
            rs,
            head.keys@[i]@,
        ) {
            Some(o) => o,
            None => before[i].offset as int,
        })
}

/// Every term of the records is valid UTF-8.
pub open spec fn terms_valid(rs: Seq<Record>) -> bool {
    forall|i: int| 0 <= i < rs.len() ==> valid_utf8((#[trigger] rs[i]).term)
}

/// The bytes of one entry of the head: the length of the term, the term,
/// the offset, the inverse document frequency.
pub open spec fn encode_head_entry(term: Seq<u8>, v: HeadValue) -> Seq<u8> {
    be_u64(term.len() as u64) + term + be_u64(v.offset) + be_u64(v.idf)
}

/// The bytes of the first `n` entries of the head, in the order of the
/// terms.
pub open spec fn encode_head(head: TermMap<HeadValue>, n: int) -> Seq<u8>
    decreases n,
{
    if n <= 0 {
        Seq::empty()
    } else {
        encode_head(head, n - 1) + encode_head_entry(head.keys@[n - 1]@, head.values@[n - 1])
    }
}

/// One entry of a stored head: a term with its offset and the bits of its
/// inverse document frequency.
pub struct StoredEntry {
    pub term: Seq<u8>,
    pub offset: u64,
    pub idf: u64,
}

/// The entry of a stored head that starts at `p`, with the position behind
/// it; `None` if the data ends before the entry does.
pub open spec fn parse_head_entry_at(data: Seq<u8>, p: int) -> Option<(StoredEntry, int)> {
    if p < 0 || p + 8 > data.len() {
        None
    } else {
        let wl = u64_at(data, p) as int;
        if p + 8 + wl + 16 > data.len() {
            None
        } else {
            Some(
                (
                    StoredEntry {
                        term: data.subrange(p + 8, p + 8 + wl),
                        offset: u64_at(data, p + 8 + wl),
                        idf: u64_at(data, p + 16 + wl),
                    },
                    p + 24 + wl,
                ),
            )
        }
    }
}

/// The entries that fill `data[p ..]` exactly; `None` if the data ends
/// inside an entry.
pub open spec fn parse_head_from(data: Seq<u8>, p: int) -> Option<Seq<StoredEntry>>
    decreases data.len() - p,
{
    if p < 0 || p > data.len() {
        None
    } else if p == data.len() {
        Some(Seq::empty())
    } else {
        match parse_head_entry_at(data, p) {
            None => None,
            Some((e, next)) => match parse_head_from(data, next) {
                None => None,
                Some(rest) => Some(seq![e] + rest),
            },
        }
    }
}

/// The head that the stored entries give: each term with its offset and
/// its inverse document frequency, a later entry taking the place of an
/// earlier one of the same term. The number of documents of a term is not
/// stored and is zero.
pub open spec fn stored_head(es: Seq<StoredEntry>) -> Map<Seq<u8>, HeadValue>
    decreases es.len(),
{
    if es.len() == 0 {
        Map::empty()
    } else {
        stored_head(es.drop_last()).insert(
            es.last().term,
            HeadValue { offset: es.last().offset, df: 0, idf: es.last().idf },
        )
    }
}

/// Every term of the entries is valid UTF-8.
pub open spec fn stored_terms_valid(es: Seq<StoredEntry>) -> bool {
    forall|j: int| 0 <= j < es.len() ==> valid_utf8((#[trigger] es[j]).term)
}

/// `done` in front of `rest`, if there is a rest.
pub open spec fn stored_before(done: Seq<StoredEntry>, rest: Option<Seq<StoredEntry>>) -> Option<
    Seq<StoredEntry>,
> {
    match rest {
        Some(es) => Some(done + es),
        None => None,
    }
}

/// The bytes of records are those of the first and those of the rest.
pub proof fn lemma_records_len_front(rs: Seq<Record>)
    requires
        rs.len() > 0,
    ensures
        records_len(rs) == record_size(rs[0]) + records_len(rs.skip(1)),
    decreases rs.len(),
{
    if rs.len() == 1 {
        assert(rs.drop_last() =~= Seq::<Record>::empty());
        assert(rs.skip(1) =~= Seq::<Record>::empty());
    } else {
        lemma_records_len_front(rs.drop_last());
        assert(rs.drop_last().skip(1) =~= rs.skip(1).drop_last());
        assert(rs.skip(1).last() == rs.last());
    }
}

/// The `i`-th of the records that are read from `p` on starts behind the
/// bytes of the records before it.
pub proof fn lemma_nth_record(data: Seq<u8>, p: int, i: int)
    requires
        parse_records_from(data, p) is Some,
        0 <= i < parse_records_from(data, p).unwrap().len(),
    ensures
        parse_record_at(data, p + records_len(parse_records_from(data, p).unwrap().take(i)))
            is Some,
        parse_record_at(
            data,
            p + records_len(parse_records_from(data, p).unwrap().take(i)),
        ).unwrap().0 == parse_records_from(data, p).unwrap()[i],
        0 <= p + records_len(parse_records_from(data, p).unwrap().take(i)),
    decreases i,
{
    let rs = parse_records_from(data, p).unwrap();
    let (r, next) = parse_record_at(data, p).unwrap();
    let rest = parse_records_from(data, next).unwrap();
    assert(rs == seq![r] + rest);
    if i == 0 {
        assert(rs.take(0) =~= Seq::<Record>::empty());
    } else {
        lemma_nth_record(data, next, i - 1);
        lemma_records_len_front(rs.take(i));
        assert(rs.take(i).skip(1) =~= rest.take(i - 1));
        assert(rs.take(i)[0] == r);
        assert(rs[i] == rest[i - 1]);
    }
}

/// Among records with strictly ascending terms the offset of a term is
/// that of its one record.
pub proof fn lemma_last_offset_at(rs: Seq<Record>, i: int)
    requires
        strictly_ascending(record_terms(rs)),
        0 <= i < rs.len(),
    ensures
        last_offset(rs, rs[i].term) == Some(records_len(rs.take(i)) + 8 + rs[i].term.len()),
    decreases rs.len(),
{
    if i == rs.len() - 1 {
        assert(rs.take(i) =~= rs.drop_last());
    } else {
        let front = rs.drop_last();
        assert(lex_lt(record_terms(rs)[i], record_terms(rs)[rs.len() - 1]));
        lemma_lex_trichotomy(rs[i].term, rs.last().term);
        assert(strictly_ascending(record_terms(front))) by {
            assert forall|a: int, b: int| 0 <= a < b < record_terms(front).len() implies lex_lt(
                #[trigger] record_terms(front)[a],
                #[trigger] record_terms(front)[b],
            ) by {
                assert(lex_lt(record_terms(rs)[a], record_terms(rs)[b]));
            }
        }
        lemma_last_offset_at(front, i);
        assert(front.take(i) =~= rs.take(i));
    }
}

/// A term without a record has no offset.
pub proof fn lemma_last_offset_none(rs: Seq<Record>, t: Seq<u8>)
    requires
        forall|k: int| 0 <= k < rs.len() ==> (#[trigger] rs[k]).term != t,
    ensures
        last_offset(rs, t) is None,
    decreases rs.len(),
{
    if rs.len() > 0 {
        assert(rs[rs.len() - 1].term != t);
        assert forall|k: int| 0 <= k < rs.drop_last().len() implies (
        #[trigger] rs.drop_last()[k]).term != t by {
            assert(rs.drop_last()[k] == rs[k]);
        }
        lemma_last_offset_none(rs.drop_last(), t);
    }
}

/// In content with strictly ascending terms, the posting list that is read
/// at the offset of a term is the posting list of the term's record.
pub proof fn lemma_offset_points(data: Seq<u8>, i: int)
    requires
        parse_records(data) is Some,
        strictly_ascending(record_terms(parse_records(data).unwrap())),
        0 <= i < parse_records(data).unwrap().len(),
    ensures
        last_offset(parse_records(data).unwrap(), parse_records(data).unwrap()[i].term) is Some,
        posting_list_at(
            data,
            last_offset(
                parse_records(data).unwrap(),
                parse_records(data).unwrap()[i].term,
            ).unwrap(),
        ) == Some(parse_records(data).unwrap()[i].postings),
{
    let rs = parse_records(data).unwrap();
    lemma_last_offset_at(rs, i);
    lemma_nth_record(data, 0, i);
    let start = records_len(rs.take(i));
    assert(parse_record_at(data, start).unwrap().0.postings =~= rs[i].postings);
}

impl InvertedIndex {
    /// Walks the content record by record and notes for each term, in the
    /// head entry of that term, where the length of its posting list
    /// stands. Terms without an entry are passed over. Where the content
    /// ends inside a record, the offsets noted up to there stay and the
    /// result is an error. Where the content holds records to its end but
    /// a term that is not valid UTF-8, every offset is noted and the result
    /// is an error too.
    pub fn set_offsets(&mut self) -> (r: Result<(), DecodeError>)
        requires
            old(self).head.wf(),
        ensures
            final(self).index_head_file == old(self).index_head_file,
            final(self).index_content_file == old(self).index_content_file,
            final(self).max_map_size == old(self).max_map_size,
            final(self).cur_map_size == old(self).cur_map_size,
            final(self).count_of_written_blocks == old(self).count_of_written_blocks,
            final(self).blocks_directory == old(self).blocks_directory,
            final(self).head.wf(),
            final(self).head.keys == old(self).head.keys,
            final(self).head.values@.len() == old(self).head.values@.len(),
            forall|i: int|
                0 <= i < old(self).head.values@.len() ==> (
                #[trigger] final(self).head.values@[i]).df
                    == old(self).head.values@[i].df && final(self).head.values@[i].idf == old(
                    self,
                ).head.values@[i].idf,
            offsets_set(
                final(self).head,
                old(self).head.values@,
                whole_records_from(old(self).index_content_file@, 0),
            ),
            match parse_records(old(self).index_content_file@) {
                Some(rs) => rs == whole_records_from(old(self).index_content_file@, 0) && (
                if terms_valid(rs) {
                    r is Ok
                } else {
                    r == Err::<(), DecodeError>(DecodeError::InvalidUtf8)
                }),
                None => r == Err::<(), DecodeError>(DecodeError::UnexpectedEof),
            },
    {
        let content_len = self.index_content_file.len();
        let mut reader = Reader::new(self.index_content_file.as_slice());
        let ghost data = reader.data@;
        assert(data.len() == content_len);
        let ghost total = parse_records(data);
        let ghost mut done: Seq<Record> = Seq::empty();
        let mut more = true;
        let mut valid = true;
        proof {
            assert(prepend(done, total) == total) by {
                if total is Some {
                    assert(done + total.unwrap() =~= total.unwrap());
                }
            }
            assert(done + whole_records_from(data, 0) =~= whole_records_from(data, 0));
        }
        while more
            invariant
                reader.wf(),
                reader.data@ == data,
                data == self.index_content_file@,
                valid == terms_valid(done),
                more ==> whole_records_from(data, 0) == done + whole_records_from(
                    data,
                    reader.pos as int,
                ),
                !more ==> whole_records_from(data, 0) == done,
                data.len() <= usize::MAX,
                total == parse_records(data),
                self.index_head_file == old(self).index_head_file,
                self.index_content_file == old(self).index_content_file,
                self.max_map_size == old(self).max_map_size,
                self.cur_map_size == old(self).cur_map_size,
                self.count_of_written_blocks == old(self).count_of_written_blocks,
                self.blocks_directory == old(self).blocks_directory,
                self.head.wf(),
                self.head.keys == old(self).head.keys,
                self.head.values@.len() == old(self).head.values@.len(),
                forall|i: int|
                    0 <= i < old(self).head.values@.len() ==> (#[trigger] self.head.values@[i]).df
                        == old(self).head.values@[i].df && self.head.values@[i].idf == old(
                        self,
                    ).head.values@[i].idf,
                records_len(done) == reader.pos,
                more ==> total == prepend(done, parse_records_from(data, reader.pos as int)),
                !more ==> total == Some(done),
                offsets_set(self.head, old(self).head.values@, done),
            decreases data.len() - reader.pos + (if more { 1int } else { 0int }),
        {
            let ghost start = reader.pos as int;
            let header = reader.read_header();
            match header {
                Err(_) => {
                    proof {
                        assert(done + Seq::<Record>::empty() =~= done);
                    }
                    return Err(DecodeError::UnexpectedEof);
                },
                Ok(None) => {
                    proof {
                        assert(done + Seq::<Record>::empty() =~= done);
                    }
                    more = false;
                },
                Ok(Some((word, posting_list_len))) => {
                    let ghost rec = parse_record_at(data, start).unwrap().0;
                    let ghost next = parse_record_at(data, start).unwrap().1;
                    let next_offset = (reader.pos - 8) as u64;
                    if !is_valid_utf8(word.as_slice()) {
                        valid = false;
                    }
                    let (found, idx) = self.head.find(word.as_slice());
                    let ghost before = self.head;
                    if found {
                        let entry = self.head.values[idx];
                        self.head.values[idx] = HeadValue {
                            offset: next_offset,
                            df: entry.df,
                            idf: entry.idf,
                        };
                    }
                    reader.pos = reader.pos + 12 * (posting_list_len as usize);
                    proof {
                        let grown = done.push(rec);
                        assert(grown.drop_last() =~= done);
                        assert(terms_valid(grown) == (terms_valid(done) && valid_utf8(word@))) by {
                            if terms_valid(done) && valid_utf8(word@) {
                                assert forall|k: int| 0 <= k < grown.len() implies valid_utf8(
                                    (#[trigger] grown[k]).term,
                                ) by {
                                    if k < done.len() {
                                        assert(grown[k] == done[k]);
                                    }
                                }
                            }
                            if terms_valid(grown) {
                                assert(grown[done.len() as int] == rec);
                                assert forall|k: int| 0 <= k < done.len() implies valid_utf8(
                                    (#[trigger] done[k]).term,
                                ) by {
                                    assert(grown[k] == done[k]);
                                }
                            }
                        }
                        assert(self.head.terms() =~= before.terms());
                        let rest = parse_records_from(data, next);
                        if rest is Some {
                            assert(done + (seq![rec] + rest.unwrap()) =~= grown + rest.unwrap());
                        }
                        assert(done + (seq![rec] + whole_records_from(data, next)) =~= grown
                            + whole_records_from(data, next));
                        assert forall|i: int| 0 <= i < self.head.keys@.len() implies (
                        #[trigger] self.head.values@[i]).offset == (match last_offset(
                            grown,
                            self.head.keys@[i]@,
                        ) {
                            Some(o) => o,
                            None => old(self).head.values@[i].offset as int,
                        }) by {
                            if found && i != idx {
                                before.lemma_index(i);
                                before.lemma_index(idx as int);
                            }
                            if !found {
                                assert(before.has(before.keys@[i]@));
                            }
                            assert(before.values@[i].offset == (match last_offset(
                                done,
                                before.keys@[i]@,
                            ) {
                                Some(o) => o,
                                None => old(self).head.values@[i].offset as int,
                            }));
                        }
                        done = grown;
                    }
                },
            }
        }
        if !valid {
            return Err(DecodeError::InvalidUtf8);
        }
        Ok(())
    }

    /// Takes the stored head and content of an index in use. The head must
    /// hold whole entries, each with a term that is valid UTF-8; then each
    /// term gets the offset and the inverse document frequency of its
    /// entry. Otherwise the index is left as it is.
    pub fn load(&mut self, head_file: Vec<u8>, content_file: Vec<u8>) -> (r: Result<
        (),
        DecodeError,
    >)
        ensures
            final(self).max_map_size == old(self).max_map_size,
            match parse_head_from(head_file@, 0) {
                None => r == Err::<(), DecodeError>(DecodeError::UnexpectedEof) && *final(self)
                    == *old(self),
                Some(es) => if stored_terms_valid(es) {
                    &&& r is Ok
                    &&& final(self).head.wf()
                    &&& final(self).head@ == stored_head(es)
                    &&& final(self).index_head_file@ == head_file@
                    &&& final(self).index_content_file@ == content_file@
                } else {
                    r == Err::<(), DecodeError>(DecodeError::InvalidUtf8) && *final(self) == *old(
                        self,
                    )
                },
            },
    {
        let data = head_file.as_slice();
        let len = data.len();
        let ghost total = parse_head_from(data@, 0);
        let ghost mut done: Seq<StoredEntry> = Seq::empty();
        let mut head: TermMap<HeadValue> = TermMap::new();
        let mut valid = true;
        let mut pos: usize = 0;
        proof {
            if total is Some {
                assert(done + total.unwrap() =~= total.unwrap());
            }
        }
        while pos < len
            invariant
                *self == *old(self),
                data@ == head_file@,
                len == data@.len(),
                pos <= len,
                head.wf(),
                head@ == stored_head(done),
                valid == stored_terms_valid(done),
                total == parse_head_from(data@, 0),
                total == stored_before(done, parse_head_from(data@, pos as int)),
            decreases len - pos,
        {
            if len - pos < 8 {
                return Err(DecodeError::UnexpectedEof);
            }
            let word_len = read_u64(data, pos);
            if word_len > (len - pos - 8) as u64 {
                return Err(DecodeError::UnexpectedEof);
            }
            let wl = word_len as usize;
            if len - pos - 8 - wl < 16 {
                return Err(DecodeError::UnexpectedEof);
            }
            let word = copy_range(data, pos + 8, pos + 8 + wl);
            let offset = read_u64(data, pos + 8 + wl);
            let idf = read_u64(data, pos + 16 + wl);
            let ghost entry = StoredEntry { term: word@, offset, idf };
            let ghost next = pos + 24 + wl;
            proof {
                assert(parse_head_entry_at(data@, pos as int) == Some((entry, next as int)));
                let rest = parse_head_from(data@, next as int);
                if rest is Some {
                    assert(done + (seq![entry] + rest.unwrap()) =~= done.push(entry)
                        + rest.unwrap());
                }
                assert(done.push(entry).drop_last() =~= done);
                assert(stored_terms_valid(done.push(entry)) == (stored_terms_valid(done)
                    && valid_utf8(word@))) by {
                    let grown = done.push(entry);
                    if stored_terms_valid(done) && valid_utf8(word@) {
                        assert forall|k: int| 0 <= k < grown.len() implies valid_utf8(
                            (#[trigger] grown[k]).term,
                        ) by {
                            if k < done.len() {
                                assert(grown[k] == done[k]);
                            }
                        }
                    }
                    if stored_terms_valid(grown) {
                        assert(grown[done.len() as int] == entry);
                        assert forall|k: int| 0 <= k < done.len() implies valid_utf8(
                            (#[trigger] done[k]).term,
                        ) by {
                            assert(grown[k] == done[k]);
                        }
                    }
                }
            }
            if !is_valid_utf8(word.as_slice()) {
                valid = false;
            }
            let ghost before = head;
            let (found, idx) = head.find(word.as_slice());
            if found {
                head.values[idx] = HeadValue { offset, df: 0, idf };
                proof {
                    head.lemma_replaced(&before, idx as int);
                }
            } else {
                head.insert(idx, word, HeadValue { offset, df: 0, idf });
            }
            proof {
                done = done.push(entry);
            }
            pos = pos + 24 + wl;
        }
        proof {
            assert(done + Seq::<StoredEntry>::empty() =~= done);
        }
        if !valid {
            return Err(DecodeError::InvalidUtf8);
        }
        self.head = head;
        self.index_head_file = head_file;
        self.index_content_file = content_file;
        Ok(())
    }

    /// Writes the head: one entry for each term, in the order of the terms.
    pub fn write_head_to_disk(&mut self)
        requires
            old(self).head.wf(),
        ensures
            final(self).index_head_file@ == encode_head(
                old(self).head,
                old(self).head.keys@.len() as int,
            ),
            final(self).index_content_file == old(self).index_content_file,
            final(self).max_map_size == old(self).max_map_size,
            final(self).cur_map_size == old(self).cur_map_size,
            final(self).count_of_written_blocks == old(self).count_of_written_blocks,
            final(self).blocks_directory == old(self).blocks_directory,
            final(self).head == old(self).head,
    {
        let mut index_head_writer: Vec<u8> = Vec::new();
        let mut i: usize = 0;
        while i < self.head.keys.len()
            invariant
                *self == *old(self),
                self.head.wf(),
                i <= self.head.keys@.len(),
                index_head_writer@ == encode_head(self.head, i as int),
            decreases self.head.keys.len() - i,
        {
            let ghost before = index_head_writer@;
            let word = &self.head.keys[i];
            let entry = self.head.values[i];
            push_u64(&mut index_head_writer, word.len() as u64);
            push_range(&mut index_head_writer, word.as_slice(), 0, word.len());
            push_u64(&mut index_head_writer, entry.offset);
            push_u64(&mut index_head_writer, entry.idf);
            proof {
                assert(word@.subrange(0, word@.len() as int) =~= word@);
                assert(index_head_writer@ =~= before + encode_head_entry(word@, entry));
            }
            i = i + 1;
        }
        self.index_head_file = index_head_writer;
    }
}

} // verus!
