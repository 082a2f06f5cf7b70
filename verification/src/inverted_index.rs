//! The inverted index: for each term the documents that hold it.

use crate::error::DecodeError;
use crate::merge::{merge_records, merged_from};
use crate::postings::fifo_merge;
use crate::record::{
    encode_records, lemma_encode_record_len, lemma_records_roundtrip, parse_records, record_fits,
    records_fit, Record,
};
use crate::term_map::TermMap;
use std::collections::VecDeque;
use vstd::prelude::*;

verus! {

/// What the head of the inverted index holds for one term.
#[derive(Clone, Copy, Debug, PartialEq, Eq, Structural)]
pub struct HeadValue {
    /// Where in the content the length of the term's posting list stands.
    pub offset: u64,
    /// The number of documents that hold the term.
    pub df: u64,
    /// The bits of the term's inverse document frequency.
    pub idf: u64,
}

/// An inverted index under construction or in use. The files of the index
/// are byte buffers: `index_head_file` and `index_content_file` hold what is
/// stored, `blocks_directory` holds the blocks by their numbers.
pub struct InvertedIndex {
    pub index_head_file: Vec<u8>,
    pub index_content_file: Vec<u8>,
    pub max_map_size: usize,
    pub cur_map_size: usize,
    pub count_of_written_blocks: usize,
    pub blocks_directory: Vec<Vec<u8>>,
    pub head: TermMap<HeadValue>,
}

/// Every block holds records from its first byte to its last.
pub open spec fn blocks_parse(blocks: Seq<Vec<u8>>) -> bool {
    forall|k: int| 0 <= k < blocks.len() ==> parse_records((#[trigger] blocks[k])@) is Some
}

/// The records of the blocks `blocks[from ..]`.
pub open spec fn parsed_blocks(blocks: Seq<Vec<u8>>, from: int) -> Seq<Seq<Record>> {
    Seq::new((blocks.len() - from) as nat, |k: int| parse_records(blocks[from + k]@).unwrap())
}

/// The bytes of the blocks.
pub open spec fn block_views(blocks: Seq<Vec<u8>>) -> Seq<Seq<u8>> {
    Seq::new(blocks.len(), |k: int| blocks[k]@)
}

/// The blocks after merging: while two blocks are left from `front` on
/// and both hold records to their last byte, they are merged into a new
/// block behind the others, and the merging goes on two blocks further.
pub open spec fn merged_blocks(blocks: Seq<Seq<u8>>, front: int) -> Seq<Seq<u8>>
    decreases blocks.len() - front,
{
    if front < 0 || blocks.len() - front < 2 {
        blocks
    } else {
        match merged_from(blocks[front], 0, blocks[front + 1], 0) {
            None => blocks,
            Some(merged) => merged_blocks(blocks.push(encode_records(merged)), front + 2),
        }
    }
}

/// Records whose bytes fit a buffer fit their length fields.
pub proof fn lemma_encoded_fit(rs: Seq<Record>)
    requires
        encode_records(rs).len() <= usize::MAX,
    ensures
        records_fit(rs),
    decreases rs.len(),
{
    if rs.len() > 0 {
        lemma_encode_record_len(rs.last());
        lemma_encoded_fit(rs.drop_last());
        assert forall|i: int| 0 <= i < rs.len() implies record_fits(#[trigger] rs[i]) by {
            if i < rs.len() - 1 {
                assert(rs.drop_last()[i] == rs[i]);
            }
        }
    }
}

/// One merge seen from the queue: the two oldest blocks leave it and the
/// merged block joins it at its back.
proof fn lemma_queue_step(before: Seq<Vec<u8>>, now: Seq<Vec<u8>>, front: int)
    requires
        0 <= front,
        front + 2 <= before.len(),
        now.len() == before.len() + 1,
        now.drop_last() == before,
        parse_records(before[front]@) is Some,
        parse_records(before[front + 1]@) is Some,
        now.last()@.len() <= usize::MAX,
        now.last()@ == encode_records(
            merge_records(
                parse_records(before[front]@).unwrap(),
                parse_records(before[front + 1]@).unwrap(),
            ),
        ),
    ensures
        parse_records(now.last()@) is Some,
        fifo_merge(parsed_blocks(before, front)) == fifo_merge(parsed_blocks(now, front + 2)),
        forall|k: int| 0 <= k < before.len() ==> now[k] == before[k],
{
    assert forall|k: int| 0 <= k < before.len() implies now[k] == before[k] by {
        assert(now.drop_last()[k] == now[k]);
    }
    let l = parse_records(before[front]@).unwrap();
    let r = parse_records(before[front + 1]@).unwrap();
    let m = merge_records(l, r);
    lemma_encoded_fit(m);
    lemma_records_roundtrip(m);
    let q = parsed_blocks(before, front);
    let q2 = parsed_blocks(now, front + 2);
    assert(q[0] == l && q[1] == r);
    assert(q2 =~= q.skip(2).push(m));
}

/// An inverted index without documents, whose blocks take ten thousand
/// postings each.
pub fn create_inverted_index() -> (index: InvertedIndex)
    ensures
        index.max_map_size == 10_000,
        index.blocks_directory@.len() == 0,
        index.count_of_written_blocks == 0,
        index.cur_map_size == 0,
        index.head.wf(),
        index.head.keys@.len() == 0,
        index.index_head_file@.len() == 0,
        index.index_content_file@.len() == 0,
{
    InvertedIndex::with_max_block_postings(10_000)
}

/// Whether an inverted index is stored: its head file and its content
/// file both exist and hold something. Each argument is the length of the
/// file, or `None` where there is no such file.
pub fn is_inverted_index_built(head_file: Option<u64>, content_file: Option<u64>) -> (built: bool)
    ensures
        built == (head_file is Some && head_file.unwrap() > 0 && content_file is Some
            && content_file.unwrap() > 0),
{
    match (head_file, content_file) {
        (Some(head_len), Some(content_len)) => head_len > 0 && content_len > 0,
        _ => false,
    }
}

impl InvertedIndex {
    /// An inverted index without documents, whose blocks take
    /// `max_block_postings` postings each.
    pub fn with_max_block_postings(max_block_postings: usize) -> (index: InvertedIndex)
        ensures
            index.max_map_size == max_block_postings,
            index.blocks_directory@.len() == 0,
            index.count_of_written_blocks == 0,
            index.cur_map_size == 0,
            index.head.wf(),
            index.head.keys@.len() == 0,
            index.index_head_file@.len() == 0,
            index.index_content_file@.len() == 0,
    {
        InvertedIndex {
            index_head_file: Vec::new(),
            index_content_file: Vec::new(),
            max_map_size: max_block_postings,
            cur_map_size: 0,
            count_of_written_blocks: 0,
            blocks_directory: Vec::new(),
            head: TermMap::new(),
        }
    }

    /// Merges the blocks two by two, oldest first, each merged block
    /// getting the next number, until one block is left: the one with the
    /// largest number. Fewer than two blocks are left as they are.
    pub fn merge_blocks(&mut self) -> (r: Result<(), DecodeError>)
        requires
            old(self).blocks_directory@.len() == old(self).count_of_written_blocks,
        ensures
            final(self).index_head_file == old(self).index_head_file,
            final(self).index_content_file == old(self).index_content_file,
            final(self).max_map_size == old(self).max_map_size,
            final(self).cur_map_size == old(self).cur_map_size,
            final(self).head == old(self).head,
            final(self).blocks_directory@.len() == final(self).count_of_written_blocks,
            final(self).blocks_directory@.len() >= old(self).blocks_directory@.len(),
            final(self).blocks_directory@.take(old(self).blocks_directory@.len() as int) == old(
                self,
            ).blocks_directory@,
            old(self).blocks_directory@.len() <= 1 ==> r is Ok && final(self).blocks_directory@
                == old(self).blocks_directory@,
            old(self).blocks_directory@.len() >= 2 && blocks_parse(old(self).blocks_directory@)
                ==> r is Ok && parse_records(final(self).blocks_directory@.last()@) == Some(
                fifo_merge(parsed_blocks(old(self).blocks_directory@, 0)),
            ),
            old(self).blocks_directory@.len() >= 2 && !blocks_parse(old(self).blocks_directory@)
                ==> r == Err::<(), DecodeError>(DecodeError::UnexpectedEof),
            block_views(final(self).blocks_directory@) == merged_blocks(
                block_views(old(self).blocks_directory@),
                0,
            ),
    {
        let ghost n = self.blocks_directory@.len() as int;
        let mut blocks_deq: VecDeque<usize> = VecDeque::new();
        let mut block_num: usize = 0;
        while block_num < self.count_of_written_blocks
            invariant
                *self == *old(self),
                block_num <= self.count_of_written_blocks,
                blocks_deq@.len() == block_num,
                forall|k: int| 0 <= k < blocks_deq@.len() ==> #[trigger] blocks_deq@[k] == k,
            decreases self.count_of_written_blocks - block_num,
        {
            blocks_deq.push_back(block_num);
            block_num = block_num + 1;
        }
        let ghost mut front: int = 0;
        proof {
            assert(self.blocks_directory@.take(n) =~= old(self).blocks_directory@);
        }
        while blocks_deq.len() >= 2
            invariant
                self.index_head_file == old(self).index_head_file,
                self.index_content_file == old(self).index_content_file,
                self.max_map_size == old(self).max_map_size,
                self.cur_map_size == old(self).cur_map_size,
                self.head == old(self).head,
                n == old(self).blocks_directory@.len(),
                self.blocks_directory@.len() == self.count_of_written_blocks,
                self.blocks_directory@.len() >= n,
                self.blocks_directory@.take(n) == old(self).blocks_directory@,
                0 <= front <= self.blocks_directory@.len(),
                front == 2 * (self.blocks_directory@.len() - n),
                blocks_deq@.len() == self.blocks_directory@.len() - front,
                forall|k: int|
                    0 <= k < blocks_deq@.len() ==> #[trigger] blocks_deq@[k] == front + k,
                n >= 1 ==> blocks_deq@.len() >= 1,
                forall|k: int|
                    n <= k < self.blocks_directory@.len() ==> parse_records(
                        (#[trigger] self.blocks_directory@[k])@,
                    ) is Some,
                forall|k: int|
                    0 <= k < front && k < n ==> parse_records(
                        (#[trigger] self.blocks_directory@[k])@,
                    ) is Some,
                blocks_parse(old(self).blocks_directory@) ==> fifo_merge(
                    parsed_blocks(old(self).blocks_directory@, 0),
                ) == fifo_merge(parsed_blocks(self.blocks_directory@, front)),
                merged_blocks(block_views(old(self).blocks_directory@), 0) == merged_blocks(
                    block_views(self.blocks_directory@),
                    front,
                ),
            decreases blocks_deq@.len(),
        {
            let ghost before = self.blocks_directory@;
            let lhs = blocks_deq.pop_front().unwrap();
            let rhs = blocks_deq.pop_front().unwrap();
            assert(lhs == front && rhs == front + 1);
            let merged = self.merge_task(lhs, rhs);
            if merged.is_err() {
                proof {
                    assert(parse_records(before[front]@) is None || parse_records(
                        before[front + 1]@,
                    ) is None);
                    let bad = if parse_records(before[front]@) is None {
                        front
                    } else {
                        front + 1
                    };
                    assert(bad < n);
                    assert(before.take(n)[bad] == before[bad]);
                    assert(parse_records(old(self).blocks_directory@[bad]@) is None);
                }
                return Err(DecodeError::UnexpectedEof);
            }
            blocks_deq.push_back(self.count_of_written_blocks);
            self.count_of_written_blocks = self.blocks_directory.len();
            proof {
                let now = self.blocks_directory@;
                assert(now.last().len() == now.last()@.len());
                lemma_queue_step(before, now, front);
                assert(now.take(n) =~= before.take(n));
                assert(block_views(now) =~= block_views(before).push(now.last()@));
                front = front + 2;
            }
        }
        proof {
            if n >= 2 {
                assert(front >= n);
                assert forall|k: int| 0 <= k < n implies parse_records(
                    (#[trigger] old(self).blocks_directory@[k])@,
                ) is Some by {
                    assert(self.blocks_directory@.take(n)[k] == self.blocks_directory@[k]);
                }
                let q = parsed_blocks(self.blocks_directory@, front);
                assert(q.len() == 1);
                assert(q[0] == parse_records(self.blocks_directory@.last()@).unwrap());
            } else {
                assert(self.blocks_directory@.take(n) =~= self.blocks_directory@);
            }
        }
        Ok(())
    }
}

} // verus!
