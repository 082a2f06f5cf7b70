//! The records of the forward content: the words of a document with their
//! weights, as bytes and as values.

use crate::bytes::{be_u64, lemma_be_u64_at, lemma_u64_at_be, u64_at};
use vstd::prelude::*;

verus! {

/// A word of a document with the bits of its weight.
pub struct ForwardEntry {
    pub term: Seq<u8>,
    pub tf: u64,
}

/// The bytes of an entry: the length of the word, the word, the weight.
pub open spec fn encode_entry(e: ForwardEntry) -> Seq<u8> {
    be_u64(e.term.len() as u64) + e.term + be_u64(e.tf)
}

/// The bytes of the entries, one after the other.
pub open spec fn encode_entries(es: Seq<ForwardEntry>) -> Seq<u8>
    decreases es.len(),
{
    if es.len() == 0 {
        Seq::empty()
    } else {
        encode_entries(es.drop_last()) + encode_entry(es.last())
    }
}

/// The bytes of the record of a document: the number of its words, then an
/// entry for each word.
pub open spec fn encode_forward(es: Seq<ForwardEntry>) -> Seq<u8> {
    be_u64(es.len() as u64) + encode_entries(es)
}

/// The number of bytes of the entries.
pub open spec fn entries_len(es: Seq<ForwardEntry>) -> int
    decreases es.len(),
{
    if es.len() == 0 {
        0
    } else {
        entries_len(es.drop_last()) + 16 + es.last().term.len()
    }
}

/// The entry that starts at `p`, with the position behind it; `None` if
/// the data ends before the entry does.
pub open spec fn parse_entry_at(data: Seq<u8>, p: int) -> Option<(ForwardEntry, int)> {
    if p < 0 || p + 8 > data.len() {
        None
    } else {
        let wl = u64_at(data, p) as int;
        if p + 8 + wl + 8 > data.len() {
            None
        } else {
            Some(
                (
                    ForwardEntry {
                        term: data.subrange(p + 8, p + 8 + wl),
                        tf: u64_at(data, p + 8 + wl),
                    },
                    p + 16 + wl,
                ),
            )
        }
    }
}

/// The `n` entries that start at `p`; `None` if the data ends before the
/// last of them does.
pub open spec fn parse_entries(data: Seq<u8>, p: int, n: nat) -> Option<Seq<ForwardEntry>>
    decreases n,
{
    if n == 0 {
        Some(Seq::empty())
    } else {
        match parse_entry_at(data, p) {
            None => None,
            Some((e, next)) => match parse_entries(data, next, (n - 1) as nat) {
                None => None,
                Some(rest) => Some(seq![e] + rest),
            },
        }
    }
}

/// The record of a document that starts at `p`; `None` if the data ends
/// before the record does.
pub open spec fn parse_forward_at(data: Seq<u8>, p: int) -> Option<Seq<ForwardEntry>> {
    if p < 0 || p + 8 > data.len() {
        None
    } else {
        parse_entries(data, p + 8, u64_at(data, p) as nat)
    }
}

/// Every word of the entries fits its length field.
pub open spec fn entries_fit(es: Seq<ForwardEntry>) -> bool {
    &&& es.len() <= u64::MAX
    &&& forall|j: int| 0 <= j < es.len() ==> (#[trigger] es[j]).term.len() <= u64::MAX
}

/// The bytes of entries are as many as their lengths say.
pub proof fn lemma_encode_entries_len(es: Seq<ForwardEntry>)
    ensures
        encode_entries(es).len() == entries_len(es),
    decreases es.len(),
{
    if es.len() > 0 {
        lemma_encode_entries_len(es.drop_last());
    }
}

/// The bytes of entries begin with the bytes of the first entry.
pub proof fn lemma_encode_entries_front(e: ForwardEntry, rest: Seq<ForwardEntry>)
    ensures
        encode_entries(seq![e] + rest) == encode_entry(e) + encode_entries(rest),
        entries_len(seq![e] + rest) == 16 + e.term.len() + entries_len(rest),
    decreases rest.len(),
{
    let all = seq![e] + rest;
    if rest.len() == 0 {
        assert(all.drop_last() =~= Seq::<ForwardEntry>::empty());
        assert(encode_entries(all.drop_last()) =~= Seq::<u8>::empty());
        assert(encode_entries(all) =~= encode_entry(e) + encode_entries(rest));
        assert(all.last() == e);
        assert(entries_len(all.drop_last()) == 0);
        assert(entries_len(rest) == 0);
    } else {
        lemma_encode_entries_front(e, rest.drop_last());
        assert(all.drop_last() =~= seq![e] + rest.drop_last());
        assert(all.last() == rest.last());
        assert(encode_entries(all) =~= encode_entry(e) + encode_entries(rest));
    }
}

/// Reading where entries were written gives those entries.
pub proof fn lemma_parse_encoded_entries(data: Seq<u8>, p: int, es: Seq<ForwardEntry>)
    requires
        0 <= p,
        entries_fit(es),
        p + entries_len(es) <= data.len(),
        data.subrange(p, p + entries_len(es)) == encode_entries(es),
    ensures
        parse_entries(data, p, es.len()) == Some(es),
    decreases es.len(),
{
    if es.len() == 0 {
        assert(es =~= Seq::<ForwardEntry>::empty());
    } else {
        let e = es[0];
        let rest = es.skip(1);
        assert(es =~= seq![e] + rest);
        lemma_encode_entries_front(e, rest);
        lemma_encode_entries_len(rest);
        let wl = e.term.len() as int;
        let whole = data.subrange(p, p + entries_len(es));
        let next = p + 16 + wl;
        assert(data.subrange(p, p + 8) =~= be_u64(wl as u64)) by {
            assert(whole.subrange(0, 8) =~= be_u64(wl as u64));
            assert(whole.subrange(0, 8) =~= data.subrange(p, p + 8));
        }
        lemma_u64_at_be(data, p, wl as u64);
        assert(data.subrange(p + 8, p + 8 + wl) =~= e.term) by {
            assert(whole.subrange(8, 8 + wl) =~= e.term);
            assert(whole.subrange(8, 8 + wl) =~= data.subrange(p + 8, p + 8 + wl));
        }
        assert(data.subrange(p + 8 + wl, p + 16 + wl) =~= be_u64(e.tf)) by {
            assert(whole.subrange(8 + wl, 16 + wl) =~= be_u64(e.tf));
            assert(whole.subrange(8 + wl, 16 + wl) =~= data.subrange(p + 8 + wl, p + 16 + wl));
        }
        lemma_u64_at_be(data, p + 8 + wl, e.tf);
        assert(data.subrange(next, next + entries_len(rest)) =~= encode_entries(rest)) by {
            assert(whole.subrange(16 + wl, whole.len() as int) =~= encode_entries(rest));
            assert(whole.subrange(16 + wl, whole.len() as int) =~= data.subrange(
                next,
                next + entries_len(rest),
            ));
        }
        assert(entries_fit(rest)) by {
            assert forall|j: int| 0 <= j < rest.len() implies (#[trigger] rest[j]).term.len()
                <= u64::MAX by {
                assert(rest[j] == es[j + 1]);
            }
        }
        lemma_parse_encoded_entries(data, next, rest);
    }
}

/// Reading where the record of a document was written gives its entries.
pub proof fn lemma_parse_encoded_forward(data: Seq<u8>, p: int, es: Seq<ForwardEntry>)
    requires
        0 <= p,
        entries_fit(es),
        p + 8 + entries_len(es) <= data.len(),
        data.subrange(p, p + 8 + entries_len(es)) == encode_forward(es),
    ensures
        parse_forward_at(data, p) == Some(es),
{
    let whole = data.subrange(p, p + 8 + entries_len(es));
    lemma_encode_entries_len(es);
    assert(data.subrange(p, p + 8) =~= be_u64(es.len() as u64)) by {
        assert(whole.subrange(0, 8) =~= be_u64(es.len() as u64));
        assert(whole.subrange(0, 8) =~= data.subrange(p, p + 8));
    }
    lemma_u64_at_be(data, p, es.len() as u64);
    assert(data.subrange(p + 8, p + 8 + entries_len(es)) =~= encode_entries(es)) by {
        assert(whole.subrange(8, whole.len() as int) =~= encode_entries(es));
        assert(whole.subrange(8, whole.len() as int) =~= data.subrange(
            p + 8,
            p + 8 + entries_len(es),
        ));
    }
    lemma_parse_encoded_entries(data, p + 8, es);
}

/// Entries that are read from data are read from the data with more
/// behind it too.
pub proof fn lemma_parse_entries_stable(data: Seq<u8>, more: Seq<u8>, p: int, n: nat)
    requires
        parse_entries(data, p, n) is Some,
    ensures
        parse_entries(data + more, p, n) == parse_entries(data, p, n),
    decreases n,
{
    if n > 0 {
        let (e, next) = parse_entry_at(data, p).unwrap();
        let long = data + more;
        let wl = u64_at(data, p) as int;
        assert(u64_at(long, p) == u64_at(data, p)) by {
            assert(forall|k: int| p <= k < p + 8 ==> long[k] == data[k]);
        }
        assert(u64_at(long, p + 8 + wl) == u64_at(data, p + 8 + wl)) by {
            assert(forall|k: int| p + 8 + wl <= k < p + 16 + wl ==> long[k] == data[k]);
        }
        assert(long.subrange(p + 8, p + 8 + wl) =~= data.subrange(p + 8, p + 8 + wl));
        lemma_parse_entries_stable(data, more, next, (n - 1) as nat);
    }
}

/// A record that is read from data is read from the data with more behind
/// it too.
pub proof fn lemma_parse_forward_stable(data: Seq<u8>, more: Seq<u8>, p: int)
    requires
        parse_forward_at(data, p) is Some,
    ensures
        parse_forward_at(data + more, p) == parse_forward_at(data, p),
{
    let long = data + more;
    assert(u64_at(long, p) == u64_at(data, p)) by {
        assert(forall|k: int| p <= k < p + 8 ==> long[k] == data[k]);
    }
    lemma_parse_entries_stable(data, more, p + 8, u64_at(data, p) as nat);
}


/// The bytes from which entries were read are the bytes of those entries.
pub proof fn lemma_encode_parsed_entries(data: Seq<u8>, p: int, n: nat)
    requires
        0 <= p <= data.len(),
        parse_entries(data, p, n) is Some,
    ensures
        parse_entries(data, p, n).unwrap().len() == n,
        p + entries_len(parse_entries(data, p, n).unwrap()) <= data.len(),
        encode_entries(parse_entries(data, p, n).unwrap()) == data.subrange(
            p,
            p + entries_len(parse_entries(data, p, n).unwrap()),
        ),
    decreases n,
{
    let es = parse_entries(data, p, n).unwrap();
    if n == 0 {
        assert(data.subrange(p, p) =~= Seq::<u8>::empty());
    } else {
        let (e, next) = parse_entry_at(data, p).unwrap();
        let rest = parse_entries(data, next, (n - 1) as nat).unwrap();
        let wl = u64_at(data, p) as int;
        lemma_encode_parsed_entries(data, next, (n - 1) as nat);
        lemma_encode_entries_front(e, rest);
        lemma_encode_entries_len(rest);
        lemma_be_u64_at(data, p);
        lemma_be_u64_at(data, p + 8 + wl);
        assert(es == seq![e] + rest);
        assert(entries_len(es) == 16 + wl + entries_len(rest));
        assert(encode_entry(e) =~= data.subrange(p, next));
        assert(data.subrange(p, next) + data.subrange(next, next + entries_len(rest))
            =~= data.subrange(p, p + entries_len(es)));
    }
}

/// The bytes from which the record of a document was read are the bytes
/// of its entries.
pub proof fn lemma_encode_parsed_forward(data: Seq<u8>, p: int)
    requires
        parse_forward_at(data, p) is Some,
    ensures
        p + 8 + entries_len(parse_forward_at(data, p).unwrap()) <= data.len(),
        encode_forward(parse_forward_at(data, p).unwrap()) == data.subrange(
            p,
            p + 8 + entries_len(parse_forward_at(data, p).unwrap()),
        ),
{
    let es = parse_forward_at(data, p).unwrap();
    lemma_encode_parsed_entries(data, p + 8, u64_at(data, p) as nat);
    lemma_encode_entries_len(es);
    lemma_be_u64_at(data, p);
    assert(data.subrange(p, p + 8) + data.subrange(p + 8, p + 8 + entries_len(es))
        =~= data.subrange(p, p + 8 + entries_len(es)));
}

} // verus!
