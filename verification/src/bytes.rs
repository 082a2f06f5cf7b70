//! Big-endian integers inside byte strings, and the lexicographic order on
//! byte strings.

use vstd::prelude::*;

verus! {

/// The eight bytes of `x`, most significant first.
pub open spec fn be_u64(x: u64) -> Seq<u8> {
    seq![
        (x >> 56) as u8,
        ((x >> 48) & 0xff) as u8,
        ((x >> 40) & 0xff) as u8,
        ((x >> 32) & 0xff) as u8,
        ((x >> 24) & 0xff) as u8,
        ((x >> 16) & 0xff) as u8,
        ((x >> 8) & 0xff) as u8,
        (x & 0xff) as u8,
    ]
}

/// The four bytes of `x`, most significant first.
pub open spec fn be_u32(x: u32) -> Seq<u8> {
    seq![(x >> 24) as u8, ((x >> 16) & 0xff) as u8, ((x >> 8) & 0xff) as u8, (x & 0xff) as u8]
}

/// The integer whose big-endian bytes are `data[p .. p + 8]`.
pub open spec fn u64_at(data: Seq<u8>, p: int) -> u64 {
    (data[p] as u64) << 56 | (data[p + 1] as u64) << 48 | (data[p + 2] as u64) << 40 | (data[p
        + 3] as u64) << 32 | (data[p + 4] as u64) << 24 | (data[p + 5] as u64) << 16 | (data[p
        + 6] as u64) << 8 | (data[p + 7] as u64)
}

/// The integer whose big-endian bytes are `data[p .. p + 4]`.
pub open spec fn u32_at(data: Seq<u8>, p: int) -> u32 {
    (data[p] as u32) << 24 | (data[p + 1] as u32) << 16 | (data[p + 2] as u32) << 8 | (data[p
        + 3] as u32)
}

/// Reading back what `be_u64` wrote gives the integer that was written.
pub proof fn lemma_u64_at_be(data: Seq<u8>, p: int, x: u64)
    requires
        0 <= p,
        p + 8 <= data.len(),
        data.subrange(p, p + 8) == be_u64(x),
    ensures
        u64_at(data, p) == x,
{
    let s = data.subrange(p, p + 8);
    assert(data[p] == s[0] && data[p + 1] == s[1] && data[p + 2] == s[2] && data[p + 3] == s[3]);
    assert(data[p + 4] == s[4] && data[p + 5] == s[5] && data[p + 6] == s[6] && data[p + 7]
        == s[7]);
    assert(((((x >> 56) as u8) as u64) << 56 | ((((x >> 48) & 0xff) as u8) as u64) << 48 | ((((x
        >> 40) & 0xff) as u8) as u64) << 40 | ((((x >> 32) & 0xff) as u8) as u64) << 32 | ((((x
        >> 24) & 0xff) as u8) as u64) << 24 | ((((x >> 16) & 0xff) as u8) as u64) << 16 | ((((x
        >> 8) & 0xff) as u8) as u64) << 8 | (((x & 0xff) as u8) as u64)) == x) by (bit_vector);
}

/// Writing the integer read at `p` gives the eight bytes that stand there.
pub proof fn lemma_be_u64_at(data: Seq<u8>, p: int)
    requires
        0 <= p,
        p + 8 <= data.len(),
    ensures
        be_u64(u64_at(data, p)) == data.subrange(p, p + 8),
{
    let b0 = data[p];
    let b1 = data[p + 1];
    let b2 = data[p + 2];
    let b3 = data[p + 3];
    let b4 = data[p + 4];
    let b5 = data[p + 5];
    let b6 = data[p + 6];
    let b7 = data[p + 7];
    let x = u64_at(data, p);
    assert(x == (b0 as u64) << 56 | (b1 as u64) << 48 | (b2 as u64) << 40 | (b3 as u64) << 32 | (
    b4 as u64) << 24 | (b5 as u64) << 16 | (b6 as u64) << 8 | (b7 as u64));
    assert((x >> 56) as u8 == b0 && ((x >> 48) & 0xff) as u8 == b1 && ((x >> 40) & 0xff) as u8 == b2
        && ((x >> 32) & 0xff) as u8 == b3 && ((x >> 24) & 0xff) as u8 == b4 && ((x >> 16)
        & 0xff) as u8 == b5 && ((x >> 8) & 0xff) as u8 == b6 && (x & 0xff) as u8 == b7)
        by (bit_vector)
        requires
            x == (b0 as u64) << 56 | (b1 as u64) << 48 | (b2 as u64) << 40 | (b3 as u64) << 32 | (
            b4 as u64) << 24 | (b5 as u64) << 16 | (b6 as u64) << 8 | (b7 as u64),
    ;
    assert(be_u64(x) =~= data.subrange(p, p + 8));
}

/// Reading back what `be_u32` wrote gives the integer that was written.
pub proof fn lemma_u32_at_be(data: Seq<u8>, p: int, x: u32)
    requires
        0 <= p,
        p + 4 <= data.len(),
        data.subrange(p, p + 4) == be_u32(x),
    ensures
        u32_at(data, p) == x,
{
    let s = data.subrange(p, p + 4);
    assert(data[p] == s[0] && data[p + 1] == s[1] && data[p + 2] == s[2] && data[p + 3] == s[3]);
    assert(((((x >> 24) as u8) as u32) << 24 | ((((x >> 16) & 0xff) as u8) as u32) << 16 | ((((x
        >> 8) & 0xff) as u8) as u32) << 8 | (((x & 0xff) as u8) as u32)) == x) by (bit_vector);
}

/// Writing the integer read at `p` gives the four bytes that stand there.
pub proof fn lemma_be_u32_at(data: Seq<u8>, p: int)
    requires
        0 <= p,
        p + 4 <= data.len(),
    ensures
        be_u32(u32_at(data, p)) == data.subrange(p, p + 4),
{
    let b0 = data[p];
    let b1 = data[p + 1];
    let b2 = data[p + 2];
    let b3 = data[p + 3];
    let x = u32_at(data, p);
    assert(x == (b0 as u32) << 24 | (b1 as u32) << 16 | (b2 as u32) << 8 | (b3 as u32));
    assert((x >> 24) as u8 == b0 && ((x >> 16) & 0xff) as u8 == b1 && ((x >> 8) & 0xff) as u8 == b2
        && (x & 0xff) as u8 == b3) by (bit_vector)
        requires
            x == (b0 as u32) << 24 | (b1 as u32) << 16 | (b2 as u32) << 8 | (b3 as u32),
    ;
    assert(be_u32(x) =~= data.subrange(p, p + 4));
}

/// Appends the big-endian bytes of `x` to `out`.
pub fn push_u64(out: &mut Vec<u8>, x: u64)
    ensures
        final(out)@ == old(out)@ + be_u64(x),
{
    out.push((x >> 56) as u8);
    out.push(((x >> 48) & 0xff) as u8);
    out.push(((x >> 40) & 0xff) as u8);
    out.push(((x >> 32) & 0xff) as u8);
    out.push(((x >> 24) & 0xff) as u8);
    out.push(((x >> 16) & 0xff) as u8);
    out.push(((x >> 8) & 0xff) as u8);
    out.push((x & 0xff) as u8);
    assert(out@ =~= old(out)@ + be_u64(x));
}

/// Appends the big-endian bytes of `x` to `out`.
pub fn push_u32(out: &mut Vec<u8>, x: u32)
    ensures
        final(out)@ == old(out)@ + be_u32(x),
{
    out.push((x >> 24) as u8);
    out.push(((x >> 16) & 0xff) as u8);
    out.push(((x >> 8) & 0xff) as u8);
    out.push((x & 0xff) as u8);
    assert(out@ =~= old(out)@ + be_u32(x));
}

/// Reads the big-endian integer that stands at `pos`.
pub fn read_u64(data: &[u8], pos: usize) -> (x: u64)
    requires
        pos + 8 <= data@.len(),
    ensures
        x == u64_at(data@, pos as int),
{
    (data[pos] as u64) << 56 | (data[pos + 1] as u64) << 48 | (data[pos + 2] as u64) << 40 | (
    data[pos + 3] as u64) << 32 | (data[pos + 4] as u64) << 24 | (data[pos + 5] as u64) << 16 | (
    data[pos + 6] as u64) << 8 | (data[pos + 7] as u64)
}

/// Reads the big-endian integer that stands at `pos`.
pub fn read_u32(data: &[u8], pos: usize) -> (x: u32)
    requires
        pos + 4 <= data@.len(),
    ensures
        x == u32_at(data@, pos as int),
{
    (data[pos] as u32) << 24 | (data[pos + 1] as u32) << 16 | (data[pos + 2] as u32) << 8 | (
    data[pos + 3] as u32)
}

/// Appends `data[from .. to]` to `out`.
pub fn push_range(out: &mut Vec<u8>, data: &[u8], from: usize, to: usize)
    requires
        from <= to <= data@.len(),
    ensures
        final(out)@ == old(out)@ + data@.subrange(from as int, to as int),
{
    let mut i: usize = from;
    while i < to
        invariant
            from <= i <= to <= data@.len(),
            out@ == old(out)@ + data@.subrange(from as int, i as int),
        decreases to - i,
    {
        out.push(data[i]);
        i = i + 1;
        assert(out@ =~= old(out)@ + data@.subrange(from as int, i as int));
    }
}

/// Whether the bytes are valid UTF-8. This is what `core::str::from_utf8`
/// decides: it succeeds on the byte strings that are well-formed UTF-8 and
/// on no others.
#[verifier::external_body]
pub(crate) fn is_valid_utf8(bytes: &[u8]) -> (valid: bool)
    ensures
        valid == vstd::utf8::valid_utf8(bytes@),
{
    core::str::from_utf8(bytes).is_ok()
}

/// A copy of `data[from .. to]`.
pub fn copy_range(data: &[u8], from: usize, to: usize) -> (out: Vec<u8>)
    requires
        from <= to <= data@.len(),
    ensures
        out@ == data@.subrange(from as int, to as int),
{
    let mut out: Vec<u8> = Vec::new();
    push_range(&mut out, data, from, to);
    assert(out@ =~= data@.subrange(from as int, to as int));
    out
}

/// `a` comes before `b` when the two are compared byte by byte from index
/// `i` on, a proper prefix coming before what it is a prefix of.
pub open spec fn lex_lt_from(a: Seq<u8>, b: Seq<u8>, i: int) -> bool
    decreases a.len() - i,
{
    if i < 0 || i >= b.len() {
        false
    } else if i >= a.len() {
        true
    } else if a[i] != b[i] {
        a[i] < b[i]
    } else {
        lex_lt_from(a, b, i + 1)
    }
}

/// The lexicographic order on byte strings.
pub open spec fn lex_lt(a: Seq<u8>, b: Seq<u8>) -> bool {
    lex_lt_from(a, b, 0)
}

/// `a` and `b` agree on their first `i` bytes.
pub open spec fn same_prefix(a: Seq<u8>, b: Seq<u8>, i: int) -> bool {
    &&& 0 <= i <= a.len()
    &&& i <= b.len()
    &&& forall|k: int| 0 <= k < i ==> a[k] == b[k]
}

/// Of two byte strings that agree before index `i` exactly one of these
/// holds: the first comes before the second from `i` on, the second before
/// the first, or they are equal.
proof fn lemma_trichotomy_from(a: Seq<u8>, b: Seq<u8>, i: int)
    requires
        same_prefix(a, b, i),
    ensures
        lex_lt_from(a, b, i) || lex_lt_from(b, a, i) || a == b,
        !(lex_lt_from(a, b, i) && lex_lt_from(b, a, i)),
        !(lex_lt_from(a, b, i) && a == b),
        !(lex_lt_from(b, a, i) && a == b),
    decreases a.len() - i,
{
    if i < a.len() && i < b.len() {
        if a[i] == b[i] {
            lemma_trichotomy_from(a, b, i + 1);
        }
    } else if i == a.len() && i == b.len() {
        assert(a =~= b);
    }
}

/// Coming before from index `i` on is transitive.
proof fn lemma_transitive_from(a: Seq<u8>, b: Seq<u8>, c: Seq<u8>, i: int)
    requires
        0 <= i,
        lex_lt_from(a, b, i),
        lex_lt_from(b, c, i),
    ensures
        lex_lt_from(a, c, i),
    decreases a.len() - i,
{
    if i < a.len() && a[i] == b[i] && b[i] == c[i] {
        lemma_transitive_from(a, b, c, i + 1);
    }
}

/// Of two byte strings exactly one of these holds: the first comes before
/// the second, the second before the first, or they are equal.
pub proof fn lemma_lex_trichotomy(a: Seq<u8>, b: Seq<u8>)
    ensures
        lex_lt(a, b) || lex_lt(b, a) || a == b,
        !(lex_lt(a, b) && lex_lt(b, a)),
        !(lex_lt(a, b) && a == b),
        !(lex_lt(b, a) && a == b),
{
    lemma_trichotomy_from(a, b, 0);
}

/// The lexicographic order is transitive.
pub proof fn lemma_lex_transitive(a: Seq<u8>, b: Seq<u8>, c: Seq<u8>)
    requires
        lex_lt(a, b),
        lex_lt(b, c),
    ensures
        lex_lt(a, c),
{
    lemma_transitive_from(a, b, c, 0);
}

/// Comparing from index `n + j` on, behind first parts of one length `n`,
/// is comparing the second parts from index `j` on.
proof fn lemma_lex_behind(a1: Seq<u8>, a2: Seq<u8>, b1: Seq<u8>, b2: Seq<u8>, j: int)
    requires
        a1.len() == b1.len(),
        0 <= j,
    ensures
        lex_lt_from(a1 + a2, b1 + b2, a1.len() + j) == lex_lt_from(a2, b2, j),
    decreases a2.len() - j,
{
    let n = a1.len() as int;
    if j < a2.len() && j < b2.len() {
        assert((a1 + a2)[n + j] == a2[j]);
        assert((b1 + b2)[n + j] == b2[j]);
        if a2[j] == b2[j] {
            lemma_lex_behind(a1, a2, b1, b2, j + 1);
        }
    }
}

/// Comparing from index `i` on, inside first parts of one length that agree
/// before `i`, is comparing the first parts from `i` on and, where they are
/// equal, the second parts.
proof fn lemma_lex_concat_from(a1: Seq<u8>, a2: Seq<u8>, b1: Seq<u8>, b2: Seq<u8>, i: int)
    requires
        a1.len() == b1.len(),
        same_prefix(a1, b1, i),
    ensures
        lex_lt_from(a1 + a2, b1 + b2, i) == (lex_lt_from(a1, b1, i) || (a1 == b1 && lex_lt(
            a2,
            b2,
        ))),
    decreases a1.len() - i,
{
    if i < a1.len() {
        assert((a1 + a2)[i] == a1[i]);
        assert((b1 + b2)[i] == b1[i]);
        if a1[i] == b1[i] {
            lemma_lex_concat_from(a1, a2, b1, b2, i + 1);
        } else {
            assert(a1 != b1);
        }
    } else {
        assert(a1 =~= b1);
        lemma_lex_behind(a1, a2, b1, b2, 0);
    }
}

/// Of two byte strings whose first parts have one length, the one with
/// the smaller first part comes first, and where the first parts are equal
/// the one with the smaller second part.
pub proof fn lemma_lex_concat(a1: Seq<u8>, a2: Seq<u8>, b1: Seq<u8>, b2: Seq<u8>)
    requires
        a1.len() == b1.len(),
    ensures
        lex_lt(a1 + a2, b1 + b2) == (lex_lt(a1, b1) || (a1 == b1 && lex_lt(a2, b2))),
{
    lemma_lex_concat_from(a1, a2, b1, b2, 0);
}

/// The big-endian bytes of integers are ordered as the integers are.
pub proof fn lemma_be_u64_order(x: u64, y: u64)
    ensures
        lex_lt(be_u64(x), be_u64(y)) == (x < y),
        (be_u64(x) == be_u64(y)) == (x == y),
{
    let a = be_u64(x);
    let b = be_u64(y);
    assert(a.len() == 8 && b.len() == 8);
    let x1 = x & 0x00ff_ffff_ffff_ffff;
    let y1 = y & 0x00ff_ffff_ffff_ffff;
    let x2 = x & 0x0000_ffff_ffff_ffff;
    let y2 = y & 0x0000_ffff_ffff_ffff;
    let x3 = x & 0x0000_00ff_ffff_ffff;
    let y3 = y & 0x0000_00ff_ffff_ffff;
    let x4 = x & 0x0000_0000_ffff_ffff;
    let y4 = y & 0x0000_0000_ffff_ffff;
    let x5 = x & 0x0000_0000_00ff_ffff;
    let y5 = y & 0x0000_0000_00ff_ffff;
    let x6 = x & 0x0000_0000_0000_ffff;
    let y6 = y & 0x0000_0000_0000_ffff;
    let x7 = x & 0x0000_0000_0000_00ff;
    let y7 = y & 0x0000_0000_0000_00ff;
    assert(lex_lt_from(a, b, 8) == false);
    assert((x7 < y7) == (((x & 0xff) as u8) < ((y & 0xff) as u8))) by (bit_vector)
        requires
            x7 == x & 0x0000_0000_0000_00ff,
            y7 == y & 0x0000_0000_0000_00ff,
    ;
    assert(lex_lt_from(a, b, 7) == (x7 < y7));
    assert((x6 < y6) == ((((x >> 8) & 0xff) as u8) < (((y >> 8) & 0xff) as u8) || ((((x >> 8)
        & 0xff) as u8) == (((y >> 8) & 0xff) as u8) && x7 < y7))) by (bit_vector)
        requires
            x7 == x & 0x0000_0000_0000_00ff,
            y7 == y & 0x0000_0000_0000_00ff,
            x6 == x & 0x0000_0000_0000_ffff,
            y6 == y & 0x0000_0000_0000_ffff,
    ;
    assert(lex_lt_from(a, b, 6) == (x6 < y6));
    assert((x5 < y5) == ((((x >> 16) & 0xff) as u8) < (((y >> 16) & 0xff) as u8) || ((((x >> 16)
        & 0xff) as u8) == (((y >> 16) & 0xff) as u8) && x6 < y6))) by (bit_vector)
        requires
            x6 == x & 0x0000_0000_0000_ffff,
            y6 == y & 0x0000_0000_0000_ffff,
            x5 == x & 0x0000_0000_00ff_ffff,
            y5 == y & 0x0000_0000_00ff_ffff,
    ;
    assert(lex_lt_from(a, b, 5) == (x5 < y5));
    assert((x4 < y4) == ((((x >> 24) & 0xff) as u8) < (((y >> 24) & 0xff) as u8) || ((((x >> 24)
        & 0xff) as u8) == (((y >> 24) & 0xff) as u8) && x5 < y5))) by (bit_vector)
        requires
            x5 == x & 0x0000_0000_00ff_ffff,
            y5 == y & 0x0000_0000_00ff_ffff,
            x4 == x & 0x0000_0000_ffff_ffff,
            y4 == y & 0x0000_0000_ffff_ffff,
    ;
    assert(lex_lt_from(a, b, 4) == (x4 < y4));
    assert((x3 < y3) == ((((x >> 32) & 0xff) as u8) < (((y >> 32) & 0xff) as u8) || ((((x >> 32)
        & 0xff) as u8) == (((y >> 32) & 0xff) as u8) && x4 < y4))) by (bit_vector)
        requires
            x4 == x & 0x0000_0000_ffff_ffff,
            y4 == y & 0x0000_0000_ffff_ffff,
            x3 == x & 0x0000_00ff_ffff_ffff,
            y3 == y & 0x0000_00ff_ffff_ffff,
    ;
    assert(lex_lt_from(a, b, 3) == (x3 < y3));
    assert((x2 < y2) == ((((x >> 40) & 0xff) as u8) < (((y >> 40) & 0xff) as u8) || ((((x >> 40)
        & 0xff) as u8) == (((y >> 40) & 0xff) as u8) && x3 < y3))) by (bit_vector)
        requires
            x3 == x & 0x0000_00ff_ffff_ffff,
            y3 == y & 0x0000_00ff_ffff_ffff,
            x2 == x & 0x0000_ffff_ffff_ffff,
            y2 == y & 0x0000_ffff_ffff_ffff,
    ;
    assert(lex_lt_from(a, b, 2) == (x2 < y2));
    assert((x1 < y1) == ((((x >> 48) & 0xff) as u8) < (((y >> 48) & 0xff) as u8) || ((((x >> 48)
        & 0xff) as u8) == (((y >> 48) & 0xff) as u8) && x2 < y2))) by (bit_vector)
        requires
            x2 == x & 0x0000_ffff_ffff_ffff,
            y2 == y & 0x0000_ffff_ffff_ffff,
            x1 == x & 0x00ff_ffff_ffff_ffff,
            y1 == y & 0x00ff_ffff_ffff_ffff,
    ;
    assert(lex_lt_from(a, b, 1) == (x1 < y1));
    assert((x < y) == (((x >> 56) as u8) < ((y >> 56) as u8) || (((x >> 56) as u8) == ((y
        >> 56) as u8) && x1 < y1))) by (bit_vector)
        requires
            x1 == x & 0x00ff_ffff_ffff_ffff,
            y1 == y & 0x00ff_ffff_ffff_ffff,
    ;
    assert(lex_lt_from(a, b, 0) == (x < y));
    if x == y {
        assert(a =~= b);
    }
    if a == b {
        assert(a.subrange(0, 8) =~= a);
        lemma_u64_at_be(a, 0, x);
        lemma_u64_at_be(a, 0, y);
    }
}

/// The big-endian bytes of integers are ordered as the integers are.
pub proof fn lemma_be_u32_order(x: u32, y: u32)
    ensures
        lex_lt(be_u32(x), be_u32(y)) == (x < y),
        (be_u32(x) == be_u32(y)) == (x == y),
{
    let a = be_u32(x);
    let b = be_u32(y);
    assert(a.len() == 4 && b.len() == 4);
    let x1 = x & 0x00ff_ffff;
    let y1 = y & 0x00ff_ffff;
    let x2 = x & 0x0000_ffff;
    let y2 = y & 0x0000_ffff;
    let x3 = x & 0x0000_00ff;
    let y3 = y & 0x0000_00ff;
    assert(lex_lt_from(a, b, 4) == false);
    assert((x3 < y3) == (((x & 0xff) as u8) < ((y & 0xff) as u8))) by (bit_vector)
        requires
            x3 == x & 0x0000_00ff,
            y3 == y & 0x0000_00ff,
    ;
    assert(lex_lt_from(a, b, 3) == (x3 < y3));
    assert((x2 < y2) == ((((x >> 8) & 0xff) as u8) < (((y >> 8) & 0xff) as u8) || ((((x >> 8)
        & 0xff) as u8) == (((y >> 8) & 0xff) as u8) && x3 < y3))) by (bit_vector)
        requires
            x3 == x & 0x0000_00ff,
            y3 == y & 0x0000_00ff,
            x2 == x & 0x0000_ffff,
            y2 == y & 0x0000_ffff,
    ;
    assert(lex_lt_from(a, b, 2) == (x2 < y2));
    assert((x1 < y1) == ((((x >> 16) & 0xff) as u8) < (((y >> 16) & 0xff) as u8) || ((((x >> 16)
        & 0xff) as u8) == (((y >> 16) & 0xff) as u8) && x2 < y2))) by (bit_vector)
        requires
            x2 == x & 0x0000_ffff,
            y2 == y & 0x0000_ffff,
            x1 == x & 0x00ff_ffff,
            y1 == y & 0x00ff_ffff,
    ;
    assert(lex_lt_from(a, b, 1) == (x1 < y1));
    assert((x < y) == (((x >> 24) as u8) < ((y >> 24) as u8) || (((x >> 24) as u8) == ((y
        >> 24) as u8) && x1 < y1))) by (bit_vector)
        requires
            x1 == x & 0x00ff_ffff,
            y1 == y & 0x00ff_ffff,
    ;
    assert(lex_lt_from(a, b, 0) == (x < y));
    if x == y {
        assert(a =~= b);
    }
    if a == b {
        assert(a.subrange(0, 4) =~= a);
        lemma_u32_at_be(a, 0, x);
        lemma_u32_at_be(a, 0, y);
    }
}

/// How two byte strings stand to each other in the lexicographic order.
#[derive(Clone, Copy, Debug, PartialEq, Eq)]
pub enum Sign {
    Less,
    Equal,
    Greater,
}

/// Compares two byte strings lexicographically.
pub fn compare_bytes(a: &[u8], b: &[u8]) -> (r: Sign)
    ensures
        r is Less <==> lex_lt(a@, b@),
        r is Equal <==> a@ == b@,
        r is Greater <==> lex_lt(b@, a@),
{
    let mut i: usize = 0;
    proof {
        lemma_lex_trichotomy(a@, b@);
    }
    while i < a.len() && i < b.len()
        invariant
            same_prefix(a@, b@, i as int),
            lex_lt(a@, b@) == lex_lt_from(a@, b@, i as int),
            lex_lt(b@, a@) == lex_lt_from(b@, a@, i as int),
        decreases a.len() - i,
    {
        if a[i] < b[i] {
            proof {
                lemma_trichotomy_from(a@, b@, i as int);
            }
            return Sign::Less;
        }
        if a[i] > b[i] {
            proof {
                lemma_trichotomy_from(a@, b@, i as int);
            }
            return Sign::Greater;
        }
        i = i + 1;
    }
    proof {
        lemma_trichotomy_from(a@, b@, i as int);
    }
    if i < b.len() {
        Sign::Less
    } else if i < a.len() {
        Sign::Greater
    } else {
        Sign::Equal
    }
}

} // verus!
