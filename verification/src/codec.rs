//! The snapshot codec: a compact, self-describing binary form of the
//! index, with a stable field order.
//!
//! Layout: the document count; each document's name; each document's
//! size; the term count; each posting as its term, its entry count and
//! its `(document, count)` pairs. Integers are 64-bit little-endian;
//! characters are their scalar values, 32-bit little-endian; strings
//! are a length followed by their characters. Decoding accepts exactly
//! the encodings of well-formed indexes: anything else is
//! `SnapshotCorrupt`.

use vstd::prelude::*;
use crate::errors::IndexError;
use crate::index::{Index, Posting, DocEntry, docs_distinct};
use crate::strings::push_char;

verus! {

// ---------------------------------------------------------------- encoding

pub open spec fn enc_u64(v: u64) -> Seq<u8> {
    seq![
        (v & 0xff) as u8,
        ((v >> 8) & 0xff) as u8,
        ((v >> 16) & 0xff) as u8,
        ((v >> 24) & 0xff) as u8,
        ((v >> 32) & 0xff) as u8,
        ((v >> 40) & 0xff) as u8,
        ((v >> 48) & 0xff) as u8,
        ((v >> 56) & 0xff) as u8,
    ]
}

pub open spec fn enc_u32(v: u32) -> Seq<u8> {
    seq![(v & 0xff) as u8, ((v >> 8) & 0xff) as u8, ((v >> 16) & 0xff) as u8, ((v >> 24)
        & 0xff) as u8]
}

pub open spec fn enc_chars(s: Seq<char>) -> Seq<u8>
    decreases s.len(),
{
    if s.len() == 0 {
        Seq::empty()
    } else {
        enc_chars(s.drop_last()) + enc_u32(s.last() as u32)
    }
}

pub open spec fn enc_str(s: Seq<char>) -> Seq<u8> {
    enc_u64(s.len() as u64) + enc_chars(s)
}

pub open spec fn enc_names(names: Seq<Seq<char>>) -> Seq<u8>
    decreases names.len(),
{
    if names.len() == 0 {
        Seq::empty()
    } else {
        enc_names(names.drop_last()) + enc_str(names.last())
    }
}

pub open spec fn enc_sizes(sizes: Seq<u64>) -> Seq<u8>
    decreases sizes.len(),
{
    if sizes.len() == 0 {
        Seq::empty()
    } else {
        enc_sizes(sizes.drop_last()) + enc_u64(sizes.last())
    }
}

pub open spec fn enc_entries(docs: Seq<DocEntry>) -> Seq<u8>
    decreases docs.len(),
{
    if docs.len() == 0 {
        Seq::empty()
    } else {
        enc_entries(docs.drop_last()) + enc_u64(docs.last().doc) + enc_u64(docs.last().count)
    }
}

pub open spec fn enc_posting(term: Seq<char>, docs: Seq<DocEntry>) -> Seq<u8> {
    enc_str(term) + enc_u64(docs.len() as u64) + enc_entries(docs)
}

pub open spec fn enc_postings(ps: Seq<(Seq<char>, Seq<DocEntry>)>) -> Seq<u8>
    decreases ps.len(),
{
    if ps.len() == 0 {
        Seq::empty()
    } else {
        enc_postings(ps.drop_last()) + enc_posting(ps.last().0, ps.last().1)
    }
}

/// The postings as pure values: term and entries of each.
pub open spec fn postings_model(ps: Seq<Posting>) -> Seq<(Seq<char>, Seq<DocEntry>)> {
    ps.map_values(|p: Posting| (p.term@, p.docs@))
}

/// The snapshot bytes of an index.
pub open spec fn snapshot_bytes(x: Index) -> Seq<u8> {
    enc_u64(x.doc_names@.len() as u64) + enc_names(x.doc_names.deep_view()) + enc_sizes(
        x.doc_sizes@,
    ) + enc_u64(x.postings@.len() as u64) + enc_postings(postings_model(x.postings@))
}

// ---------------------------------------------------------------- parsing

pub open spec fn dec_u64_at(b: Seq<u8>, pos: int) -> u64 {
    (b[pos] as u64) | (b[pos + 1] as u64) << 8 | (b[pos + 2] as u64) << 16 | (b[pos
        + 3] as u64) << 24 | (b[pos + 4] as u64) << 32 | (b[pos + 5] as u64) << 40 | (b[pos
        + 6] as u64) << 48 | (b[pos + 7] as u64) << 56
}

pub open spec fn parse_u64(b: Seq<u8>, pos: int) -> Option<(u64, int)> {
    if 0 <= pos && pos + 8 <= b.len() {
        Some((dec_u64_at(b, pos), pos + 8))
    } else {
        None
    }
}

pub open spec fn dec_u32_at(b: Seq<u8>, pos: int) -> u32 {
    (b[pos] as u32) | (b[pos + 1] as u32) << 8 | (b[pos + 2] as u32) << 16 | (b[pos
        + 3] as u32) << 24
}

/// A Unicode scalar value: what a character can carry.
pub open spec fn valid_scalar(v: u32) -> bool {
    v < 0xD800 || (0xE000 <= v && v <= 0x10FFFF)
}

/// The character with scalar value `v` (meaningful when `v` is valid).
pub open spec fn spec_char_of(v: u32) -> char {
    choose|c: char| (#[trigger] (c as u32)) == v
}

/// Every character's value is a Unicode scalar value.
proof fn lemma_char_is_scalar(c: char)
    ensures
        valid_scalar(c as u32),
{
}

/// Characters with equal scalar values are equal.
proof fn lemma_char_injective(a: char, b: char)
    requires
        a as u32 == b as u32,
    ensures
        a == b,
{
}

pub open spec fn parse_char(b: Seq<u8>, pos: int) -> Option<(char, int)> {
    if 0 <= pos && pos + 4 <= b.len() && valid_scalar(dec_u32_at(b, pos)) {
        Some((spec_char_of(dec_u32_at(b, pos)), pos + 4))
    } else {
        None
    }
}

pub open spec fn parse_chars(b: Seq<u8>, pos: int, n: nat) -> Option<(Seq<char>, int)>
    decreases n,
{
    if n == 0 {
        Some((Seq::empty(), pos))
    } else {
        match parse_char(b, pos) {
            None => None,
            Some((c, p2)) => match parse_chars(b, p2, (n - 1) as nat) {
                None => None,
                Some((s, p3)) => Some((seq![c] + s, p3)),
            },
        }
    }
}

pub open spec fn parse_str(b: Seq<u8>, pos: int) -> Option<(Seq<char>, int)> {
    match parse_u64(b, pos) {
        None => None,
        Some((len, p2)) => parse_chars(b, p2, len as nat),
    }
}

pub open spec fn parse_names(b: Seq<u8>, pos: int, n: nat) -> Option<(Seq<Seq<char>>, int)>
    decreases n,
{
    if n == 0 {
        Some((Seq::empty(), pos))
    } else {
        match parse_str(b, pos) {
            None => None,
            Some((s, p2)) => match parse_names(b, p2, (n - 1) as nat) {
                None => None,
                Some((ss, p3)) => Some((seq![s] + ss, p3)),
            },
        }
    }
}

pub open spec fn parse_sizes(b: Seq<u8>, pos: int, n: nat) -> Option<(Seq<u64>, int)>
    decreases n,
{
    if n == 0 {
        Some((Seq::empty(), pos))
    } else {
        match parse_u64(b, pos) {
            None => None,
            Some((v, p2)) => match parse_sizes(b, p2, (n - 1) as nat) {
                None => None,
                Some((vs, p3)) => Some((seq![v] + vs, p3)),
            },
        }
    }
}

pub open spec fn parse_entry(b: Seq<u8>, pos: int) -> Option<(DocEntry, int)> {
    match parse_u64(b, pos) {
        None => None,
        Some((doc, p2)) => match parse_u64(b, p2) {
            None => None,
            Some((count, p3)) => Some((DocEntry { doc, count }, p3)),
        },
    }
}

pub open spec fn parse_entries(b: Seq<u8>, pos: int, n: nat) -> Option<(Seq<DocEntry>, int)>
    decreases n,
{
    if n == 0 {
        Some((Seq::empty(), pos))
    } else {
        match parse_entry(b, pos) {
            None => None,
            Some((e, p2)) => match parse_entries(b, p2, (n - 1) as nat) {
                None => None,
                Some((es, p3)) => Some((seq![e] + es, p3)),
            },
        }
    }
}

pub open spec fn parse_posting(b: Seq<u8>, pos: int) -> Option<((Seq<char>, Seq<DocEntry>), int)> {
    match parse_str(b, pos) {
        None => None,
        Some((t, p2)) => match parse_u64(b, p2) {
            None => None,
            Some((m, p3)) => match parse_entries(b, p3, m as nat) {
                None => None,
                Some((es, p4)) => Some(((t, es), p4)),
            },
        },
    }
}

pub open spec fn parse_postings(b: Seq<u8>, pos: int, n: nat) -> Option<
    (Seq<(Seq<char>, Seq<DocEntry>)>, int),
>
    decreases n,
{
    if n == 0 {
        Some((Seq::empty(), pos))
    } else {
        match parse_posting(b, pos) {
            None => None,
            Some((p, p2)) => match parse_postings(b, p2, (n - 1) as nat) {
                None => None,
                Some((ps, p3)) => Some((seq![p] + ps, p3)),
            },
        }
    }
}

/// What a snapshot byte string describes, if it is exactly one whole
/// well-shaped snapshot.
pub open spec fn parse_snapshot(b: Seq<u8>) -> Option<
    (Seq<Seq<char>>, Seq<u64>, Seq<(Seq<char>, Seq<DocEntry>)>),
> {
    match parse_u64(b, 0) {
        None => None,
        Some((n, p1)) => match parse_names(b, p1, n as nat) {
            None => None,
            Some((names, p2)) => match parse_sizes(b, p2, n as nat) {
                None => None,
                Some((sizes, p3)) => match parse_u64(b, p3) {
                    None => None,
                    Some((m, p4)) => match parse_postings(b, p4, m as nat) {
                        None => None,
                        Some((ps, p5)) => if p5 == b.len() {
                            Some((names, sizes, ps))
                        } else {
                            None
                        },
                    },
                },
            },
        },
    }
}

pub open spec fn entries_admissible(docs: Seq<DocEntry>, n: nat) -> bool {
    &&& docs.len() >= 1
    &&& docs_distinct(docs)
    &&& forall|i: int|
        0 <= i < docs.len() ==> (#[trigger] docs[i]).doc < n && docs[i].count >= 1
}

/// What decoding accepts beyond shape: exactly the structural
/// well-formedness of an index.
pub open spec fn snapshot_admissible(
    names: Seq<Seq<char>>,
    sizes: Seq<u64>,
    ps: Seq<(Seq<char>, Seq<DocEntry>)>,
) -> bool {
    &&& sizes.len() == names.len()
    &&& forall|i: int, j: int| 0 <= i < j < names.len() ==> names[i] != names[j]
    &&& forall|i: int, j: int| 0 <= i < j < ps.len() ==> ps[i].0 != ps[j].0
    &&& forall|i: int| 0 <= i < ps.len() ==> entries_admissible((#[trigger] ps[i]).1, names.len())
}

// ------------------------------------------------------- trusted helpers

/// Relies on char::from_u32: converts exactly the Unicode scalar
/// values, to the character with that value.
pub assume_specification[ char::from_u32 ](v: u32) -> (r: Option<char>)
    ensures
        match r {
            Some(c) => c as u32 == v,
            None => !valid_scalar(v),
        },
;

// ------------------------------------------------- decoding meets encoding

proof fn lemma_dec_enc_u64(v: u64)
    ensures
        ((v & 0xff) as u8 as u64) | (((v >> 8) & 0xff) as u8 as u64) << 8 | (((v >> 16)
            & 0xff) as u8 as u64) << 16 | (((v >> 24) & 0xff) as u8 as u64) << 24 | (((v >> 32)
            & 0xff) as u8 as u64) << 32 | (((v >> 40) & 0xff) as u8 as u64) << 40 | (((v >> 48)
            & 0xff) as u8 as u64) << 48 | (((v >> 56) & 0xff) as u8 as u64) << 56 == v,
{
    assert(((v & 0xff) as u8 as u64) | (((v >> 8) & 0xff) as u8 as u64) << 8 | (((v >> 16)
        & 0xff) as u8 as u64) << 16 | (((v >> 24) & 0xff) as u8 as u64) << 24 | (((v >> 32)
        & 0xff) as u8 as u64) << 32 | (((v >> 40) & 0xff) as u8 as u64) << 40 | (((v >> 48)
        & 0xff) as u8 as u64) << 48 | (((v >> 56) & 0xff) as u8 as u64) << 56 == v) by (bit_vector);
}

proof fn lemma_dec_enc_u32(v: u32)
    ensures
        ((v & 0xff) as u8 as u32) | (((v >> 8) & 0xff) as u8 as u32) << 8 | (((v >> 16)
            & 0xff) as u8 as u32) << 16 | (((v >> 24) & 0xff) as u8 as u32) << 24 == v,
{
    assert(((v & 0xff) as u8 as u32) | (((v >> 8) & 0xff) as u8 as u32) << 8 | (((v >> 16)
        & 0xff) as u8 as u32) << 16 | (((v >> 24) & 0xff) as u8 as u32) << 24 == v) by (bit_vector);
}

proof fn lemma_parse_u64_of_enc(b: Seq<u8>, pos: int, v: u64)
    requires
        0 <= pos,
        pos + 8 <= b.len(),
        b.subrange(pos, pos + 8) == enc_u64(v),
    ensures
        parse_u64(b, pos) == Some((v, pos + 8)),
{
    assert(b[pos] == enc_u64(v)[0]);
    assert(b[pos + 1] == enc_u64(v)[1]);
    assert(b[pos + 2] == enc_u64(v)[2]);
    assert(b[pos + 3] == enc_u64(v)[3]);
    assert(b[pos + 4] == enc_u64(v)[4]);
    assert(b[pos + 5] == enc_u64(v)[5]);
    assert(b[pos + 6] == enc_u64(v)[6]);
    assert(b[pos + 7] == enc_u64(v)[7]);
    lemma_dec_enc_u64(v);
}

proof fn lemma_parse_char_of_enc(b: Seq<u8>, pos: int, c: char)
    requires
        0 <= pos,
        pos + 4 <= b.len(),
        b.subrange(pos, pos + 4) == enc_u32(c as u32),
    ensures
        parse_char(b, pos) == Some((c, pos + 4)),
{
    let v = c as u32;
    assert(b[pos] == enc_u32(v)[0]);
    assert(b[pos + 1] == enc_u32(v)[1]);
    assert(b[pos + 2] == enc_u32(v)[2]);
    assert(b[pos + 3] == enc_u32(v)[3]);
    lemma_dec_enc_u32(v);
    assert(dec_u32_at(b, pos) == v);
    assert(valid_scalar(v));
    let c2 = spec_char_of(v);
    assert(c as u32 == v);
    assert(c2 as u32 == v);
    assert(c2 == c);
}

proof fn lemma_enc_chars_front(s: Seq<char>)
    requires
        s.len() > 0,
    ensures
        enc_chars(s) == enc_u32(s[0] as u32) + enc_chars(s.skip(1)),
        enc_chars(s).len() == 4 * s.len(),
    decreases s.len(),
{
    if s.len() == 1 {
        assert(s.drop_last() =~= Seq::<char>::empty());
        assert(s.skip(1) =~= Seq::<char>::empty());
        assert(enc_chars(Seq::<char>::empty()) =~= Seq::<u8>::empty());
        assert(s.last() == s[0]);
        assert(enc_chars(s) =~= enc_u32(s[0] as u32));
        assert(enc_u32(s[0] as u32) + enc_chars(s.skip(1)) =~= enc_u32(s[0] as u32));
    } else {
        let dl = s.drop_last();
        lemma_enc_chars_front(dl);
        assert(dl[0] == s[0]);
        assert(s.skip(1).drop_last() =~= dl.skip(1));
        assert(s.skip(1).last() == s.last());
        assert(enc_chars(s.skip(1)) == enc_chars(dl.skip(1)) + enc_u32(s.last() as u32));
        assert((enc_u32(s[0] as u32) + enc_chars(dl.skip(1))) + enc_u32(s.last() as u32)
            =~= enc_u32(s[0] as u32) + (enc_chars(dl.skip(1)) + enc_u32(s.last() as u32)));
    }
}

proof fn lemma_parse_chars_of_enc(b: Seq<u8>, pos: int, s: Seq<char>)
    requires
        0 <= pos,
        pos + enc_chars(s).len() <= b.len(),
        b.subrange(pos, pos + enc_chars(s).len()) == enc_chars(s),
    ensures
        parse_chars(b, pos, s.len()) == Some((s, pos + enc_chars(s).len())),
    decreases s.len(),
{
    if s.len() == 0 {
        assert(Seq::<char>::empty() =~= s);
    } else {
        lemma_enc_chars_front(s);
        let rest = enc_chars(s.skip(1));
        let whole = enc_chars(s);
        let head = enc_u32(s[0] as u32);
        assert forall|i: int| 0 <= i < 4 implies b[pos + i] == head[i] by {
            assert(b.subrange(pos, pos + whole.len())[i] == whole[i]);
            assert((head + rest)[i] == head[i]);
        }
        assert forall|i: int| 0 <= i < rest.len() implies b[pos + 4 + i] == rest[i] by {
            assert(b.subrange(pos, pos + whole.len())[4 + i] == whole[4 + i]);
            assert((head + rest)[4 + i] == rest[i]);
        }
        assert(b.subrange(pos, pos + 4) =~= head);
        lemma_parse_char_of_enc(b, pos, s[0]);
        assert(b.subrange(pos + 4, pos + 4 + rest.len()) =~= rest);
        lemma_parse_chars_of_enc(b, pos + 4, s.skip(1));
        assert(seq![s[0]] + s.skip(1) =~= s);
    }
}

proof fn lemma_parse_str_of_enc(b: Seq<u8>, pos: int, s: Seq<char>)
    requires
        0 <= pos,
        s.len() <= u64::MAX,
        pos + enc_str(s).len() <= b.len(),
        b.subrange(pos, pos + enc_str(s).len()) == enc_str(s),
    ensures
        parse_str(b, pos) == Some((s, pos + enc_str(s).len())),
{
    if s.len() > 0 {
        lemma_enc_chars_front(s);
    } else {
        assert(enc_chars(s).len() == 0);
    }
    let whole = enc_str(s);
    let head = enc_u64(s.len() as u64);
    let rest = enc_chars(s);
    assert forall|i: int| 0 <= i < 8 implies b[pos + i] == head[i] by {
        assert(b.subrange(pos, pos + whole.len())[i] == whole[i]);
        assert((head + rest)[i] == head[i]);
    }
    assert forall|i: int| 0 <= i < rest.len() implies b[pos + 8 + i] == rest[i] by {
        assert(b.subrange(pos, pos + whole.len())[8 + i] == whole[8 + i]);
        assert((head + rest)[8 + i] == rest[i]);
    }
    assert(b.subrange(pos, pos + 8) =~= head);
    lemma_parse_u64_of_enc(b, pos, s.len() as u64);
    assert(b.subrange(pos + 8, pos + 8 + enc_chars(s).len()) =~= enc_chars(s));
    lemma_parse_chars_of_enc(b, pos + 8, s);
    assert((s.len() as u64) as nat == s.len());
}

/// Splitting a known concatenation of the byte string into its parts.
proof fn lemma_split_at(b: Seq<u8>, pos: int, x: Seq<u8>, y: Seq<u8>)
    requires
        0 <= pos,
        pos + x.len() + y.len() <= b.len(),
        b.subrange(pos, pos + x.len() + y.len()) == x + y,
    ensures
        b.subrange(pos, pos + x.len()) == x,
        b.subrange(pos + x.len(), pos + x.len() + y.len()) == y,
{
    assert forall|i: int| 0 <= i < x.len() implies b[pos + i] == x[i] by {
        assert(b.subrange(pos, pos + x.len() + y.len())[i] == (x + y)[i]);
        assert((x + y)[i] == x[i]);
    }
    assert forall|i: int| 0 <= i < y.len() implies b[pos + x.len() + i] == y[i] by {
        assert(b.subrange(pos, pos + x.len() + y.len())[x.len() + i] == (x + y)[x.len() + i]);
        assert((x + y)[x.len() + i] == y[i]);
    }
    assert(b.subrange(pos, pos + x.len()) =~= x);
    assert(b.subrange(pos + x.len(), pos + x.len() + y.len()) =~= y);
}

pub open spec fn names_fit(names: Seq<Seq<char>>) -> bool {
    forall|i: int| 0 <= i < names.len() ==> (#[trigger] names[i]).len() <= u64::MAX
}

pub open spec fn postings_fit(ps: Seq<(Seq<char>, Seq<DocEntry>)>) -> bool {
    forall|i: int|
        0 <= i < ps.len() ==> (#[trigger] ps[i]).0.len() <= u64::MAX && ps[i].1.len() <= u64::MAX
}

/// Machine limits under which the snapshot is faithful: every count
/// fits in its 64-bit field.
pub open spec fn snapshot_fits(x: Index) -> bool {
    &&& x.doc_names@.len() <= u64::MAX
    &&& x.postings@.len() <= u64::MAX
    &&& names_fit(x.doc_names.deep_view())
    &&& postings_fit(postings_model(x.postings@))
}

proof fn lemma_enc_names_front(s: Seq<Seq<char>>)
    requires
        s.len() > 0,
    ensures
        enc_names(s) == enc_str(s[0]) + enc_names(s.skip(1)),
    decreases s.len(),
{
    if s.len() == 1 {
        assert(s.drop_last() =~= Seq::<Seq<char>>::empty());
        assert(s.skip(1) =~= Seq::<Seq<char>>::empty());
        assert(enc_names(Seq::<Seq<char>>::empty()) == Seq::<u8>::empty());
        assert(s.last() == s[0]);
        assert(enc_names(s) =~= enc_str(s[0]));
        assert(enc_str(s[0]) + enc_names(s.skip(1)) =~= enc_str(s[0]));
    } else {
        let dl = s.drop_last();
        lemma_enc_names_front(dl);
        assert(dl[0] == s[0]);
        assert(s.skip(1).drop_last() =~= dl.skip(1));
        assert(s.skip(1).last() == s.last());
        assert(enc_names(s.skip(1)) == enc_names(dl.skip(1)) + enc_str(s.last()));
        assert((enc_str(s[0]) + enc_names(dl.skip(1))) + enc_str(s.last()) =~= enc_str(s[0]) + (
        enc_names(dl.skip(1)) + enc_str(s.last())));
    }
}

proof fn lemma_enc_sizes_front(s: Seq<u64>)
    requires
        s.len() > 0,
    ensures
        enc_sizes(s) == enc_u64(s[0]) + enc_sizes(s.skip(1)),
    decreases s.len(),
{
    if s.len() == 1 {
        assert(s.drop_last() =~= Seq::<u64>::empty());
        assert(s.skip(1) =~= Seq::<u64>::empty());
        assert(enc_sizes(Seq::<u64>::empty()) == Seq::<u8>::empty());
        assert(s.last() == s[0]);
        assert(enc_sizes(s) =~= enc_u64(s[0]));
        assert(enc_u64(s[0]) + enc_sizes(s.skip(1)) =~= enc_u64(s[0]));
    } else {
        let dl = s.drop_last();
        lemma_enc_sizes_front(dl);
        assert(dl[0] == s[0]);
        assert(s.skip(1).drop_last() =~= dl.skip(1));
        assert(s.skip(1).last() == s.last());
        assert((enc_u64(s[0]) + enc_sizes(dl.skip(1))) + enc_u64(s.last()) =~= enc_u64(s[0]) + (
        enc_sizes(dl.skip(1)) + enc_u64(s.last())));
    }
}

proof fn lemma_enc_entries_front(s: Seq<DocEntry>)
    requires
        s.len() > 0,
    ensures
        enc_entries(s) == (enc_u64(s[0].doc) + enc_u64(s[0].count)) + enc_entries(s.skip(1)),
    decreases s.len(),
{
    if s.len() == 1 {
        assert(s.drop_last() =~= Seq::<DocEntry>::empty());
        assert(s.skip(1) =~= Seq::<DocEntry>::empty());
        assert(enc_entries(Seq::<DocEntry>::empty()) == Seq::<u8>::empty());
        assert(s.last() == s[0]);
        assert(enc_entries(s) =~= enc_u64(s[0].doc) + enc_u64(s[0].count));
        assert((enc_u64(s[0].doc) + enc_u64(s[0].count)) + enc_entries(s.skip(1)) =~= enc_u64(
            s[0].doc,
        ) + enc_u64(s[0].count));
    } else {
        let dl = s.drop_last();
        lemma_enc_entries_front(dl);
        assert(dl[0] == s[0]);
        assert(s.skip(1).drop_last() =~= dl.skip(1));
        assert(s.skip(1).last() == s.last());
        assert(((enc_u64(s[0].doc) + enc_u64(s[0].count)) + enc_entries(dl.skip(1))) + enc_u64(
            s.last().doc,
        ) + enc_u64(s.last().count) =~= (enc_u64(s[0].doc) + enc_u64(s[0].count)) + ((enc_entries(
            dl.skip(1),
        ) + enc_u64(s.last().doc)) + enc_u64(s.last().count)));
    }
}

#[verifier::rlimit(60)]
proof fn lemma_enc_postings_front(s: Seq<(Seq<char>, Seq<DocEntry>)>)
    requires
        s.len() > 0,
    ensures
        enc_postings(s) == enc_posting(s[0].0, s[0].1) + enc_postings(s.skip(1)),
    decreases s.len(),
{
    if s.len() == 1 {
        assert(s.drop_last() =~= Seq::<(Seq<char>, Seq<DocEntry>)>::empty());
        assert(s.skip(1) =~= Seq::<(Seq<char>, Seq<DocEntry>)>::empty());
        assert(enc_postings(Seq::<(Seq<char>, Seq<DocEntry>)>::empty()) == Seq::<u8>::empty());
        assert(s.last() == s[0]);
        assert(enc_postings(s) =~= enc_posting(s[0].0, s[0].1));
        assert(enc_posting(s[0].0, s[0].1) + enc_postings(s.skip(1)) =~= enc_posting(
            s[0].0,
            s[0].1,
        ));
    } else {
        let dl = s.drop_last();
        lemma_enc_postings_front(dl);
        assert(dl[0] == s[0]);
        assert(s.skip(1).drop_last() =~= dl.skip(1));
        assert(s.skip(1).last() == s.last());
        assert((enc_posting(s[0].0, s[0].1) + enc_postings(dl.skip(1))) + enc_posting(
            s.last().0,
            s.last().1,
        ) =~= enc_posting(s[0].0, s[0].1) + (enc_postings(dl.skip(1)) + enc_posting(
            s.last().0,
            s.last().1,
        )));
    }
}

proof fn lemma_parse_names_of_enc(b: Seq<u8>, pos: int, names: Seq<Seq<char>>)
    requires
        0 <= pos,
        names_fit(names),
        pos + enc_names(names).len() <= b.len(),
        b.subrange(pos, pos + enc_names(names).len()) == enc_names(names),
    ensures
        parse_names(b, pos, names.len()) == Some((names, pos + enc_names(names).len())),
    decreases names.len(),
{
    if names.len() == 0 {
        assert(Seq::<Seq<char>>::empty() =~= names);
    } else {
        lemma_enc_names_front(names);
        let head = enc_str(names[0]);
        let rest = enc_names(names.skip(1));
        lemma_split_at(b, pos, head, rest);
        lemma_parse_str_of_enc(b, pos, names[0]);
        assert(names_fit(names.skip(1))) by {
            assert(forall|i: int|
                0 <= i < names.skip(1).len() ==> names.skip(1)[i] == names[i + 1]);
        }
        lemma_parse_names_of_enc(b, pos + head.len(), names.skip(1));
        assert(seq![names[0]] + names.skip(1) =~= names);
    }
}

proof fn lemma_parse_sizes_of_enc(b: Seq<u8>, pos: int, sizes: Seq<u64>)
    requires
        0 <= pos,
        pos + enc_sizes(sizes).len() <= b.len(),
        b.subrange(pos, pos + enc_sizes(sizes).len()) == enc_sizes(sizes),
    ensures
        parse_sizes(b, pos, sizes.len()) == Some((sizes, pos + enc_sizes(sizes).len())),
    decreases sizes.len(),
{
    if sizes.len() == 0 {
        assert(Seq::<u64>::empty() =~= sizes);
    } else {
        lemma_enc_sizes_front(sizes);
        let head = enc_u64(sizes[0]);
        let rest = enc_sizes(sizes.skip(1));
        lemma_split_at(b, pos, head, rest);
        lemma_parse_u64_of_enc(b, pos, sizes[0]);
        lemma_parse_sizes_of_enc(b, pos + 8, sizes.skip(1));
        assert(seq![sizes[0]] + sizes.skip(1) =~= sizes);
    }
}

proof fn lemma_parse_entries_of_enc(b: Seq<u8>, pos: int, docs: Seq<DocEntry>)
    requires
        0 <= pos,
        pos + enc_entries(docs).len() <= b.len(),
        b.subrange(pos, pos + enc_entries(docs).len()) == enc_entries(docs),
    ensures
        parse_entries(b, pos, docs.len()) == Some((docs, pos + enc_entries(docs).len())),
    decreases docs.len(),
{
    if docs.len() == 0 {
        assert(Seq::<DocEntry>::empty() =~= docs);
    } else {
        lemma_enc_entries_front(docs);
        let head = enc_u64(docs[0].doc) + enc_u64(docs[0].count);
        let rest = enc_entries(docs.skip(1));
        lemma_split_at(b, pos, head, rest);
        lemma_split_at(b, pos, enc_u64(docs[0].doc), enc_u64(docs[0].count));
        lemma_parse_u64_of_enc(b, pos, docs[0].doc);
        lemma_parse_u64_of_enc(b, pos + 8, docs[0].count);
        assert(parse_entry(b, pos) == Some((docs[0], pos + 16))) by {
            assert(DocEntry { doc: docs[0].doc, count: docs[0].count } == docs[0]);
        }
        lemma_parse_entries_of_enc(b, pos + 16, docs.skip(1));
        assert(seq![docs[0]] + docs.skip(1) =~= docs);
    }
}

proof fn lemma_parse_posting_of_enc(b: Seq<u8>, pos: int, term: Seq<char>, docs: Seq<DocEntry>)
    requires
        0 <= pos,
        term.len() <= u64::MAX,
        docs.len() <= u64::MAX,
        pos + enc_posting(term, docs).len() <= b.len(),
        b.subrange(pos, pos + enc_posting(term, docs).len()) == enc_posting(term, docs),
    ensures
        parse_posting(b, pos) == Some(((term, docs), pos + enc_posting(term, docs).len())),
{
    let a1 = enc_str(term);
    let a2 = enc_u64(docs.len() as u64);
    let a3 = enc_entries(docs);
    assert(b.subrange(pos, pos + a1.len() + (a2.len() + a3.len())) == a1 + (a2 + a3)) by {
        assert((a1 + a2) + a3 =~= a1 + (a2 + a3));
    }
    lemma_split_at(b, pos, a1, a2 + a3);
    lemma_split_at(b, pos + a1.len(), a2, a3);
    lemma_parse_str_of_enc(b, pos, term);
    lemma_parse_u64_of_enc(b, pos + a1.len(), docs.len() as u64);
    lemma_parse_entries_of_enc(b, pos + a1.len() + 8, docs);
    assert((docs.len() as u64) as nat == docs.len());
}

proof fn lemma_parse_postings_of_enc(b: Seq<u8>, pos: int, ps: Seq<(Seq<char>, Seq<DocEntry>)>)
    requires
        0 <= pos,
        postings_fit(ps),
        pos + enc_postings(ps).len() <= b.len(),
        b.subrange(pos, pos + enc_postings(ps).len()) == enc_postings(ps),
    ensures
        parse_postings(b, pos, ps.len()) == Some((ps, pos + enc_postings(ps).len())),
    decreases ps.len(),
{
    if ps.len() == 0 {
        assert(Seq::<(Seq<char>, Seq<DocEntry>)>::empty() =~= ps);
    } else {
        lemma_enc_postings_front(ps);
        let head = enc_posting(ps[0].0, ps[0].1);
        let rest = enc_postings(ps.skip(1));
        lemma_split_at(b, pos, head, rest);
        lemma_parse_posting_of_enc(b, pos, ps[0].0, ps[0].1);
        assert(postings_fit(ps.skip(1))) by {
            assert(forall|i: int| 0 <= i < ps.skip(1).len() ==> ps.skip(1)[i] == ps[i + 1]);
        }
        lemma_parse_postings_of_enc(b, pos + head.len(), ps.skip(1));
        assert((ps[0], ps.skip(1)) == (ps[0], ps.skip(1)));
        assert(seq![ps[0]] + ps.skip(1) =~= ps);
    }
}

/// Where each block of the snapshot sits in the byte string.
#[verifier::rlimit(100)]
#[verifier::spinoff_prover]
proof fn lemma_snapshot_splits(x: Index)
    ensures
        ({
            let names = x.doc_names.deep_view();
            let sizes = x.doc_sizes@;
            let pm = postings_model(x.postings@);
            let a2 = enc_names(names);
            let a3 = enc_sizes(sizes);
            let a5 = enc_postings(pm);
            let b = snapshot_bytes(x);
            &&& b.len() == 16 + a2.len() + a3.len() + a5.len()
            &&& b.subrange(0, 8) == enc_u64(x.doc_names@.len() as u64)
            &&& b.subrange(8, 8 + a2.len() as int) == a2
            &&& b.subrange(8 + a2.len() as int, 8 + a2.len() as int + a3.len() as int) == a3
            &&& b.subrange(
                8 + a2.len() as int + a3.len() as int,
                16 + a2.len() as int + a3.len() as int,
            ) == enc_u64(x.postings@.len() as u64)
            &&& b.subrange(16 + a2.len() as int + a3.len() as int, b.len() as int) == a5
        }),
{
    let names = x.doc_names.deep_view();
    let sizes = x.doc_sizes@;
    let pm = postings_model(x.postings@);
    let a1 = enc_u64(x.doc_names@.len() as u64);
    let a2 = enc_names(names);
    let a3 = enc_sizes(sizes);
    let a4 = enc_u64(x.postings@.len() as u64);
    let a5 = enc_postings(pm);
    let b = snapshot_bytes(x);
    assert(b =~= a1 + (a2 + (a3 + (a4 + a5)))) by {
        assert(b == (((a1 + a2) + a3) + a4) + a5);
        assert((((a1 + a2) + a3) + a4) + a5 =~= a1 + (a2 + (a3 + (a4 + a5))));
    }
    assert(b.subrange(0, b.len() as int) =~= b);
    lemma_split_at(b, 0, a1, a2 + (a3 + (a4 + a5)));
    lemma_split_at(b, a1.len() as int, a2, a3 + (a4 + a5));
    lemma_split_at(b, a1.len() as int + a2.len() as int, a3, a4 + a5);
    lemma_split_at(b, a1.len() as int + a2.len() as int + a3.len() as int, a4, a5);
}

/// The parse chain of a well-formed index's snapshot bytes.
#[verifier::rlimit(100)]
#[verifier::spinoff_prover]
proof fn lemma_snapshot_parses(x: Index)
    requires
        x.wf(),
        snapshot_fits(x),
    ensures
        parse_snapshot(snapshot_bytes(x)) == Some(
            (x.doc_names.deep_view(), x.doc_sizes@, postings_model(x.postings@)),
        ),
{
    let names = x.doc_names.deep_view();
    let sizes = x.doc_sizes@;
    let pm = postings_model(x.postings@);
    let a2 = enc_names(names);
    let a3 = enc_sizes(sizes);
    let a5 = enc_postings(pm);
    let b = snapshot_bytes(x);
    lemma_snapshot_splits(x);
    assert(names.len() == x.doc_names@.len());
    assert(sizes.len() == names.len());
    assert(pm.len() == x.postings@.len());
    lemma_parse_u64_of_enc(b, 0, x.doc_names@.len() as u64);
    lemma_parse_names_of_enc(b, 8int, names);
    lemma_parse_sizes_of_enc(b, 8 + a2.len() as int, sizes);
    lemma_parse_u64_of_enc(b, 8 + a2.len() as int + a3.len() as int, x.postings@.len() as u64);
    lemma_parse_postings_of_enc(b, 16 + a2.len() as int + a3.len() as int, pm);
    assert((x.doc_names@.len() as u64) as nat == names.len());
    assert((x.postings@.len() as u64) as nat == pm.len());
}

/// Restoring a dumped snapshot is the identity on index state: the
/// snapshot bytes of a well-formed index decode to exactly its
/// collections, and they pass the decoder's admissibility checks.
pub proof fn lemma_snapshot_round_trip(x: Index)
    requires
        x.wf(),
        snapshot_fits(x),
    ensures
        parse_snapshot(snapshot_bytes(x)) == Some(
            (x.doc_names.deep_view(), x.doc_sizes@, postings_model(x.postings@)),
        ),
        snapshot_admissible(x.doc_names.deep_view(), x.doc_sizes@, postings_model(x.postings@)),
{
    lemma_snapshot_parses(x);
    let names = x.doc_names.deep_view();
    let pm = postings_model(x.postings@);
    // the checks the decoder makes hold of a well-formed index
    assert forall|i: int, j: int| 0 <= i < j < names.len() implies names[i] != names[j] by {
        assert(names[i] == x.doc_names@[i]@);
        assert(names[j] == x.doc_names@[j]@);
    }
    assert forall|i: int, j: int| 0 <= i < j < pm.len() implies pm[i].0 != pm[j].0 by {
        assert(pm[i].0 == x.postings@[i].term@);
        assert(pm[j].0 == x.postings@[j].term@);
    }
    assert forall|i: int| 0 <= i < pm.len() implies entries_admissible(
        (#[trigger] pm[i]).1,
        names.len(),
    ) by {
        assert(pm[i].1 == x.postings@[i].docs@);
        assert(crate::index::posting_wf(x.postings@[i], x.n()));
    }
}

// ----------------------------------------------------------------- dump

fn write_u64(out: &mut Vec<u8>, v: u64)
    ensures
        final(out)@ == old(out)@ + enc_u64(v),
{
    proof {
        assert(v & 0xff < 256 && (v >> 8) & 0xff < 256 && (v >> 16) & 0xff < 256 && (v >> 24)
            & 0xff < 256 && (v >> 32) & 0xff < 256 && (v >> 40) & 0xff < 256 && (v >> 48) & 0xff
            < 256 && (v >> 56) & 0xff < 256) by (bit_vector);
    }
    out.push((v & 0xff) as u8);
    out.push(((v >> 8) & 0xff) as u8);
    out.push(((v >> 16) & 0xff) as u8);
    out.push(((v >> 24) & 0xff) as u8);
    out.push(((v >> 32) & 0xff) as u8);
    out.push(((v >> 40) & 0xff) as u8);
    out.push(((v >> 48) & 0xff) as u8);
    out.push(((v >> 56) & 0xff) as u8);
    proof {
        assert(out@ =~= old(out)@ + enc_u64(v));
    }
}

fn write_u32(out: &mut Vec<u8>, v: u32)
    ensures
        final(out)@ == old(out)@ + enc_u32(v),
{
    proof {
        assert(v & 0xff < 256 && (v >> 8) & 0xff < 256 && (v >> 16) & 0xff < 256 && (v >> 24)
            & 0xff < 256) by (bit_vector);
    }
    out.push((v & 0xff) as u8);
    out.push(((v >> 8) & 0xff) as u8);
    out.push(((v >> 16) & 0xff) as u8);
    out.push(((v >> 24) & 0xff) as u8);
    proof {
        assert(out@ =~= old(out)@ + enc_u32(v));
    }
}

fn write_str(out: &mut Vec<u8>, s: &String)
    ensures
        final(out)@ == old(out)@ + enc_str(s@),
{
    let strslice = s.as_str();
    let len = strslice.unicode_len();
    write_u64(out, len as u64);
    let mut i: usize = 0;
    proof {
        assert(s@.take(0) =~= Seq::<char>::empty());
        assert(out@ + enc_chars(s@.take(0)) =~= out@);
    }
    while i < len
        invariant
            i <= len,
            len == s@.len(),
            strslice@ == s@,
            out@ == old(out)@ + enc_u64(len as u64) + enc_chars(s@.take(i as int)),
        decreases len - i,
    {
        let c = strslice.get_char(i);
        write_u32(out, c as u32);
        proof {
            assert(s@.take(i + 1).drop_last() =~= s@.take(i as int));
            assert(s@.take(i + 1).last() == s@[i as int]);
            assert(enc_chars(s@.take(i + 1)) == enc_chars(s@.take(i as int)) + enc_u32(
                s@[i as int] as u32,
            ));
            assert((old(out)@ + enc_u64(len as u64) + enc_chars(s@.take(i as int))) + enc_u32(
                s@[i as int] as u32,
            ) =~= old(out)@ + enc_u64(len as u64) + enc_chars(s@.take(i + 1)));
        }
        i = i + 1;
    }
    proof {
        assert(s@.take(len as int) =~= s@);
        assert(old(out)@ + enc_u64(len as u64) + enc_chars(s@) =~= old(out)@ + enc_str(s@));
    }
}

impl Index {
    /// Serializes the index into its snapshot bytes.
    pub fn dump(&self) -> (r: Vec<u8>)
        ensures
            r@ == snapshot_bytes(*self),
    {
        let mut out: Vec<u8> = Vec::new();
        let n = self.doc_names.len();
        write_u64(&mut out, n as u64);
        let ghost a1 = enc_u64(n as u64);
        let ghost dv = self.doc_names.deep_view();
        proof {
            assert(out@ =~= Seq::<u8>::empty() + a1);
            assert(out@ =~= a1);
            assert(dv.take(0) =~= Seq::<Seq<char>>::empty());
            assert(out@ + enc_names(dv.take(0)) =~= out@);
        }
        let mut i: usize = 0;
        while i < n
            invariant
                i <= n,
                n == self.doc_names@.len(),
                dv == self.doc_names.deep_view(),
                a1 == enc_u64(n as u64),
                out@ == a1 + enc_names(dv.take(i as int)),
            decreases n - i,
        {
            write_str(&mut out, &self.doc_names[i]);
            proof {
                assert(dv[i as int] == self.doc_names@[i as int]@);
                assert(dv.take(i + 1).drop_last() =~= dv.take(i as int));
                assert(dv.take(i + 1).last() == dv[i as int]);
                assert(enc_names(dv.take(i + 1)) == enc_names(dv.take(i as int)) + enc_str(
                    dv[i as int],
                ));
                assert((a1 + enc_names(dv.take(i as int))) + enc_str(dv[i as int]) =~= a1
                    + enc_names(dv.take(i + 1)));
            }
            i = i + 1;
        }
        proof {
            assert(dv.take(n as int) =~= dv);
        }
        let ghost a2 = enc_names(dv);
        let ghost sz = self.doc_sizes@;
        proof {
            assert(sz.take(0) =~= Seq::<u64>::empty());
            assert((a1 + a2) + enc_sizes(sz.take(0)) =~= a1 + a2);
        }
        let mut j: usize = 0;
        while j < self.doc_sizes.len()
            invariant
                j <= self.doc_sizes@.len(),
                sz == self.doc_sizes@,
                out@ == (a1 + a2) + enc_sizes(sz.take(j as int)),
            decreases self.doc_sizes@.len() - j,
        {
            write_u64(&mut out, self.doc_sizes[j]);
            proof {
                assert(sz.take(j + 1).drop_last() =~= sz.take(j as int));
                assert(sz.take(j + 1).last() == sz[j as int]);
                assert(enc_sizes(sz.take(j + 1)) == enc_sizes(sz.take(j as int)) + enc_u64(
                    sz[j as int],
                ));
                assert(((a1 + a2) + enc_sizes(sz.take(j as int))) + enc_u64(sz[j as int]) =~= (a1
                    + a2) + enc_sizes(sz.take(j + 1)));
            }
            j = j + 1;
        }
        proof {
            assert(sz.take(sz.len() as int) =~= sz);
        }
        let ghost a3 = enc_sizes(sz);
        let m = self.postings.len();
        write_u64(&mut out, m as u64);
        let ghost a4 = enc_u64(m as u64);
        let ghost pm = postings_model(self.postings@);
        proof {
            assert(out@ =~= ((a1 + a2) + a3) + a4);
            assert(pm.take(0) =~= Seq::<(Seq<char>, Seq<DocEntry>)>::empty());
            assert(out@ + enc_postings(pm.take(0)) =~= out@);
        }
        let mut k: usize = 0;
        while k < m
            invariant
                k <= m,
                m == self.postings@.len(),
                pm == postings_model(self.postings@),
                out@ == (((a1 + a2) + a3) + a4) + enc_postings(pm.take(k as int)),
            decreases m - k,
        {
            let ghost out_start = out@;
            write_str(&mut out, &self.postings[k].term);
            let dlen = self.postings[k].docs.len();
            write_u64(&mut out, dlen as u64);
            let ghost docs = self.postings@[k as int].docs@;
            proof {
                assert(docs.take(0) =~= Seq::<DocEntry>::empty());
                assert(out@ + enc_entries(docs.take(0)) =~= out@);
            }
            let mut e: usize = 0;
            while e < dlen
                invariant
                    e <= dlen,
                    docs == self.postings@[k as int].docs@,
                    k < self.postings@.len(),
                    dlen == docs.len(),
                    out@ == (out_start + enc_str(self.postings@[k as int].term@) + enc_u64(
                        dlen as u64,
                    )) + enc_entries(docs.take(e as int)),
                decreases dlen - e,
            {
                let de = self.postings[k].docs[e];
                write_u64(&mut out, de.doc);
                write_u64(&mut out, de.count);
                proof {
                    assert(docs.take(e + 1).drop_last() =~= docs.take(e as int));
                    assert(docs.take(e + 1).last() == docs[e as int]);
                    assert(enc_entries(docs.take(e + 1)) == enc_entries(docs.take(e as int))
                        + enc_u64(docs[e as int].doc) + enc_u64(docs[e as int].count));
                    assert((((out_start + enc_str(self.postings@[k as int].term@) + enc_u64(
                        dlen as u64,
                    )) + enc_entries(docs.take(e as int))) + enc_u64(docs[e as int].doc)) + enc_u64(
                        docs[e as int].count,
                    ) =~= (out_start + enc_str(self.postings@[k as int].term@) + enc_u64(
                        dlen as u64,
                    )) + enc_entries(docs.take(e + 1)));
                }
                e = e + 1;
            }
            proof {
                assert(docs.take(docs.len() as int) =~= docs);
                assert(pm[k as int] == (self.postings@[k as int].term@, docs));
                assert(enc_posting(pm[k as int].0, pm[k as int].1) == enc_str(
                    self.postings@[k as int].term@,
                ) + enc_u64(dlen as u64) + enc_entries(docs));
                assert(pm.take(k + 1).drop_last() =~= pm.take(k as int));
                assert(pm.take(k + 1).last() == pm[k as int]);
                assert(enc_postings(pm.take(k + 1)) == enc_postings(pm.take(k as int))
                    + enc_posting(pm[k as int].0, pm[k as int].1));
                assert(out@ =~= out_start + enc_posting(pm[k as int].0, pm[k as int].1)) by {
                    assert(out@ =~= (out_start + enc_str(self.postings@[k as int].term@) + enc_u64(
                        dlen as u64,
                    )) + enc_entries(docs));
                }
                assert(out@ =~= (((a1 + a2) + a3) + a4) + enc_postings(pm.take(k + 1)));
            }
            k = k + 1;
        }
        proof {
            assert(pm.take(pm.len() as int) =~= pm);
            assert(out@ =~= snapshot_bytes(*self));
        }
        out
    }
}

// ----------------------------------------------------------------- load

fn read_u64(b: &Vec<u8>, pos: usize) -> (r: Option<(u64, usize)>)
    ensures
        match r {
            Some((v, p2)) => parse_u64(b@, pos as int) == Some((v, p2 as int)) && p2 <= b@.len(),
            None => parse_u64(b@, pos as int) is None,
        },
{
    if pos <= b.len() && b.len() - pos >= 8 {
        let v = (b[pos] as u64) | (b[pos + 1] as u64) << 8 | (b[pos + 2] as u64) << 16 | (b[pos
            + 3] as u64) << 24 | (b[pos + 4] as u64) << 32 | (b[pos + 5] as u64) << 40 | (b[pos
            + 6] as u64) << 48 | (b[pos + 7] as u64) << 56;
        Some((v, pos + 8))
    } else {
        None
    }
}

fn read_char(b: &Vec<u8>, pos: usize) -> (r: Option<(char, usize)>)
    ensures
        match r {
            Some((c, p2)) => parse_char(b@, pos as int) == Some((c, p2 as int)) && p2 <= b@.len(),
            None => parse_char(b@, pos as int) is None,
        },
{
    if pos <= b.len() && b.len() - pos >= 4 {
        let v = (b[pos] as u32) | (b[pos + 1] as u32) << 8 | (b[pos + 2] as u32) << 16 | (b[pos
            + 3] as u32) << 24;
        match char::from_u32(v) {
            Some(c) => {
                proof {
                    assert(c as u32 == v);
                    lemma_char_is_scalar(c);
                    assert(valid_scalar(v));
                    let c2 = spec_char_of(v);
                    assert(c2 as u32 == v);
                    lemma_char_injective(c2, c);
                    assert(c2 == c);
                }
                Some((c, pos + 4))
            },
            None => None,
        }
    } else {
        None
    }
}

fn read_str(b: &Vec<u8>, pos: usize) -> (r: Option<(String, usize)>)
    ensures
        match r {
            Some((s, p2)) => parse_str(b@, pos as int) == Some((s@, p2 as int)) && p2 <= b@.len(),
            None => parse_str(b@, pos as int) is None,
        },
{
    let (len, p0) = match read_u64(b, pos) {
        None => {
            return None;
        },
        Some(x) => x,
    };
    let mut s = String::new();
    let mut p: usize = p0;
    let mut cnt: u64 = 0;
    while cnt < len
        invariant
            cnt <= len,
            p <= b@.len(),
            parse_u64(b@, pos as int) == Some((len, p0 as int)),
            match parse_chars(b@, p as int, (len - cnt) as nat) {
                None => parse_chars(b@, p0 as int, len as nat) is None,
                Some((ss, pp)) => parse_chars(b@, p0 as int, len as nat) == Some((s@ + ss, pp)),
            },
        decreases len - cnt,
    {
        match read_char(b, p) {
            None => {
                return None;
            },
            Some((c, p2)) => {
                proof {
                    let rem = parse_chars(b@, p2 as int, (len - cnt - 1) as nat);
                    match rem {
                        None => {},
                        Some((ss2, pp)) => {
                            assert(parse_chars(b@, p as int, (len - cnt) as nat) == Some((
                                seq![c] + ss2,
                                pp,
                            )));
                            assert(s@ + (seq![c] + ss2) =~= s@.push(c) + ss2);
                        },
                    }
                }
                push_char(&mut s, c);
                p = p2;
                cnt = cnt + 1;
            },
        }
    }
    proof {
        assert(parse_chars(b@, p as int, 0) == Some((Seq::<char>::empty(), p as int)));
        assert(s@ + Seq::<char>::empty() =~= s@);
    }
    Some((s, p))
}

fn read_names(b: &Vec<u8>, pos: usize, n: u64) -> (r: Option<(Vec<String>, usize)>)
    ensures
        match r {
            Some((names, p2)) => parse_names(b@, pos as int, n as nat) == Some(
                (names.deep_view(), p2 as int),
            ) && names@.len() == n,
            None => parse_names(b@, pos as int, n as nat) is None,
        },
{
    let mut names: Vec<String> = Vec::new();
    let mut p: usize = pos;
    let mut cnt: u64 = 0;
    proof {
        assert(names.deep_view() =~= Seq::<Seq<char>>::empty());
    }
    while cnt < n
        invariant
            cnt <= n,
            names@.len() == cnt,
            match parse_names(b@, p as int, (n - cnt) as nat) {
                None => parse_names(b@, pos as int, n as nat) is None,
                Some((ss, pp)) => parse_names(b@, pos as int, n as nat) == Some(
                    (names.deep_view() + ss, pp),
                ),
            },
        decreases n - cnt,
    {
        match read_str(b, p) {
            None => {
                return None;
            },
            Some((s, p2)) => {
                proof {
                    let rem = parse_names(b@, p2 as int, (n - cnt - 1) as nat);
                    match rem {
                        None => {},
                        Some((ss2, pp)) => {
                            assert(parse_names(b@, p as int, (n - cnt) as nat) == Some((
                                seq![s@] + ss2,
                                pp,
                            )));
                            assert(names.deep_view() + (seq![s@] + ss2) =~= names.deep_view().push(
                                s@,
                            ) + ss2);
                        },
                    }
                }
                let ghost old_names = names.deep_view();
                names.push(s);
                proof {
                    assert(names.deep_view() =~= old_names.push(names@.last()@));
                }
                p = p2;
                cnt = cnt + 1;
            },
        }
    }
    proof {
        assert(parse_names(b@, p as int, 0) == Some((Seq::<Seq<char>>::empty(), p as int)));
        assert(names.deep_view() + Seq::<Seq<char>>::empty() =~= names.deep_view());
    }
    Some((names, p))
}

fn read_sizes(b: &Vec<u8>, pos: usize, n: u64) -> (r: Option<(Vec<u64>, usize)>)
    ensures
        match r {
            Some((sizes, p2)) => parse_sizes(b@, pos as int, n as nat) == Some(
                (sizes@, p2 as int),
            ) && sizes@.len() == n,
            None => parse_sizes(b@, pos as int, n as nat) is None,
        },
{
    let mut sizes: Vec<u64> = Vec::new();
    let mut p: usize = pos;
    let mut cnt: u64 = 0;
    while cnt < n
        invariant
            cnt <= n,
            sizes@.len() == cnt,
            match parse_sizes(b@, p as int, (n - cnt) as nat) {
                None => parse_sizes(b@, pos as int, n as nat) is None,
                Some((ss, pp)) => parse_sizes(b@, pos as int, n as nat) == Some(
                    (sizes@ + ss, pp),
                ),
            },
        decreases n - cnt,
    {
        match read_u64(b, p) {
            None => {
                return None;
            },
            Some((v, p2)) => {
                proof {
                    let rem = parse_sizes(b@, p2 as int, (n - cnt - 1) as nat);
                    match rem {
                        None => {},
                        Some((ss2, pp)) => {
                            assert(sizes@ + (seq![v] + ss2) =~= sizes@.push(v) + ss2);
                        },
                    }
                }
                sizes.push(v);
                p = p2;
                cnt = cnt + 1;
            },
        }
    }
    proof {
        assert(parse_sizes(b@, p as int, 0) == Some((Seq::<u64>::empty(), p as int)));
        assert(sizes@ + Seq::<u64>::empty() =~= sizes@);
    }
    Some((sizes, p))
}

fn read_entries(b: &Vec<u8>, pos: usize, n: u64) -> (r: Option<(Vec<DocEntry>, usize)>)
    ensures
        match r {
            Some((docs, p2)) => parse_entries(b@, pos as int, n as nat) == Some(
                (docs@, p2 as int),
            ) && docs@.len() == n,
            None => parse_entries(b@, pos as int, n as nat) is None,
        },
{
    let mut docs: Vec<DocEntry> = Vec::new();
    let mut p: usize = pos;
    let mut cnt: u64 = 0;
    while cnt < n
        invariant
            cnt <= n,
            docs@.len() == cnt,
            match parse_entries(b@, p as int, (n - cnt) as nat) {
                None => parse_entries(b@, pos as int, n as nat) is None,
                Some((ss, pp)) => parse_entries(b@, pos as int, n as nat) == Some(
                    (docs@ + ss, pp),
                ),
            },
        decreases n - cnt,
    {
        let (doc, p1) = match read_u64(b, p) {
            None => {
                return None;
            },
            Some(x) => x,
        };
        let (count, p2) = match read_u64(b, p1) {
            None => {
                return None;
            },
            Some(x) => x,
        };
        let e = DocEntry { doc, count };
        proof {
            assert(parse_entry(b@, p as int) == Some((e, p2 as int)));
            let rem = parse_entries(b@, p2 as int, (n - cnt - 1) as nat);
            match rem {
                None => {},
                Some((ss2, pp)) => {
                    assert(docs@ + (seq![e] + ss2) =~= docs@.push(e) + ss2);
                },
            }
        }
        docs.push(e);
        p = p2;
        cnt = cnt + 1;
    }
    proof {
        assert(parse_entries(b@, p as int, 0) == Some((Seq::<DocEntry>::empty(), p as int)));
        assert(docs@ + Seq::<DocEntry>::empty() =~= docs@);
    }
    Some((docs, p))
}

fn read_postings(b: &Vec<u8>, pos: usize, n: u64) -> (r: Option<(Vec<Posting>, usize)>)
    ensures
        match r {
            Some((ps, p2)) => parse_postings(b@, pos as int, n as nat) == Some(
                (postings_model(ps@), p2 as int),
            ) && ps@.len() == n,
            None => parse_postings(b@, pos as int, n as nat) is None,
        },
{
    let mut ps: Vec<Posting> = Vec::new();
    let mut p: usize = pos;
    let mut cnt: u64 = 0;
    proof {
        assert(postings_model(ps@) =~= Seq::<(Seq<char>, Seq<DocEntry>)>::empty());
    }
    while cnt < n
        invariant
            cnt <= n,
            ps@.len() == cnt,
            match parse_postings(b@, p as int, (n - cnt) as nat) {
                None => parse_postings(b@, pos as int, n as nat) is None,
                Some((ss, pp)) => parse_postings(b@, pos as int, n as nat) == Some(
                    (postings_model(ps@) + ss, pp),
                ),
            },
        decreases n - cnt,
    {
        let (term, p1) = match read_str(b, p) {
            None => {
                return None;
            },
            Some(x) => x,
        };
        let (dlen, p2) = match read_u64(b, p1) {
            None => {
                return None;
            },
            Some(x) => x,
        };
        let (docs, p3) = match read_entries(b, p2, dlen) {
            None => {
                return None;
            },
            Some(x) => x,
        };
        let ghost termv = term@;
        let ghost docsv = docs@;
        let posting = Posting { term, docs };
        proof {
            assert(parse_posting(b@, p as int) == Some(((termv, docsv), p3 as int)));
            let rem = parse_postings(b@, p3 as int, (n - cnt - 1) as nat);
            match rem {
                None => {},
                Some((ss2, pp)) => {
                    assert(postings_model(ps@) + (seq![(termv, docsv)] + ss2) =~= postings_model(
                        ps@,
                    ).push((termv, docsv)) + ss2);
                },
            }
        }
        let ghost old_model = postings_model(ps@);
        ps.push(posting);
        proof {
            assert(postings_model(ps@) =~= old_model.push((termv, docsv)));
        }
        p = p3;
        cnt = cnt + 1;
    }
    proof {
        assert(parse_postings(b@, p as int, 0) == Some(
            (Seq::<(Seq<char>, Seq<DocEntry>)>::empty(), p as int),
        ));
        assert(postings_model(ps@) + Seq::<(Seq<char>, Seq<DocEntry>)>::empty() =~= postings_model(
            ps@,
        ));
    }
    Some((ps, p))
}

fn names_distinct_check(names: &Vec<String>) -> (r: bool)
    ensures
        r == (forall|i: int, j: int|
            0 <= i < j < names@.len() ==> names@[i]@ != names@[j]@),
{
    let mut j: usize = 0;
    while j < names.len()
        invariant
            j <= names@.len(),
            forall|a: int, bb: int| 0 <= a < bb < j ==> names@[a]@ != names@[bb]@,
        decreases names@.len() - j,
    {
        let mut i: usize = 0;
        while i < j
            invariant
                i <= j < names@.len(),
                forall|a: int, bb: int| 0 <= a < bb < j ==> names@[a]@ != names@[bb]@,
                forall|a: int| 0 <= a < i ==> names@[a]@ != names@[j as int]@,
            decreases j - i,
        {
            if names[i].eq(&names[j]) {
                return false;
            }
            i = i + 1;
        }
        j = j + 1;
    }
    true
}

fn postings_admissible_check(ps: &Vec<Posting>, n: usize) -> (r: bool)
    ensures
        r == ((forall|i: int, j: int|
            0 <= i < j < ps@.len() ==> ps@[i].term@ != ps@[j].term@) && (forall|i: int|
            0 <= i < ps@.len() ==> entries_admissible((#[trigger] ps@[i]).docs@, n as nat))),
{
    let mut j: usize = 0;
    while j < ps.len()
        invariant
            j <= ps@.len(),
            forall|a: int, bb: int| 0 <= a < bb < j ==> ps@[a].term@ != ps@[bb].term@,
            forall|a: int| 0 <= a < j ==> entries_admissible((#[trigger] ps@[a]).docs@, n as nat),
        decreases ps@.len() - j,
    {
        let mut i: usize = 0;
        while i < j
            invariant
                i <= j < ps@.len(),
                forall|a: int| 0 <= a < i ==> ps@[a].term@ != ps@[j as int].term@,
            decreases j - i,
        {
            if ps[i].term.eq(&ps[j].term) {
                return false;
            }
            i = i + 1;
        }
        let docs = &ps[j].docs;
        if docs.len() == 0 {
            return false;
        }
        let ghost nv = n;
        let mut e: usize = 0;
        while e < docs.len()
            invariant
                e <= docs@.len(),
                docs@ == ps@[j as int].docs@,
                j < ps@.len(),
                n == nv,
                forall|a: int|
                    0 <= a < e ==> (#[trigger] docs@[a]).doc < n && docs@[a].count >= 1,
                forall|a: int, bb: int| 0 <= a < bb < e ==> docs@[a].doc != docs@[bb].doc,
            decreases docs@.len() - e,
        {
            if docs[e].count == 0 {
                return false;
            }
            if docs[e].doc >= n as u64 {
                return false;
            }
            let mut a: usize = 0;
            while a < e
                invariant
                    a <= e < docs@.len(),
                    j < ps@.len(),
                    docs@ == ps@[j as int].docs@,
                    n == nv,
                    forall|q: int| 0 <= q < a ==> docs@[q].doc != docs@[e as int].doc,
                decreases e - a,
            {
                if docs[a].doc == docs[e].doc {
                    proof {
                        assert(!docs_distinct(ps@[j as int].docs@));
                        assert(!entries_admissible(ps@[j as int].docs@, n as nat));
                    }
                    return false;
                }
                a = a + 1;
            }
            e = e + 1;
        }
        proof {
            assert(docs_distinct(ps@[j as int].docs@));
            assert(entries_admissible(ps@[j as int].docs@, n as nat));
        }
        j = j + 1;
    }
    true
}

impl Index {
    /// Restores an index from snapshot bytes. Succeeds on exactly the
    /// byte strings that describe one whole, structurally well-formed
    /// index; everything else is `SnapshotCorrupt`, and the caller's
    /// installed index is then left untouched.
    pub fn load(bytes: &Vec<u8>) -> (r: Result<Index, IndexError>)
        ensures
            match r {
                Ok(i) => {
                    &&& i.wf()
                    &&& parse_snapshot(bytes@) == Some(
                        (i.doc_names.deep_view(), i.doc_sizes@, postings_model(i.postings@)),
                    )
                    &&& snapshot_admissible(
                        i.doc_names.deep_view(),
                        i.doc_sizes@,
                        postings_model(i.postings@),
                    )
                },
                Err(e) => {
                    &&& e == IndexError::SnapshotCorrupt
                    &&& match parse_snapshot(bytes@) {
                        None => true,
                        Some((names, sizes, pm)) => !snapshot_admissible(names, sizes, pm),
                    }
                },
            },
    {
        let (n, p1) = match read_u64(bytes, 0) {
            None => {
                return Err(IndexError::SnapshotCorrupt);
            },
            Some(x) => x,
        };
        let (doc_names, p2) = match read_names(bytes, p1, n) {
            None => {
                return Err(IndexError::SnapshotCorrupt);
            },
            Some(x) => x,
        };
        let (doc_sizes, p3) = match read_sizes(bytes, p2, n) {
            None => {
                return Err(IndexError::SnapshotCorrupt);
            },
            Some(x) => x,
        };
        let (m, p4) = match read_u64(bytes, p3) {
            None => {
                return Err(IndexError::SnapshotCorrupt);
            },
            Some(x) => x,
        };
        let (postings, p5) = match read_postings(bytes, p4, m) {
            None => {
                return Err(IndexError::SnapshotCorrupt);
            },
            Some(x) => x,
        };
        if p5 != bytes.len() {
            return Err(IndexError::SnapshotCorrupt);
        }
        let ghost namesv = doc_names.deep_view();
        let ghost sizesv = doc_sizes@;
        let ghost pmv = postings_model(postings@);
        proof {
            assert(parse_snapshot(bytes@) == Some((namesv, sizesv, pmv)));
        }
        if !names_distinct_check(&doc_names) {
            proof {
                let (i, j) = choose|i: int, j: int|
                    0 <= i < j < doc_names@.len() && doc_names@[i]@ == doc_names@[j]@;
                assert(namesv[i] == namesv[j]);
            }
            return Err(IndexError::SnapshotCorrupt);
        }
        if !postings_admissible_check(&postings, doc_names.len()) {
            proof {
                if !(forall|i: int, j: int|
                    0 <= i < j < postings@.len() ==> postings@[i].term@ != postings@[j].term@) {
                    let (i, j) = choose|i: int, j: int|
                        0 <= i < j < postings@.len() && postings@[i].term@ == postings@[j].term@;
                    assert(pmv[i].0 == pmv[j].0);
                } else {
                    let i = choose|i: int|
                        0 <= i < postings@.len() && !entries_admissible(
                            (#[trigger] postings@[i]).docs@,
                            doc_names@.len(),
                        );
                    assert(pmv[i].1 == postings@[i].docs@);
                }
            }
            return Err(IndexError::SnapshotCorrupt);
        }
        let idx = Index { postings, doc_names, doc_sizes };
        proof {
            assert forall|i: int, j: int|
                0 <= i < j < idx.doc_names@.len() implies idx.doc_names@[i]@
                != idx.doc_names@[j]@ by {}
            assert forall|i: int|
                0 <= i < idx.postings@.len() implies crate::index::posting_wf(
                #[trigger] idx.postings@[i],
                idx.n(),
            ) by {
                assert(entries_admissible(idx.postings@[i].docs@, idx.doc_names@.len() as nat));
            }
            assert(idx.wf());
            assert forall|i: int, j: int| 0 <= i < j < namesv.len() implies namesv[i]
                != namesv[j] by {
                assert(namesv[i] == idx.doc_names@[i]@);
                assert(namesv[j] == idx.doc_names@[j]@);
            }
            assert forall|i: int, j: int| 0 <= i < j < pmv.len() implies pmv[i].0 != pmv[j].0 by {
                assert(pmv[i].0 == idx.postings@[i].term@);
                assert(pmv[j].0 == idx.postings@[j].term@);
            }
            assert forall|i: int| 0 <= i < pmv.len() implies entries_admissible(
                (#[trigger] pmv[i]).1,
                namesv.len(),
            ) by {
                assert(pmv[i].1 == idx.postings@[i].docs@);
            }
            assert(snapshot_admissible(namesv, sizesv, pmv));
        }
        Ok(idx)
    }
}

} // verus!
