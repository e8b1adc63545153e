//! Intermediate records: one per archive, holding its display name and
//! the entry names it lists.

use vstd::prelude::*;
use vstd::string::*;
use crate::strings::{split_comps, push_char};

verus! {

/// One record of the intermediate store.
pub struct Record {
    /// Display name of the archive.
    pub name: String,
    /// Entry names, verbatim from the archive listing.
    pub files: Vec<String>,
}

/// All path components of a document, in listing order: the
/// concatenation of the `/`-splits of its entry names.
pub open spec fn record_comps(files: Seq<Seq<char>>) -> Seq<Seq<char>>
    decreases files.len(),
{
    if files.len() == 0 {
        Seq::empty()
    } else {
        split_comps(files[0]) + record_comps(files.skip(1))
    }
}

/// Number of occurrences of `t` in `s`.
pub open spec fn count_occ(s: Seq<Seq<char>>, t: Seq<char>) -> nat
    decreases s.len(),
{
    if s.len() == 0 {
        0
    } else {
        (if s[0] == t {
            1nat
        } else {
            0
        }) + count_occ(s.skip(1), t)
    }
}

/// The path components of a record, in order.
pub open spec fn rec_terms(r: Record) -> Seq<Seq<char>> {
    record_comps(r.files.deep_view())
}

/// Term frequency of `t` in a record: how many of its path components
/// equal `t`.
pub open spec fn spec_tf(r: Record, t: Seq<char>) -> nat {
    count_occ(rec_terms(r), t)
}

pub proof fn lemma_count_occ_le_len(s: Seq<Seq<char>>, t: Seq<char>)
    ensures
        count_occ(s, t) <= s.len(),
    decreases s.len(),
{
    if s.len() > 0 {
        lemma_count_occ_le_len(s.skip(1), t);
    }
}

pub proof fn lemma_count_occ_add(s1: Seq<Seq<char>>, s2: Seq<Seq<char>>, t: Seq<char>)
    ensures
        count_occ(s1 + s2, t) == count_occ(s1, t) + count_occ(s2, t),
    decreases s1.len(),
{
    if s1.len() == 0 {
        assert(s1 + s2 =~= s2);
    } else {
        assert((s1 + s2).skip(1) =~= s1.skip(1) + s2);
        lemma_count_occ_add(s1.skip(1), s2, t);
    }
}

pub proof fn lemma_count_occ_push(s: Seq<Seq<char>>, x: Seq<char>, t: Seq<char>)
    ensures
        count_occ(s.push(x), t) == count_occ(s, t) + (if x == t {
            1nat
        } else {
            0
        }),
{
    assert(s.push(x) =~= s + seq![x]);
    lemma_count_occ_add(s, seq![x], t);
    assert(seq![x].skip(1) =~= Seq::<Seq<char>>::empty());
    assert(count_occ(Seq::<Seq<char>>::empty(), t) == 0);
    assert(count_occ(seq![x], t) == (if x == t {
        1nat
    } else {
        0
    }));
}

/// Processing one more entry name extends the component stream by that
/// name's split.
pub proof fn lemma_record_comps_take_step(files: Seq<Seq<char>>, j: int)
    requires
        0 <= j < files.len(),
    ensures
        record_comps(files.take(j + 1)) == record_comps(files.take(j)) + split_comps(files[j]),
    decreases j,
{
    if j == 0 {
        let t1 = files.take(1);
        assert(t1[0] == files[0]);
        assert(t1.skip(1) =~= Seq::<Seq<char>>::empty());
        assert(files.take(0) =~= Seq::<Seq<char>>::empty());
        assert(record_comps(Seq::<Seq<char>>::empty()) =~= Seq::<Seq<char>>::empty());
        assert(record_comps(files.take(1)) =~= split_comps(files[0]));
        assert(record_comps(files.take(0)) + split_comps(files[0]) =~= split_comps(files[0]));
    } else {
        let tail = files.skip(1);
        lemma_record_comps_take_step(tail, j - 1);
        assert(files.take(j + 1).skip(1) =~= tail.take(j));
        assert(files.take(j).skip(1) =~= tail.take(j - 1));
        assert(files.take(j + 1)[0] == files[0]);
        assert(files.take(j)[0] == files[0]);
        assert(tail[j - 1] == files[j]);
        assert(record_comps(files.take(j + 1)) == split_comps(files[0]) + record_comps(tail.take(
            j,
        )));
        assert(split_comps(files[0]) + (record_comps(tail.take(j - 1)) + split_comps(tail[j - 1]))
            =~= (split_comps(files[0]) + record_comps(tail.take(j - 1))) + split_comps(
            tail[j - 1],
        ));
    }
}

/// The lowercase hexadecimal digit of a nibble.
pub open spec fn hex_digit(n: u32) -> char {
    if n == 0 {
        '0'
    } else if n == 1 {
        '1'
    } else if n == 2 {
        '2'
    } else if n == 3 {
        '3'
    } else if n == 4 {
        '4'
    } else if n == 5 {
        '5'
    } else if n == 6 {
        '6'
    } else if n == 7 {
        '7'
    } else if n == 8 {
        '8'
    } else if n == 9 {
        '9'
    } else if n == 10 {
        'a'
    } else if n == 11 {
        'b'
    } else if n == 12 {
        'c'
    } else if n == 13 {
        'd'
    } else if n == 14 {
        'e'
    } else {
        'f'
    }
}

/// How one character appears inside a JSON string: quotes and
/// backslashes escaped, named escapes for the usual control
/// characters, `\u00XX` for the remaining control characters.
pub open spec fn json_escape_char(c: char) -> Seq<char> {
    if c == '"' {
        seq!['\\', '"']
    } else if c == '\\' {
        seq!['\\', '\\']
    } else if c == '\u{8}' {
        seq!['\\', 'b']
    } else if c == '\t' {
        seq!['\\', 't']
    } else if c == '\n' {
        seq!['\\', 'n']
    } else if c == '\u{c}' {
        seq!['\\', 'f']
    } else if c == '\r' {
        seq!['\\', 'r']
    } else if (c as u32) < 0x20 {
        seq!['\\', 'u', '0', '0', hex_digit((c as u32) >> 4), hex_digit((c as u32) & 0xf)]
    } else {
        seq![c]
    }
}

pub open spec fn json_escape(s: Seq<char>) -> Seq<char>
    decreases s.len(),
{
    if s.len() == 0 {
        Seq::empty()
    } else {
        json_escape(s.drop_last()) + json_escape_char(s.last())
    }
}

/// A string as it appears in the intermediate file: quoted and escaped.
pub open spec fn json_string(s: Seq<char>) -> Seq<char> {
    seq!['"'] + json_escape(s) + seq!['"']
}

/// The entry-name array's contents: comma-separated JSON strings.
pub open spec fn files_json(files: Seq<Seq<char>>) -> Seq<char>
    decreases files.len(),
{
    if files.len() == 0 {
        Seq::empty()
    } else if files.len() == 1 {
        json_string(files[0])
    } else {
        files_json(files.drop_last()) + seq![','] + json_string(files.last())
    }
}

/// One intermediate line (without its newline): the record as a JSON
/// object with its `name` and `files` fields, in that order.
pub open spec fn record_json(name: Seq<char>, files: Seq<Seq<char>>) -> Seq<char> {
    "{\"name\":"@ + json_string(name) + ",\"files\":["@ + files_json(files) + "]}"@
}

/// Computes `hex_digit` for a nibble.
fn hex_digit_char(n: u32) -> (r: char)
    requires
        n < 16,
    ensures
        r == hex_digit(n),
{
    if n == 0 {
        '0'
    } else if n == 1 {
        '1'
    } else if n == 2 {
        '2'
    } else if n == 3 {
        '3'
    } else if n == 4 {
        '4'
    } else if n == 5 {
        '5'
    } else if n == 6 {
        '6'
    } else if n == 7 {
        '7'
    } else if n == 8 {
        '8'
    } else if n == 9 {
        '9'
    } else if n == 10 {
        'a'
    } else if n == 11 {
        'b'
    } else if n == 12 {
        'c'
    } else if n == 13 {
        'd'
    } else if n == 14 {
        'e'
    } else {
        'f'
    }
}

/// Appends a quoted, escaped JSON string to the output.
fn append_json_string(out: &mut String, s: &str)
    ensures
        final(out)@ == old(out)@ + json_string(s@),
{
    push_char(out, '"');
    let len = s.unicode_len();
    let mut i: usize = 0;
    proof {
        assert(s@.take(0) =~= Seq::<char>::empty());
        assert(out@ + json_escape(s@.take(0)) =~= out@);
    }
    while i < len
        invariant
            i <= len,
            len == s@.len(),
            out@ == old(out)@ + seq!['"'] + json_escape(s@.take(i as int)),
        decreases len - i,
    {
        let c = s.get_char(i);
        let ghost pre = out@;
        if c == '"' {
            push_char(out, '\\');
            push_char(out, '"');
        } else if c == '\\' {
            push_char(out, '\\');
            push_char(out, '\\');
        } else if c == '\u{8}' {
            push_char(out, '\\');
            push_char(out, 'b');
        } else if c == '\t' {
            push_char(out, '\\');
            push_char(out, 't');
        } else if c == '\n' {
            push_char(out, '\\');
            push_char(out, 'n');
        } else if c == '\u{c}' {
            push_char(out, '\\');
            push_char(out, 'f');
        } else if c == '\r' {
            push_char(out, '\\');
            push_char(out, 'r');
        } else if (c as u32) < 0x20 {
            push_char(out, '\\');
            push_char(out, 'u');
            push_char(out, '0');
            push_char(out, '0');
            let v = c as u32;
            proof {
                assert(v >> 4 < 16 && v & 0xf < 16) by (bit_vector)
                    requires
                        v < 0x20,
                ;
            }
            push_char(out, hex_digit_char(v >> 4));
            push_char(out, hex_digit_char(v & 0xf));
        } else {
            push_char(out, c);
        }
        proof {
            assert(out@ =~= pre + json_escape_char(s@[i as int]));
            assert(s@.take(i + 1).drop_last() =~= s@.take(i as int));
            assert(s@.take(i + 1).last() == s@[i as int]);
            assert(json_escape(s@.take(i + 1)) == json_escape(s@.take(i as int))
                + json_escape_char(s@[i as int]));
            assert(out@ =~= old(out)@ + seq!['"'] + json_escape(s@.take(i + 1)));
        }
        i = i + 1;
    }
    proof {
        assert(s@.take(len as int) =~= s@);
    }
    push_char(out, '"');
    proof {
        assert(out@ =~= old(out)@ + json_string(s@));
    }
}

/// Serializes one record as its intermediate line (without a newline).
pub fn record_line(rec: &Record) -> (r: String)
    ensures
        r@ == record_json(rec.name@, rec.files.deep_view()),
{
    let mut out = String::new();
    out.append("{\"name\":");
    append_json_string(&mut out, rec.name.as_str());
    out.append(",\"files\":[");
    let ghost base = out@;
    let ghost fv = rec.files.deep_view();
    proof {
        assert(fv.take(0) =~= Seq::<Seq<char>>::empty());
        assert(base + files_json(fv.take(0)) =~= base);
    }
    let mut fi: usize = 0;
    while fi < rec.files.len()
        invariant
            fi <= rec.files@.len(),
            fv == rec.files.deep_view(),
            fv.len() == rec.files@.len(),
            base == out@ || fi > 0,
            out@ == base + files_json(fv.take(fi as int)),
        decreases rec.files@.len() - fi,
    {
        let ghost pre = out@;
        if fi > 0 {
            push_char(&mut out, ',');
        }
        append_json_string(&mut out, rec.files[fi].as_str());
        proof {
            assert(fv[fi as int] == rec.files@[fi as int]@);
            assert(fv.take(fi + 1).drop_last() =~= fv.take(fi as int));
            assert(fv.take(fi + 1).last() == fv[fi as int]);
            if fi == 0 {
                assert(fv.take(1).len() == 1);
                assert(fv.take(1)[0] == fv[0]);
                assert(files_json(fv.take(1)) == json_string(fv[0]));
                assert(out@ =~= base + files_json(fv.take(1)));
            } else {
                assert(files_json(fv.take(fi + 1)) == files_json(fv.take(fi as int)) + seq![',']
                    + json_string(fv[fi as int]));
                assert(out@ =~= (base + files_json(fv.take(fi as int))) + seq![','] + json_string(
                    fv[fi as int],
                ));
                assert(out@ =~= base + files_json(fv.take(fi + 1)));
            }
        }
        fi = fi + 1;
    }
    proof {
        assert(fv.take(fv.len() as int) =~= fv);
    }
    out.append("]}");
    proof {
        assert(out@ =~= record_json(rec.name@, rec.files.deep_view()));
    }
    out
}

} // verus!
