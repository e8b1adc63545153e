//! Reading archive listings and producing the intermediate text.
//!
//! An archive's contents never matter here: only the ordered listing of
//! its entry names, as the container's central directory records them.

use vstd::prelude::*;
use vstd::string::*;
use crate::errors::IndexError;
use crate::records::{Record, record_json, record_line};
use crate::strings::push_char;

verus! {

/// The entry-name listing that the archive bytes describe, in order,
/// or nothing when the container cannot be parsed. A function of the
/// bytes alone.
pub uninterp spec fn zip_entry_list(b: Seq<u8>) -> Option<Seq<Seq<char>>>;

/// Relies on zip::ZipArchive: `new` parses the central directory of
/// the archive (failing exactly when the container cannot be parsed),
/// and `file_names` yields the entry names it holds, one per distinct
/// name, in directory order. Both are functions of the bytes alone,
/// which is what lets the result carry one name.
#[verifier::external_body]
fn zip_entry_names(data: &Vec<u8>) -> (r: Result<Vec<String>, IndexError>)
    ensures
        match r {
            Ok(names) => zip_entry_list(data@) == Some(names.deep_view()),
            Err(e) => e == IndexError::ArchiveMalformed && zip_entry_list(data@) is None,
        },
{
    let cursor = std::io::Cursor::new(data.as_slice());
    match zip::ZipArchive::new(cursor) {
        Ok(archive) => Ok(archive.file_names().map(|s| s.to_owned()).collect()),
        Err(_) => Err(IndexError::ArchiveMalformed),
    }
}

/// Does the file name end in `.zip`?
pub open spec fn ends_with_zip(s: Seq<char>) -> bool {
    s.len() >= 4 && s.subrange(s.len() - 4, s.len() as int) == ".zip"@
}

/// Checks whether a staged file is an archive, by its name.
pub fn is_zip(name: &str) -> (r: bool)
    ensures
        r == ends_with_zip(name@),
{
    let len = name.unicode_len();
    proof {
        reveal_strlit(".zip");
    }
    if len < 4 {
        return false;
    }
    let r = name.get_char(len - 4) == '.' && name.get_char(len - 3) == 'z' && name.get_char(
        len - 2,
    ) == 'i' && name.get_char(len - 1) == 'p';
    proof {
        let tail = name@.subrange(len - 4, len as int);
        assert(tail.len() == 4);
        assert(tail[0] == name@[len - 4]);
        assert(tail[1] == name@[len - 3]);
        assert(tail[2] == name@[len - 2]);
        assert(tail[3] == name@[len - 1]);
        if r {
            assert(tail =~= ".zip"@);
        } else {
            assert(tail != ".zip"@);
        }
    }
    r
}

/// The entry listing of archive bytes, where one exists.
pub open spec fn entry_list_of(b: Seq<u8>) -> Seq<Seq<char>> {
    match zip_entry_list(b) {
        Some(l) => l,
        None => Seq::empty(),
    }
}

/// Every staged file named like an archive can be parsed.
pub open spec fn zips_ok(zips: Seq<(String, Vec<u8>)>) -> bool {
    forall|i: int|
        0 <= i < zips.len() && ends_with_zip((#[trigger] zips[i]).0@) ==> zip_entry_list(
            zips[i].1@,
        ) is Some
}

/// The intermediate text of a staged directory: one line per archive,
/// in directory order, each holding the archive's name and listing.
pub open spec fn zip_records_text(zips: Seq<(String, Vec<u8>)>) -> Seq<char>
    decreases zips.len(),
{
    if zips.len() == 0 {
        Seq::empty()
    } else {
        zip_records_text(zips.drop_last()) + (if ends_with_zip(zips.last().0@) {
            record_json(zips.last().0@, entry_list_of(zips.last().1@)) + seq!['\n']
        } else {
            Seq::empty()
        })
    }
}

/// Reads the listing of every staged archive and serializes them as
/// the intermediate text, which the service layer writes to its file.
/// Files not named like archives are passed over; a container that
/// cannot be parsed aborts the pass.
pub fn read_and_dump_zips(zips: &Vec<(String, Vec<u8>)>) -> (r: Result<String, IndexError>)
    ensures
        match r {
            Ok(text) => zips_ok(zips@) && text@ == zip_records_text(zips@),
            Err(e) => e == IndexError::ArchiveMalformed && !zips_ok(zips@),
        },
{
    let mut out = String::new();
    let mut i: usize = 0;
    proof {
        assert(zips@.take(0) =~= Seq::<(String, Vec<u8>)>::empty());
        assert(out@ =~= zip_records_text(zips@.take(0)));
    }
    while i < zips.len()
        invariant
            i <= zips@.len(),
            out@ == zip_records_text(zips@.take(i as int)),
            forall|j: int|
                0 <= j < i && ends_with_zip((#[trigger] zips@[j]).0@) ==> zip_entry_list(
                    zips@[j].1@,
                ) is Some,
        decreases zips@.len() - i,
    {
        let name = &zips[i].0;
        let data = &zips[i].1;
        let ghost pre = out@;
        proof {
            assert(zips@.take(i + 1).drop_last() =~= zips@.take(i as int));
            assert(zips@.take(i + 1).last() == zips@[i as int]);
        }
        if is_zip(name.as_str()) {
            match zip_entry_names(data) {
                Ok(files) => {
                    let rec = Record { name: name.clone(), files };
                    let line = record_line(&rec);
                    out.append(line.as_str());
                    push_char(&mut out, '\n');
                    proof {
                        assert(rec.files.deep_view() == entry_list_of(zips@[i as int].1@));
                        assert(out@ =~= pre + (record_json(
                            zips@[i as int].0@,
                            entry_list_of(zips@[i as int].1@),
                        ) + seq!['\n']));
                        assert(out@ =~= zip_records_text(zips@.take(i + 1)));
                    }
                },
                Err(e) => {
                    proof {
                        assert(ends_with_zip(zips@[i as int].0@) && zip_entry_list(
                            zips@[i as int].1@,
                        ) is None);
                        assert(!zips_ok(zips@));
                    }
                    return Err(e);
                },
            }
        } else {
            proof {
                assert(pre + Seq::<char>::empty() =~= pre);
                assert(out@ =~= zip_records_text(zips@.take(i + 1)));
            }
        }
        i = i + 1;
    }
    proof {
        assert(zips@.take(zips@.len() as int) =~= zips@);
    }
    Ok(out)
}

} // verus!
