//! Which files of a folder become part of a new project, and how.
use vstd::prelude::*;
use crate::descript::str_eq;
use crate::fontsearch::{ext_dot, ext_of};
use crate::text::{chars_of, ends_with, str_lowercase, string_of, to_lowercase};

verus! {

/// What creating a project from a folder does with one file of it.
#[derive(Debug, Clone, Copy, PartialEq, Eq, Structural)]
pub enum FileAction {
    /// Left out.
    Skip,
    /// Copied as it is, under its own name.
    Copy,
    /// Converted to UTF-8, under its own name.
    ConvertText,
    /// Converted to UTF-8 as the project's `profile/slbe_files.txt`.
    ConvertToLayout,
}

/// The action for a file `f` at the top of the source folder: images
/// (`png`, `pna`, `pnr`) are copied, text files converted to UTF-8, the
/// old `files.txt` becoming `profile/slbe_files.txt`; `updates.txt` and
/// files of any other extension are left out (case is ignored throughout).
pub open spec fn folder_file_action(f: Seq<char>) -> FileAction {
    let e = str_lowercase(ext_of(f));
    let low = str_lowercase(f);
    if ext_dot(f) is None || !(e == "png"@ || e == "pna"@ || e == "pnr"@ || e == "txt"@) {
        FileAction::Skip
    } else if low == "updates.txt"@ {
        FileAction::Skip
    } else if e == "txt"@ {
        if low == "files.txt"@ {
            FileAction::ConvertToLayout
        } else {
            FileAction::ConvertText
        }
    } else {
        FileAction::Copy
    }
}

/// The action for a file at the top of the source folder (see `folder_file_action`).
pub fn file_action(name: &str) -> (r: FileAction)
    ensures
        r == folder_file_action(name@),
{
    let v = chars_of(name);
    let low = to_lowercase(name);
    let mut e: usize = v.len();
    assert(v@.take(v@.len() as int) =~= v@);
    while e > 0 && v[e - 1] != '.'
        invariant
            e <= v.len(),
            v@ == name@,
            crate::fontsearch::last_dot(v@) == crate::fontsearch::last_dot(v@.take(e as int)),
        decreases e,
    {
        assert(v@.take(e as int).drop_last() =~= v@.take(e - 1));
        e = e - 1;
    }
    if e <= 1 {
        if e == 0 {
            assert(v@.take(0) =~= Seq::<char>::empty());
        } else {
            assert(v@.take(1).last() == v@[0]);
        }
        return FileAction::Skip;
    }
    assert(v@.take(e as int).last() == v@[e - 1]);
    assert(v@.subrange(e as int, v@.len() as int) =~= v@.skip(e as int));
    let ext = string_of(&v, e, v.len());
    let el = to_lowercase(ext.as_str());
    let es = el.as_str();
    if !(str_eq(es, "png") || str_eq(es, "pna") || str_eq(es, "pnr") || str_eq(es, "txt")) {
        FileAction::Skip
    } else if str_eq(low.as_str(), "updates.txt") {
        FileAction::Skip
    } else if str_eq(es, "txt") {
        if str_eq(low.as_str(), "files.txt") {
            FileAction::ConvertToLayout
        } else {
            FileAction::ConvertText
        }
    } else {
        FileAction::Copy
    }
}

/// A file of the source folder's `profile/` subfolder: text files
/// (ending `.txt`, any case) are converted to UTF-8, all others copied.
pub fn profile_file_action(name: &str) -> (r: FileAction)
    ensures
        r == (if ends_with(str_lowercase(name@), ".txt"@) {
            FileAction::ConvertText
        } else {
            FileAction::Copy
        }),
{
    let low = to_lowercase(name);
    let v = chars_of(low.as_str());
    proof {
        reveal_strlit(".txt");
    }
    if v.len() >= 4 && v[v.len() - 4] == '.' && v[v.len() - 3] == 't' && v[v.len() - 2] == 'x' && v[v.len() - 1]
        == 't' {
        assert(v@.subrange(v.len() - 4, v.len() as int) =~= ".txt"@);
        FileAction::ConvertText
    } else {
        proof {
            if ends_with(v@, ".txt"@) {
                assert(v@.subrange(v.len() - 4, v.len() as int)[0] == v@[v.len() - 4]);
                assert(v@.subrange(v.len() - 4, v.len() as int)[1] == v@[v.len() - 3]);
                assert(v@.subrange(v.len() - 4, v.len() as int)[2] == v@[v.len() - 2]);
                assert(v@.subrange(v.len() - 4, v.len() as int)[3] == v@[v.len() - 1]);
            }
        }
        FileAction::Copy
    }
}

} // verus!
