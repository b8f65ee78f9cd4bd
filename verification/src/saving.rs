//! What saving a project writes: the per-balloon settings files, kept only
//! where they differ from the common `descript.txt`, and `slbe_files.txt`.
use vstd::prelude::*;
use crate::descript::{diff_against_descript, diff_text};
use crate::text::{chars_of, trim, trim_bounds};

verus! {

/// What saving does with one file of the project.
pub enum SaveAction {
    /// The file is removed, where it exists.
    Remove,
    /// The file is written with this text.
    Write(String),
}

/// Text that trims to nothing.
pub open spec fn blank(s: Seq<char>) -> bool {
    trim(s).len() == 0
}

/// The text a balloon's settings file is saved with, if any: what its
/// settings `text` hold beyond the common descript (see `diff_text`); none
/// where the settings are missing or blank, or add nothing.
pub open spec fn config_save_text(text: Option<Seq<char>>, descript: Seq<char>) -> Option<Seq<char>> {
    match text {
        Some(t) => if blank(t) {
            None
        } else {
            let d = diff_text(t, descript);
            if blank(d) {
                None
            } else {
                Some(d)
            }
        },
        None => None,
    }
}

/// Whether `s` trims to nothing.
fn is_blank(s: &str) -> (r: bool)
    ensures
        r == blank(s@),
{
    let v = chars_of(s);
    let (a, b) = trim_bounds(&v, 0, v.len());
    assert(v@.subrange(0, v@.len() as int) =~= v@);
    a == b
}

/// What saving does with the settings file of one balloon, given the
/// settings text the editor holds for it (see `config_save_text`).
pub fn individual_config_save(text: Option<&str>, descript_text: &str) -> (r: SaveAction)
    ensures
        match r {
            SaveAction::Write(s) => config_save_text(
                match text {
                    Some(t) => Some(t@),
                    None => None,
                },
                descript_text@,
            ) == Some(s@),
            SaveAction::Remove => config_save_text(
                match text {
                    Some(t) => Some(t@),
                    None => None,
                },
                descript_text@,
            ) is None,
        },
{
    match text {
        Some(t) => {
            if is_blank(t) {
                SaveAction::Remove
            } else {
                let d = diff_against_descript(t, descript_text);
                if is_blank(d.as_str()) {
                    SaveAction::Remove
                } else {
                    SaveAction::Write(d)
                }
            }
        },
        None => SaveAction::Remove,
    }
}

/// What saving does with `slbe_files.txt`: a blank text removes the file,
/// any other is written as it is.
pub fn layout_file_save(text: &str) -> (r: SaveAction)
    ensures
        match r {
            SaveAction::Write(s) => !blank(text@) && s@ == text@,
            SaveAction::Remove => blank(text@),
        },
{
    if is_blank(text) {
        SaveAction::Remove
    } else {
        SaveAction::Write(String::from_str(text))
    }
}

} // verus!
