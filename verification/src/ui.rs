//! The editor's settings vocabulary: the kinds of setting fields and their
//! groups, and the small pieces of editor state that go with them.
use vstd::prelude::*;

verus! {

/// The kind of input a setting field takes.
#[derive(Debug, Clone, Copy, PartialEq, Eq, Structural)]
pub enum FieldType {
    /// A colour that must be set.
    Color,
    /// A colour that may be `none`.
    ColorNone,
    Text,
    Int,
    Dropdown,
}

/// One setting field: its descript key, label, input kind, choices (for a
/// dropdown) and default value.
#[derive(Debug, Clone, Copy)]
pub struct FieldDef {
    pub key: &'static str,
    pub label: &'static str,
    pub field_type: FieldType,
    pub choices: &'static [&'static str],
    pub default: &'static str,
}

/// Which balloons a settings group applies to: input-box balloons
/// (`balloonc`) or the others (`balloons`, `balloonk`, `balloonp…`).
#[derive(Debug, Clone, Copy, PartialEq, Eq, Structural)]
pub enum GroupVisibility {
    C,
    Ks,
}

/// A group of setting fields shown together.
#[derive(Debug, Clone, Copy)]
pub struct AccordionGroup {
    pub name: &'static str,
    pub visibility: GroupVisibility,
    pub fields: &'static [FieldDef],
}

/// Whether a group applies to a balloon, by whether it is an input-box balloon.
pub fn group_applies(g: GroupVisibility, is_balloonc: bool) -> (r: bool)
    ensures
        r == (if is_balloonc {
            g == GroupVisibility::C
        } else {
            g == GroupVisibility::Ks
        }),
{
    match g {
        GroupVisibility::C => is_balloonc,
        GroupVisibility::Ks => !is_balloonc,
    }
}

/// The colour theme of the editor.
#[derive(Debug, Clone, Copy, PartialEq, Eq, Structural)]
pub enum ThemeMode {
    Light,
    Dark,
}

impl Default for ThemeMode {
    /// Light.
    fn default() -> (t: ThemeMode)
        ensures
            t == ThemeMode::Light,
    {
        ThemeMode::Light
    }
}

/// Which sample text the preview shows.
#[derive(Debug, Clone, Copy, PartialEq, Eq, Structural)]
pub enum PreviewTextMode {
    /// The ordinary sample.
    A,
    /// The sample that shows where lines wrap.
    B,
}

impl Default for PreviewTextMode {
    /// The ordinary sample.
    fn default() -> (t: PreviewTextMode)
        ensures
            t == PreviewTextMode::A,
    {
        PreviewTextMode::A
    }
}

/// The background behind the preview.
#[derive(Debug, Clone, Copy, PartialEq, Eq, Structural)]
pub enum CanvasBg {
    /// A checker pattern, showing transparency.
    Checker,
    Solid(u8, u8, u8),
}

impl Default for CanvasBg {
    /// The checker pattern.
    fn default() -> (b: CanvasBg)
        ensures
            b == CanvasBg::Checker,
    {
        CanvasBg::Checker
    }
}

/// An action held back until the user has answered the unsaved-changes question.
#[derive(Debug, Clone)]
pub enum PendingAction {
    /// Open the project of that name.
    OpenProject(String),
    Quit,
}

/// A text or number field being edited: its key, the value when editing
/// began, and the value typed so far.
#[derive(Debug, Clone)]
pub struct EditingBuf {
    pub field_key: String,
    pub committed: String,
    pub current: String,
}

impl EditingBuf {
    /// Starts editing `key` at `value`.
    pub fn start(key: String, value: String) -> (b: EditingBuf)
        ensures
            b.field_key@ == key@,
            b.committed@ == value@,
            b.current@ == value@,
    {
        let current = value.clone();
        EditingBuf { field_key: key, committed: value, current }
    }

    /// Whether the typed value differs from the value editing began with.
    pub fn changed(&self) -> (r: bool)
        ensures
            r == (self.current@ != self.committed@),
    {
        !crate::descript::str_eq(self.current.as_str(), self.committed.as_str())
    }
}

/// Fonts registered for the preview from a project folder. Only Windows
/// registers fonts; elsewhere nothing is registered.
pub struct PrivateFontGuard;

impl PrivateFontGuard {
    /// Registers the fonts of a folder: nothing outside Windows.
    pub fn register_from_dir(_font_name: &str, _dir: &str) -> (g: PrivateFontGuard) {
        PrivateFontGuard
    }

    /// Whether no font is registered: always, outside Windows.
    pub fn is_empty(&self) -> (r: bool)
        ensures
            r,
    {
        true
    }
}

} // verus!
