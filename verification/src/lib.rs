//! Colour and text-setting editor core for ukagaka balloon skins:
//! `descript.txt` editing, `slbe_files.txt` layout parsing, balloon naming,
//! and pixel operations on RGBA images.

pub mod text;
pub mod color;
pub mod descript;
pub mod num;
pub mod layout;
pub mod naming;
pub mod rows;
pub mod drag;
pub mod raster;
pub mod history;
pub mod profile;
pub mod fonts;
pub mod encoding;
pub mod editing;
pub mod ui;
pub mod importing;
pub mod export;
pub mod fontsearch;
pub mod overlay;
pub mod defaults;
pub mod compose;
pub mod project;
pub mod folder;
pub mod saving;
pub mod markers;
pub mod inputbox;
pub mod shapes;
pub mod textstyle;
pub mod pngfile;
pub mod descript_laws;
pub mod laws;

use vstd::prelude::*;
pub use vstd::hash_map::StringHashMap;

verus! {

} // verus!
