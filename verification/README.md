# balloon_editor

The editing core of a balloon-skin editor for ukagaka ghosts, written in
Verus: the functions under `src/` are verified against their contracts,
except the few marked `#[verifier::external_body]`, which call `std`,
`regex`, `encoding_rs`, `image` and `png` and whose contracts are trusted.

- `src/` — the library: `descript.txt` reading and editing (`descript`,
  with the read-after-write laws in `descript_laws`), the `slbe_files.txt`
  layout and its row editor (`layout`, `rows`), balloon naming (`naming`),
  drag editing of positions (`drag`), colours and profiles (`color`,
  `profile`, `history`), pixel operations (`raster`, `pngfile`, `compose`,
  `overlay`, `markers`, `shapes`), text styles and the input box
  (`textstyle`, `inputbox`, `fonts`, `fontsearch`), importing and exporting
  (`importing`, `export`, `folder`, `saving`, `encoding`).
- `tests/` — tests on concrete values, run against the compiled library.
- `app/` — a command-line program around the library: file and image I/O,
  font lookup, and the drawing that needs floating point.
