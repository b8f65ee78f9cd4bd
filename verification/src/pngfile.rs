//! PNG files as the balloon images use them: a `.pna` file's bytes decoded
//! into the alpha plane of its `.png`, and the colour key of a `tRNS` chunk.
use vstd::prelude::*;
use crate::raster::{merge_alpha, trns_key, trns_key_of, Image, Pixel};

verus! {

/// The 8-bit luminance plane, row by row (`rows[y][x]`), that `image`
/// decodes from PNG bytes; none where they are no PNG it decodes.
pub uninterp spec fn png_luma(bytes: Seq<u8>) -> Option<Seq<Seq<u8>>>;

/// The raw `tRNS` chunk that `png` reads from the header of PNG bytes; none
/// where the header has no such chunk or does not read.
pub uninterp spec fn png_trns(bytes: Seq<u8>) -> Option<Seq<u8>>;

/// Rows of bytes as sequences.
pub open spec fn rows_view(rows: Seq<Vec<u8>>) -> Seq<Seq<u8>> {
    rows.map_values(|r: Vec<u8>| r@)
}

/// `alpha` has the size of `rgb`: one row per pixel row, one byte per pixel.
pub open spec fn fits_plane(rgb: Image, alpha: Seq<Seq<u8>>) -> bool {
    alpha.len() == rgb.h() && forall|y: int| 0 <= y < rgb.h() ==> (#[trigger] alpha[y]).len() == rgb.w()
}

/// `out` is `rgb` with its alpha taken from `alpha`.
pub open spec fn with_alpha(out: Image, rgb: Image, alpha: Seq<Seq<u8>>) -> bool {
    &&& out.wf() && out.w() == rgb.w() && out.h() == rgb.h()
    &&& forall|x: int, y: int|
        0 <= x < rgb.w() && 0 <= y < rgb.h() ==> #[trigger] out.at(x, y) == Pixel(
            rgb.at(x, y).0,
            rgb.at(x, y).1,
            rgb.at(x, y).2,
            alpha[y][x],
        )
}

/// Decodes PNG bytes with `image::load_from_memory_with_format` and turns
/// the picture into 8-bit luminance with `DynamicImage::to_luma8`. What it
/// gives is named `png_luma(bytes)`: a decoder's output is not restated here.
#[verifier::external_body]
fn decode_png_luma(bytes: &[u8]) -> (r: Option<Vec<Vec<u8>>>)
    ensures
        match r {
            Some(rows) => png_luma(bytes@) == Some(rows_view(rows@)),
            None => png_luma(bytes@) is None,
        },
{
    let img = image::load_from_memory_with_format(bytes, image::ImageFormat::Png).ok()?.to_luma8();
    Some(img.rows().map(|row| row.map(|p| p.0[0]).collect()).collect())
}

/// Reads the header of PNG bytes with `png::Decoder::read_info` and hands
/// out `Info::trns`, the raw `tRNS` chunk; what it gives is named `png_trns(bytes)`.
#[verifier::external_body]
fn read_png_trns(bytes: &[u8]) -> (r: Option<Vec<u8>>)
    ensures
        match r {
            Some(t) => png_trns(bytes@) == Some(t@),
            None => png_trns(bytes@) is None,
        },
{
    let reader = png::Decoder::new(std::io::Cursor::new(bytes)).read_info().ok()?;
    reader.info().trns.as_ref().map(|t| t.to_vec())
}

/// Why a `.pna` file gives no alpha plane for its image.
#[derive(Debug, Clone, Copy, PartialEq, Eq, Structural)]
pub enum PnaError {
    /// Its bytes do not decode as a PNG.
    Undecodable,
    /// It decodes to a plane `width` × `height` that is not the image's size.
    SizeMismatch { width: usize, height: usize },
}

/// The RGB image with the alpha plane that the `.pna` bytes decode to; an
/// error where they decode to nothing, or to a plane of another size (the
/// plane's width read from its first row).
pub fn alpha_from_pna(rgb: &Image, pna: &[u8]) -> (r: Result<Image, PnaError>)
    requires
        rgb.wf(),
    ensures
        match png_luma(pna@) {
            None => r == Err::<Image, PnaError>(PnaError::Undecodable),
            Some(a) => match r {
                Ok(out) => fits_plane(*rgb, a) && with_alpha(out, *rgb, a),
                Err(e) => !fits_plane(*rgb, a) && e == PnaError::SizeMismatch {
                    width: if a.len() > 0 { a[0].len() as usize } else { 0 },
                    height: a.len() as usize,
                },
            },
        },
{
    match decode_png_luma(pna) {
        None => Err(PnaError::Undecodable),
        Some(rows) => {
            let r = merge_alpha(rgb, &rows);
            let ghost a = rows_view(rows@);
            assert(a.len() == rows@.len());
            assert forall|y: int| 0 <= y < rows@.len() implies #[trigger] a[y] == rows@[y]@ by {}
            proof {
                if r is Some {
                    let out = r->0;
                    assert forall|y: int| 0 <= y < rgb.h() implies (#[trigger] a[y]).len() == rgb.w() by {
                        assert(a[y] == rows@[y]@);
                    }
                    assert forall|x: int, y: int| 0 <= x < rgb.w() && 0 <= y < rgb.h() implies #[trigger] out.at(x, y)
                        == Pixel(rgb.at(x, y).0, rgb.at(x, y).1, rgb.at(x, y).2, a[y][x]) by {
                        assert(a[y] == rows@[y]@);
                    }
                } else if fits_plane(*rgb, a) {
                    assert forall|y: int| 0 <= y < rgb.h() implies (#[trigger] rows@[y])@.len() == rgb.w() by {
                        assert(a[y] == rows@[y]@);
                    }
                }
            }
            match r {
                Some(out) => Ok(out),
                None => {
                    let width = if rows.len() > 0 { rows[0].len() } else { 0 };
                    Err(PnaError::SizeMismatch { width, height: rows.len() })
                },
            }
        },
    }
}

/// The colour key of the `tRNS` chunk in PNG bytes (see `trns_key_of`);
/// none where the bytes have no such chunk.
pub fn png_trns_key(bytes: &[u8]) -> (r: Option<(u8, u8, u8)>)
    ensures
        r == match png_trns(bytes@) {
            Some(t) => trns_key_of(t),
            None => None,
        },
{
    match read_png_trns(bytes) {
        Some(t) => trns_key(t.as_slice()),
        None => None,
    }
}

} // verus!
