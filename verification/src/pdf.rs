//! What the library knows of an opened PDF, and the data URL of a rendered
//! page preview (PNG, base64-encoded).
use vstd::prelude::*;
use base64::Engine;
use crate::size::{format_size, size_text};

verus! {

/// The facts shown for an opened PDF.
pub struct PdfInfo {
    pub path: String,
    /// The file size as text (see `format_size`).
    pub size: String,
    pub size_bytes: u64,
    pub pages: u32,
}

/// The information of the PDF at `path` whose file holds `size_bytes` bytes and
/// whose document reports `page_count` pages (taken as `u32`, as the count
/// is cast).
pub fn pdf_info(path: &str, size_bytes: u64, page_count: i32) -> (info: PdfInfo)
    ensures
        info.path@ == path@,
        info.size@ == size_text(size_bytes as nat),
        info.size_bytes == size_bytes,
        info.pages == page_count as u32,
{
    PdfInfo {
        path: String::from_str(path),
        size: format_size(size_bytes),
        size_bytes,
        pages: page_count as u32,
    }
}

/// The character of the standard base64 alphabet for the 6-bit value `v`.
pub open spec fn base64_char(v: int) -> char {
    if v < 26 {
        ('A' as int + v) as char
    } else if v < 52 {
        ('a' as int + v - 26) as char
    } else if v < 62 {
        ('0' as int + v - 52) as char
    } else if v == 62 {
        '+'
    } else {
        '/'
    }
}

/// Standard base64 with `=` padding (RFC 4648): each group of three bytes
/// becomes four characters; a last group of one or two bytes is padded.
pub open spec fn base64_text(b: Seq<u8>) -> Seq<char>
    decreases b.len(),
{
    if b.len() == 0 {
        seq![]
    } else {
        let x0 = b[0] as int;
        let x1 = if b.len() > 1 { b[1] as int } else { 0 };
        let x2 = if b.len() > 2 { b[2] as int } else { 0 };
        let c0 = base64_char(x0 / 4);
        let c1 = base64_char((x0 % 4) * 16 + x1 / 16);
        let c2 = base64_char((x1 % 16) * 4 + x2 / 64);
        let c3 = base64_char(x2 % 64);
        if b.len() == 1 {
            seq![c0, c1, '=', '=']
        } else if b.len() == 2 {
            seq![c0, c1, c2, '=']
        } else {
            seq![c0, c1, c2, c3] + base64_text(b.skip(3))
        }
    }
}

/// `x` as four bytes, most significant first.
pub open spec fn be32(x: u32) -> Seq<u8> {
    seq![
        (x / 0x100_0000) as u8,
        ((x / 0x1_0000) % 256) as u8,
        ((x / 256) % 256) as u8,
        (x % 256) as u8,
    ]
}

/// The first 29 bytes of a PNG file of a `width` x `height` image of 8-bit
/// RGBA pixels, not interlaced: the PNG signature, then the IHDR chunk's
/// length (13), type and data (width, height, bit depth 8, color type 6,
/// compression 0, filter 0, interlace 0). The chunk's CRC follows.
pub open spec fn png_rgba_header(width: u32, height: u32) -> Seq<u8> {
    seq![137u8, 80, 78, 71, 13, 10, 26, 10, 0, 0, 0, 13, 73, 72, 68, 82] + be32(width) + be32(
        height,
    ) + seq![8u8, 6, 0, 0, 0]
}

/// The IEND chunk that closes a PNG file: empty data, type `IEND`, its CRC.
pub open spec fn png_end() -> Seq<u8> {
    seq![0u8, 0, 0, 0, 73, 69, 78, 68, 0xAE, 0x42, 0x60, 0x82]
}

/// `png` is laid out as a PNG file of a `width` x `height` RGBA image: it
/// opens with that image's header and closes with the IEND chunk.
pub open spec fn is_rgba_png_frame(png: Seq<u8>, width: u32, height: u32) -> bool {
    &&& png.len() >= 41
    &&& png.take(29) == png_rgba_header(width, height)
    &&& png.skip(png.len() - 12) == png_end()
}

/// What the `image` crate's PNG encoder makes of an RGBA image of `width` x
/// `height` pixels: the PNG file, or the text of the encoder's error.
pub uninterp spec fn png_encoding(width: u32, height: u32, rgba: Seq<u8>) -> Result<Seq<u8>, Seq<char>>;

/// Calls `base64::engine::general_purpose::STANDARD.encode`: standard alphabet,
/// `=` padding. The crate panics only where the encoded length overflows
/// `usize`, which the precondition excludes.
#[verifier::external_body]
fn base64_encode(bytes: &[u8]) -> (s: String)
    requires
        4 * ((bytes.len() + 2) / 3) <= usize::MAX,
    ensures
        s@ == base64_text(bytes@),
{
    base64::engine::general_purpose::STANDARD.encode(bytes)
}

/// Encodes an RGBA image as PNG with the `image` crate
/// (`RgbaImage::from_raw`, then `DynamicImage::write_to` with
/// `ImageFormat::Png` into memory); an error becomes its `Display` text.
/// Claims that the result is a function of the arguments; that a `Vec` holds
/// at most `isize::MAX` bytes; that the PNG written (by the `png` crate's
/// `Writer`: signature and IHDR in `encode_header`, IEND when the writer is
/// dropped) opens with the header of a `width` x `height` 8-bit RGBA image
/// and closes with the IEND chunk; and that a zero width or height is refused
/// with the `png` crate's `ZeroWidth` or `ZeroHeight` text (checked in that
/// order by `Writer::init`). The pixel data between header and end, DEFLATE
/// compressed, is left unstated. The buffer must hold exactly the image: the
/// encoder panics on any other length.
#[verifier::external_body]
fn encode_png(width: u32, height: u32, rgba: Vec<u8>) -> (r: Result<Vec<u8>, String>)
    requires
        4 * width * height == rgba.len(),
    ensures
        r is Ok ==> png_encoding(width, height, rgba@) == Ok::<Seq<u8>, Seq<char>>(r->Ok_0@),
        r is Ok ==> r->Ok_0.len() <= isize::MAX,
        r is Ok ==> is_rgba_png_frame(r->Ok_0@, width, height),
        r is Err ==> png_encoding(width, height, rgba@) == Err::<Seq<u8>, Seq<char>>(r->Err_0@),
        width == 0 ==> r is Err && r->Err_0@ == "Zero width not allowed"@,
        width > 0 && height == 0 ==> r is Err && r->Err_0@ == "Zero height not allowed"@,
{
    let image = image::RgbaImage::from_raw(width, height, rgba).expect("buffer holds the image");
    let mut png: Vec<u8> = Vec::new();
    match image::DynamicImage::ImageRgba8(image).write_to(
        &mut std::io::Cursor::new(&mut png),
        image::ImageFormat::Png,
    ) {
        Ok(()) => Ok(png),
        Err(e) => Err(format!("{e}")),
    }
}

/// The preview of a rendered page: the RGBA image encoded as PNG, as a
/// `data:image/png;base64,` URL; or `encode: <error>` where encoding fails.
pub fn preview_data_url(width: u32, height: u32, rgba: Vec<u8>) -> (r: Result<String, String>)
    requires
        4 * width * height == rgba.len(),
    ensures
        png_encoding(width, height, rgba@) matches Ok(png) ==> (r matches Ok(url) && url@
            == "data:image/png;base64,"@ + base64_text(png)),
        png_encoding(width, height, rgba@) matches Err(text) ==> (r matches Err(msg) && msg@
            == "encode: "@ + text),
        r matches Ok(url) ==> exists|png: Seq<u8>|
            is_rgba_png_frame(png, width, height) && url@ == "data:image/png;base64,"@
                + #[trigger] base64_text(png),
        width == 0 ==> (r matches Err(msg) && msg@ == "encode: Zero width not allowed"@),
        width > 0 && height == 0 ==> (r matches Err(msg) && msg@
            == "encode: Zero height not allowed"@),
{
    match encode_png(width, height, rgba) {
        Ok(png) => {
            assert(4 * ((png.len() + 2) / 3) <= usize::MAX) by (nonlinear_arith)
                requires
                    png.len() <= isize::MAX,
                    usize::MAX == 2 * isize::MAX + 1,
            ;
            let mut url = String::from_str("data:image/png;base64,");
            let encoded = base64_encode(png.as_slice());
            url.append(encoded.as_str());
            assert(is_rgba_png_frame(png@, width, height) && url@ == "data:image/png;base64,"@
                + base64_text(png@));
            Ok(url)
        },
        Err(text) => {
            let mut msg = String::from_str("encode: ");
            msg.append(text.as_str());
            proof {
                reveal_strlit("encode: ");
                reveal_strlit("Zero width not allowed");
                reveal_strlit("Zero height not allowed");
                reveal_strlit("encode: Zero width not allowed");
                reveal_strlit("encode: Zero height not allowed");
            }
            Err(msg)
        },
    }
}

} // verus!
