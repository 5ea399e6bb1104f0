//! Printer-side preparation: the device-mode values for the requested print
//! settings, and the conversion of RGBA pixels to the BGRA layout the printer
//! device context takes.
use vstd::prelude::*;

verus! {

// Device-mode fields that the print settings fill in.
pub const DM_ORIENTATION: u32 = 0x00000001;
pub const DM_PAPERSIZE: u32 = 0x00000002;
pub const DM_COPIES: u32 = 0x00000100;
pub const DM_COLOR: u32 = 0x00000800;
pub const DM_DUPLEX: u32 = 0x00001000;
pub const DM_COLLATE: u32 = 0x00008000;

// Paper sizes.
pub const DMPAPER_LETTER: i16 = 1;
pub const DMPAPER_LEGAL: i16 = 5;
pub const DMPAPER_A3: i16 = 8;
pub const DMPAPER_A4: i16 = 9;
pub const DMPAPER_A5: i16 = 11;
pub const DMPAPER_B5: i16 = 13;

// Orientation.
pub const DMORIENT_PORTRAIT: i16 = 1;
pub const DMORIENT_LANDSCAPE: i16 = 2;

// Color mode.
pub const DMCOLOR_MONOCHROME: i16 = 1;
pub const DMCOLOR_COLOR: i16 = 2;

// Duplex.
pub const DMDUP_SIMPLEX: i16 = 1;
/// Flip on the long edge.
pub const DMDUP_VERTICAL: i16 = 2;
/// Flip on the short edge.
pub const DMDUP_HORIZONTAL: i16 = 3;

// Collation.
pub const DMCOLLATE_TRUE: i16 = 1;
pub const DMCOLLATE_FALSE: i16 = 0;

/// How a job is to be printed.
pub struct PrintSettings {
    pub paper_size: i16,
    pub orientation: i16,
    pub color_mode: i16,
    pub duplex: i16,
    pub collate: bool,
    pub copies: u32,
}

/// The values written into the printer's device mode.
pub struct DevModeValues {
    /// Which fields the device mode sets.
    pub fields: u32,
    pub orientation: i16,
    pub paper_size: i16,
    /// The copy count the device makes of each printed page: always 1, since
    /// the print run itself goes through the page list once per copy.
    pub copies: i16,
    pub color: i16,
    pub duplex: i16,
    pub collate: i16,
}

impl PrintSettings {
    /// The device-mode values for these settings: all six fields set, the
    /// settings copied over, one device copy per page (the requested copies
    /// are made by printing the page list `copies` times, see `print_job`),
    /// and collation as `DMCOLLATE_TRUE` or `DMCOLLATE_FALSE`.
    pub fn devmode_values(&self) -> (d: DevModeValues)
        ensures
            d.fields == 0x9903,
            d.orientation == self.orientation,
            d.paper_size == self.paper_size,
            d.copies == 1,
            d.color == self.color_mode,
            d.duplex == self.duplex,
            d.collate == if self.collate { DMCOLLATE_TRUE } else { DMCOLLATE_FALSE },
    {
        let fields = DM_ORIENTATION | DM_PAPERSIZE | DM_COPIES | DM_COLOR | DM_DUPLEX | DM_COLLATE;
        assert(fields == 0x9903) by (bit_vector)
            requires
                fields == 0x1u32 | 0x2u32 | 0x100u32 | 0x800u32 | 0x1000u32 | 0x8000u32,
        ;
        DevModeValues {
            fields,
            orientation: self.orientation,
            paper_size: self.paper_size,
            copies: 1,
            color: self.color_mode,
            duplex: self.duplex,
            collate: if self.collate { DMCOLLATE_TRUE } else { DMCOLLATE_FALSE },
        }
    }

    /// Whether the page is printed in shades of gray.
    pub fn is_grayscale(&self) -> (r: bool)
        ensures
            r == (self.color_mode == DMCOLOR_MONOCHROME),
    {
        self.color_mode == DMCOLOR_MONOCHROME
    }
}

/// The byte of an RGBA buffer that lands at byte `i` of the BGRA buffer: red
/// and blue trade places, green and alpha stay.
pub open spec fn bgra_source(i: int) -> int {
    if i % 4 == 0 {
        i + 2
    } else if i % 4 == 2 {
        i - 2
    } else {
        i
    }
}

/// Trading red and blue twice puts every byte back: converting twice gives
/// the pixels back.
pub proof fn lemma_bgra_twice(a: Seq<u8>, b: Seq<u8>, c: Seq<u8>)
    requires
        a.len() % 4 == 0,
        b.len() == a.len(),
        c.len() == a.len(),
        forall|i: int| 0 <= i < b.len() ==> #[trigger] b[i] == a[bgra_source(i)],
        forall|i: int| 0 <= i < c.len() ==> #[trigger] c[i] == b[bgra_source(i)],
    ensures
        c == a,
{
    assert forall|i: int| 0 <= i < c.len() implies c[i] == a[i] by {
        assert(0 <= bgra_source(i) < b.len());
        assert(bgra_source(bgra_source(i)) == i);
        assert(b[bgra_source(i)] == a[bgra_source(bgra_source(i))]);
    }
    assert(c =~= a);
}

/// Converts RGBA pixels to BGRA pixels.
pub fn rgba_to_bgra(rgba: &Vec<u8>) -> (bgra: Vec<u8>)
    requires
        rgba.len() % 4 == 0,
    ensures
        bgra.len() == rgba.len(),
        forall|i: int| 0 <= i < bgra.len() ==> #[trigger] bgra@[i] == rgba@[bgra_source(i)],
        forall|p: int|
            0 <= p < rgba.len() / 4 ==> {
                &&& #[trigger] bgra@[4 * p] == rgba@[4 * p + 2]
                &&& bgra@[4 * p + 1] == rgba@[4 * p + 1]
                &&& bgra@[4 * p + 2] == rgba@[4 * p]
                &&& bgra@[4 * p + 3] == rgba@[4 * p + 3]
            },
{
    let n = rgba.len();
    let mut bgra: Vec<u8> = Vec::with_capacity(n);
    let mut i: usize = 0;
    while i < n
        invariant
            n == rgba.len(),
            n % 4 == 0,
            i <= n,
            bgra.len() == i,
            forall|k: int| 0 <= k < i ==> #[trigger] bgra@[k] == rgba@[bgra_source(k)],
        decreases n - i,
    {
        let src = if i % 4 == 0 {
            i + 2
        } else if i % 4 == 2 {
            i - 2
        } else {
            i
        };
        bgra.push(rgba[src]);
        i = i + 1;
    }
    proof {
        assert forall|p: int| 0 <= p < rgba.len() / 4 implies {
            &&& #[trigger] bgra@[4 * p] == rgba@[4 * p + 2]
            &&& bgra@[4 * p + 1] == rgba@[4 * p + 1]
            &&& bgra@[4 * p + 2] == rgba@[4 * p]
            &&& bgra@[4 * p + 3] == rgba@[4 * p + 3]
        } by {
            lemma_pixel_bytes(p);
        }
    }
    bgra
}

/// In pixel `p`, the blue byte of the BGRA buffer comes from the red byte of
/// the RGBA buffer and the red from the blue; green and alpha stay in place.
pub proof fn lemma_pixel_bytes(p: int)
    requires
        p >= 0,
    ensures
        bgra_source(4 * p) == 4 * p + 2,
        bgra_source(4 * p + 1) == 4 * p + 1,
        bgra_source(4 * p + 2) == 4 * p,
        bgra_source(4 * p + 3) == 4 * p + 3,
{
    assert((4 * p) % 4 == 0 && (4 * p + 1) % 4 == 1 && (4 * p + 2) % 4 == 2 && (4 * p + 3) % 4
        == 3) by (nonlinear_arith)
        requires
            p >= 0,
    ;
}

/// Builds gray BGRA pixels: each pixel's blue, green and red take its
/// luminance `luma[p]`, and its alpha is kept.
pub fn gray_to_bgra(rgba: &Vec<u8>, luma: &Vec<u8>) -> (bgra: Vec<u8>)
    requires
        rgba.len() == 4 * luma.len(),
    ensures
        bgra.len() == rgba.len(),
        forall|i: int|
            0 <= i < bgra.len() ==> #[trigger] bgra@[i] == if i % 4 == 3 {
                rgba@[i]
            } else {
                luma@[i / 4]
            },
        forall|p: int|
            0 <= p < luma.len() ==> {
                &&& #[trigger] bgra@[4 * p] == luma@[p]
                &&& bgra@[4 * p + 1] == luma@[p]
                &&& bgra@[4 * p + 2] == luma@[p]
                &&& bgra@[4 * p + 3] == rgba@[4 * p + 3]
            },
{
    let n = rgba.len();
    let mut bgra: Vec<u8> = Vec::with_capacity(n);
    let mut i: usize = 0;
    while i < n
        invariant
            n == rgba.len(),
            n == 4 * luma.len(),
            i <= n,
            bgra.len() == i,
            forall|k: int|
                0 <= k < i ==> #[trigger] bgra@[k] == if k % 4 == 3 {
                    rgba@[k]
                } else {
                    luma@[k / 4]
                },
        decreases n - i,
    {
        let b = if i % 4 == 3 {
            rgba[i]
        } else {
            luma[i / 4]
        };
        bgra.push(b);
        i = i + 1;
    }
    proof {
        assert forall|p: int| 0 <= p < luma.len() implies {
            &&& #[trigger] bgra@[4 * p] == luma@[p]
            &&& bgra@[4 * p + 1] == luma@[p]
            &&& bgra@[4 * p + 2] == luma@[p]
            &&& bgra@[4 * p + 3] == rgba@[4 * p + 3]
        } by {
            assert((4 * p) % 4 == 0 && (4 * p + 1) % 4 == 1 && (4 * p + 2) % 4 == 2 && (4 * p + 3)
                % 4 == 3 && (4 * p) / 4 == p && (4 * p + 1) / 4 == p && (4 * p + 2) / 4 == p)
                by (nonlinear_arith)
                requires
                    p >= 0,
            ;
        }
    }
    bgra
}

} // verus!
