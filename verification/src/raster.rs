//! Decoded pictures, and the order in which their colours are first seen.

use vstd::prelude::*;
use vstd::set_lib::set_int_range;

verus! {

/// A colour as its red, green and blue parts.
pub type Rgb = (u8, u8, u8);

/// A decoded picture: `height` rows of `width` colours each, stored row by
/// row from the top of the picture down.
#[derive(Debug)]
pub struct Raster {
    width: u32,
    height: u32,
    pixels: Vec<Rgb>,
}

impl View for Raster {
    type V = Seq<Rgb>;

    /// The colours in storage order.
    closed spec fn view(&self) -> Seq<Rgb> {
        self.pixels@
    }
}

impl Raster {
    /// The storage holds one colour for each pixel.
    #[verifier::type_invariant]
    closed spec fn inv(self) -> bool {
        self.pixels@.len() == self.width * self.height
    }

    /// The number of columns.
    pub closed spec fn spec_width(&self) -> u32 {
        self.width
    }

    /// The number of rows.
    pub closed spec fn spec_height(&self) -> u32 {
        self.height
    }

    /// The colour in column `x` of row `y`, counting rows from the top.
    pub open spec fn pixel(&self, x: int, y: int) -> Rgb {
        self@[y * self.spec_width() + x]
    }

    /// Takes `width * height` colours as a picture. Any other number of
    /// colours is refused.
    pub fn new(width: u32, height: u32, pixels: Vec<Rgb>) -> (raster: Option<Raster>)
        ensures
            raster is Some <==> pixels@.len() == width * height,
            raster matches Some(r) ==> r.spec_width() == width && r.spec_height() == height && r@
                == pixels@,
    {
        assert(width * height <= 0xffff_ffff * 0xffff_ffff) by (nonlinear_arith)
            requires
                width <= 0xffff_ffff,
                height <= 0xffff_ffff,
        ;
        let wanted: u64 = width as u64 * height as u64;
        if pixels.len() as u64 == wanted {
            Some(Raster { width, height, pixels })
        } else {
            None
        }
    }

    /// The number of columns.
    pub fn width(&self) -> (width: u32)
        ensures
            width == self.spec_width(),
    {
        self.width
    }

    /// The number of rows.
    pub fn height(&self) -> (height: u32)
        ensures
            height == self.spec_height(),
    {
        self.height
    }

    /// The colours in storage order, one for each pixel.
    pub fn pixels(&self) -> (pixels: &Vec<Rgb>)
        ensures
            pixels@ == self@,
            pixels@.len() == self.spec_width() * self.spec_height(),
    {
        proof {
            use_type_invariant(self);
        }
        &self.pixels
    }

    /// The colour in column `x` of row `y`, counting rows from the top;
    /// `None` outside the picture.
    pub fn get_pixel(&self, x: u32, y: u32) -> (color: Option<Rgb>)
        ensures
            color == (if x < self.spec_width() && y < self.spec_height() {
                Some(self.pixel(x as int, y as int))
            } else {
                None
            }),
    {
        proof {
            use_type_invariant(self);
        }
        let stored = self.pixels.len();
        if x < self.width && y < self.height {
            proof {
                let (col, row) = (x as int, y as int);
                let (w, h) = (self.width as int, self.height as int);
                lemma_cell_index(col, row, w, h);
                assert(w * h == self.pixels@.len());
                assert(row * w + col < w * h);
                assert(row * w + col < stored);
            }
            let index = y as usize * self.width as usize + x as usize;
            Some(self.pixels[index])
        } else {
            None
        }
    }
}

/// The storage index of a cell lies within the storage.
pub proof fn lemma_cell_index(x: int, y: int, width: int, height: int)
    requires
        0 <= x < width,
        0 <= y < height,
    ensures
        0 <= y * width <= y * width + x < width * height,
{
    assert(y * width + width <= height * width) by (nonlinear_arith)
        requires
            0 <= y < height,
            0 <= width,
    ;
    assert(0 <= y * width) by (nonlinear_arith)
        requires
            0 <= y,
            0 <= width,
    ;
    assert(height * width == width * height) by (nonlinear_arith);
}

/// The distinct colours of a sequence, in the order in which each is first
/// seen.
pub open spec fn first_seen(pixels: Seq<Rgb>) -> Seq<Rgb>
    decreases pixels.len(),
{
    if pixels.len() == 0 {
        Seq::empty()
    } else {
        let earlier = first_seen(pixels.drop_last());
        if earlier.contains(pixels.last()) {
            earlier
        } else {
            earlier.push(pixels.last())
        }
    }
}

/// A colour as one number: red, green and blue as three base-256 digits.
pub open spec fn pack_rgb(color: Rgb) -> u32 {
    (color.0 * 65536 + color.1 * 256 + color.2) as u32
}

/// Scanning one pixel more adds its colour unless it was seen before.
pub proof fn lemma_first_seen_step(pixels: Seq<Rgb>, n: int)
    requires
        0 <= n < pixels.len(),
    ensures
        first_seen(pixels.take(n + 1)) == (if first_seen(pixels.take(n)).contains(pixels[n]) {
            first_seen(pixels.take(n))
        } else {
            first_seen(pixels.take(n)).push(pixels[n])
        }),
{
    assert(pixels.take(n + 1).drop_last() =~= pixels.take(n));
}

/// No colour is listed twice.
pub proof fn lemma_first_seen_distinct(pixels: Seq<Rgb>)
    ensures
        first_seen(pixels).no_duplicates(),
    decreases pixels.len(),
{
    if pixels.len() > 0 {
        lemma_first_seen_distinct(pixels.drop_last());
    }
}

/// There are at most 2^24 distinct colours.
pub proof fn lemma_distinct_colors_bound(colors: Seq<Rgb>)
    requires
        colors.no_duplicates(),
    ensures
        colors.len() <= 0x100_0000,
{
    let keys = Seq::new(colors.len(), |i: int| pack_rgb(colors[i]) as int);
    assert(keys.no_duplicates());
    keys.unique_seq_to_set();
    vstd::set_lib::lemma_int_range(0, 0x100_0000);
    assert(keys.to_set().subset_of(set_int_range(0, 0x100_0000))) by {
        assert forall|k: int| keys.to_set().contains(k) implies set_int_range(0, 0x100_0000).contains(
            k,
        ) by {
            let i = choose|i: int| 0 <= i < keys.len() && keys[i] == k;
            assert(k == pack_rgb(colors[i]));
        }
    }
    vstd::set_lib::lemma_len_subset(keys.to_set(), set_int_range(0, 0x100_0000));
}

} // verus!
