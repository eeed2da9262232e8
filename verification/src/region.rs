use vstd::prelude::*;

verus! {

/// A rectangular block of image pixels, given as half-open ranges
/// `x.0 .. x.1` (columns) and `y.0 .. y.1` (rows).
#[derive(Clone, Copy, PartialEq, Eq, Debug)]
pub struct ImageRegion {
    pub x: (u32, u32),
    pub y: (u32, u32),
}

impl ImageRegion {
    /// The region that starts at column `x_begin`, row `y_begin` and spans
    /// `x_size` columns and `y_size` rows.
    pub fn new(x_begin: u32, y_begin: u32, x_size: u32, y_size: u32) -> (r: Self)
        requires
            x_begin + x_size <= u32::MAX,
            y_begin + y_size <= u32::MAX,
        ensures
            r.x == (x_begin, (x_begin + x_size) as u32),
            r.y == (y_begin, (y_begin + y_size) as u32),
    {
        ImageRegion { x: (x_begin, x_begin + x_size), y: (y_begin, y_begin + y_size) }
    }

    /// The region that covers a whole image of the given size.
    pub fn whole_image(image_width: u32, image_height: u32) -> (r: Self)
        ensures
            r.x == (0u32, image_width),
            r.y == (0u32, image_height),
    {
        Self::new(0, 0, image_width, image_height)
    }
    /// The pixels of the region in the order they are rendered: row by row from
    /// the top, each row from left to right.
    pub fn pixel_coords(&self) -> (r: Vec<(u32, u32)>)
        requires
            self.x.0 <= self.x.1,
            self.y.0 <= self.y.1,
            (self.x.1 - self.x.0) * (self.y.1 - self.y.0) <= u32::MAX,
        ensures
            r@.len() == (self.x.1 - self.x.0) * (self.y.1 - self.y.0),
            forall|i: int|
                0 <= i < r@.len() ==> #[trigger] r@[i] == ((self.x.0 + i % (self.x.1 - self.x.0)) as u32, (
                self.y.0 + i / (self.x.1 - self.x.0)) as u32),
    {
        let width = self.x.1 - self.x.0;
        let height = self.y.1 - self.y.0;
        let pixel_count = (width * height) as usize;
        let mut coords: Vec<(u32, u32)> = Vec::with_capacity(pixel_count);
        let mut y = self.y.0;
        while y < self.y.1
            invariant
                self.y.0 <= y <= self.y.1,
                self.x.0 <= self.x.1,
                width == self.x.1 - self.x.0,
                coords@.len() == (y - self.y.0) * width,
                forall|i: int|
                    0 <= i < coords@.len() ==> #[trigger] coords@[i] == ((self.x.0 + i % (width as int)) as u32, (
                    self.y.0 + i / (width as int)) as u32),
            decreases self.y.1 - y,
        {
            let mut x = self.x.0;
            let ghost row_start = coords@.len() as int;
            while x < self.x.1
                invariant
                    self.x.0 <= x <= self.x.1,
                    self.y.0 <= y < self.y.1,
                    width == self.x.1 - self.x.0,
                    row_start == (y - self.y.0) * width,
                    coords@.len() == row_start + (x - self.x.0),
                    forall|i: int|
                        0 <= i < coords@.len() ==> #[trigger] coords@[i] == ((self.x.0 + i % (width as int)) as u32, (
                        self.y.0 + i / (width as int)) as u32),
                decreases self.x.1 - x,
            {
                proof {
                    let i = coords@.len() as int;
                    let w = width as int;
                    let q = (y - self.y.0) as int;
                    let r = (x - self.x.0) as int;
                    assert(i == q * w + r);
                    vstd::arithmetic::div_mod::lemma_fundamental_div_mod_converse(i, w, q, r);
                }
                coords.push((x, y));
                x += 1;
            }
            proof {
                assert(coords@.len() == (y + 1 - self.y.0) * width) by (nonlinear_arith)
                    requires
                        coords@.len() == (y - self.y.0) * width + (self.x.1 - self.x.0),
                        width == self.x.1 - self.x.0,
                ;
            }
            y += 1;
        }
        proof {
            assert(coords@.len() == width * height) by (nonlinear_arith)
                requires
                    coords@.len() == (self.y.1 - self.y.0) * width,
                    height == self.y.1 - self.y.0,
            ;
        }
        coords
    }
}

} // verus!
