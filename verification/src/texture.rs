use vstd::prelude::*;

verus! {

/// An image of `width * height` texels, stored row by row from the top.
#[derive(Clone)]
pub struct Texture<C> {
    pub data: Vec<C>,
    pub height: usize,
    pub width: usize,
}

impl<C: Copy> Texture<C> {
    pub fn from_raw(width: usize, height: usize, data: Vec<C>) -> (r: Self)
        ensures
            r.width == width,
            r.height == height,
            r.data@ == data@,
    {
        Texture { width, height, data }
    }

    /// The texel in column `x` of row `y`.
    pub fn texel(&self, x: usize, y: usize) -> (r: C)
        requires
            y * self.width + x < self.data@.len(),
        ensures
            r == self.data@[y * self.width + x],
    {
        let n = self.data.len();
        assert(y * self.width + x < n);
        self.data[y * self.width + x]
    }
}

} // verus!
