use vstd::prelude::*;

verus! {

/// A decoded image's raw channel buffer: a flat, row-major sequence of
/// channel bytes, four per pixel in R, G, B, A order.  Pixel (x, y) sits
/// at row-major index `y * width + x`; its four channel bytes occupy the
/// four consecutive buffer offsets starting at four times that index.
pub struct PixelChannelStore {
    pub width: u32,
    pub height: u32,
    pub data: Vec<u8>,
}

impl View for PixelChannelStore {
    type V = Seq<u8>;

    open spec fn view(&self) -> Seq<u8> {
        self.data@
    }
}

impl PixelChannelStore {
    /// The buffer holds exactly one byte per channel of every pixel.
    pub open spec fn wf(self) -> bool {
        self.data@.len() == self.width as int * self.height as int * 4
    }

    /// Wraps a raw RGBA channel buffer, rejecting one whose length does
    /// not match the dimensions.
    pub fn new(width: u32, height: u32, data: Vec<u8>) -> (r: Option<PixelChannelStore>)
        ensures
            match r {
                Some(s) => s.wf() && s.width == width && s.height == height && s@ == data@,
                None => data@.len() != width as int * height as int * 4,
            },
    {
        let w128 = width as u128;
        let h128 = height as u128;
        proof {
            assert(w128 * h128 * 4 <= u128::MAX) by (nonlinear_arith)
                requires
                    w128 < 0x1_0000_0000,
                    h128 < 0x1_0000_0000,
            ;
        }
        if data.len() as u128 == w128 * h128 * 4 {
            Some(PixelChannelStore { width, height, data })
        } else {
            None
        }
    }

    /// The image's capacity in bits: one least-significant bit per
    /// channel byte.
    pub fn capacity(&self) -> (c: usize)
        ensures
            c == self@.len(),
    {
        self.data.len()
    }

    /// Reads channel byte `i`.
    pub fn read_channel_byte(&self, i: usize) -> (b: u8)
        requires
            i < self@.len(),
        ensures
            b == self@[i as int],
    {
        self.data[i]
    }

    /// Overwrites channel byte `i`.
    pub fn write_channel_byte(&mut self, i: usize, value: u8)
        requires
            i < old(self)@.len(),
        ensures
            final(self)@ == old(self)@.update(i as int, value),
            final(self).width == old(self).width,
            final(self).height == old(self).height,
    {
        self.data.set(i, value);
    }
}

} // verus!
