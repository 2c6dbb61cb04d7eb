use vstd::prelude::*;

verus! {

/// The pixel size of a rendered image. Both sides are at least one pixel.
pub struct CameraDimensions {
    pub width: u32,
    pub height: u32,
}

impl CameraDimensions {
    /// Both sides are non-zero.
    pub open spec fn wf(&self) -> bool {
        self.width > 0 && self.height > 0
    }

    /// A square image with sides of `len` pixels.
    pub fn square(len: u32) -> (r: Self)
        requires
            len > 0,
        ensures
            r.width == len,
            r.height == len,
            r.wf(),
    {
        Self { width: len, height: len }
    }

    /// 800 by 450: 800 pixels wide at a 16:9 aspect ratio.
    pub fn medium() -> (r: Self)
        ensures
            r.width == 800,
            r.height == 450,
            r.wf(),
    {
        Self { width: 800, height: 450 }
    }

    /// 1200 by 675: 1200 pixels wide at a 16:9 aspect ratio.
    pub fn large() -> (r: Self)
        ensures
            r.width == 1200,
            r.height == 675,
            r.wf(),
    {
        Self { width: 1200, height: 675 }
    }

    /// Full HD, 1920 by 1080.
    pub fn fhd() -> (r: Self)
        ensures
            r.width == 1920,
            r.height == 1080,
            r.wf(),
    {
        Self { width: 1920, height: 1080 }
    }
}

impl Default for CameraDimensions {
    fn default() -> (r: Self)
        ensures
            r.width == 800,
            r.height == 450,
            r.wf(),
    {
        Self::medium()
    }
}

} // verus!
