use vstd::prelude::*;

verus! {

/// How many rays are averaged per pixel and how many bounces a ray may take.
pub struct RenderQuality {
    pub samples_per_pixel: u32,
    pub max_depth: u16,
}

impl RenderQuality {
    /// 50 samples per pixel, at most 10 bounces.
    pub fn low() -> (r: Self)
        ensures
            r.samples_per_pixel == 50,
            r.max_depth == 10,
    {
        RenderQuality { samples_per_pixel: 50, max_depth: 10 }
    }

    /// 100 samples per pixel, at most 20 bounces.
    pub fn medium() -> (r: Self)
        ensures
            r.samples_per_pixel == 100,
            r.max_depth == 20,
    {
        RenderQuality { samples_per_pixel: 100, max_depth: 20 }
    }

    /// 500 samples per pixel, at most 50 bounces.
    pub fn high() -> (r: Self)
        ensures
            r.samples_per_pixel == 500,
            r.max_depth == 50,
    {
        RenderQuality { samples_per_pixel: 500, max_depth: 50 }
    }
}

impl Default for RenderQuality {
    fn default() -> (r: Self)
        ensures
            r.samples_per_pixel == 100,
            r.max_depth == 20,
    {
        Self::medium()
    }
}

} // verus!
