//! The descriptor data model: an immutable value naming "this source image,
//! transformed this way", used as the cache key.

use vstd::prelude::*;

verus! {

/// Target size and quality of the final raster derivative.
#[derive(Clone, Copy, Debug, PartialEq, Eq, Structural, Hash)]
pub struct Resize {
    pub width: u32,
    pub height: u32,
    /// WebP quality, 0 (lowest) to 100 (highest).
    pub quality: u8,
}

/// Parameters of the tiny blurred SVG placeholder. `width`/`height` govern the
/// raster sampled for blurring; `svg_width`/`svg_height` only the declared SVG
/// viewport; `sigma` the Gaussian blur applied at render time.
#[derive(Clone, Copy, Debug, PartialEq, Eq, Structural, Hash)]
pub struct Blur {
    pub width: u32,
    pub height: u32,
    pub svg_width: u32,
    pub svg_height: u32,
    pub sigma: u8,
}

/// The closed transform variant: a final resize or a blur placeholder.
#[derive(Clone, Copy, Debug, PartialEq, Eq, Structural, Hash)]
pub enum CachedImageOption {
    Resize(Resize),
    Blur(Blur),
}

/// A source image together with one transform; equality is structural over all
/// fields, and two descriptors are the same cache entry iff every field matches.
#[derive(Clone, Debug, Eq, Hash)]
pub struct CachedImage {
    pub src: String,
    pub option: CachedImageOption,
}

impl PartialEq for CachedImage {
    fn eq(&self, other: &CachedImage) -> (r: bool) {
        self.src == other.src && self.option == other.option
    }
}

impl vstd::std_specs::cmp::PartialEqSpecImpl for CachedImage {
    open spec fn obeys_eq_spec() -> bool {
        true
    }

    open spec fn eq_spec(&self, other: &CachedImage) -> bool {
        self.src@ == other.src@ && self.option == other.option
    }
}

} // verus!
