//! Core of an on-demand image-derivative cache: a descriptor names a source
//! image plus a transform; a reversible codec turns it into a query string and
//! a filesystem-safe token; a resolver maps it to a content-addressed cache
//! path; and the optimizer service decides when a derivative must be generated.

pub mod b64;
pub mod codec;
pub mod descriptor;
pub mod optimizer;
pub mod paths;
pub mod query;
pub mod svg;

pub use descriptor::{Blur, CachedImage, CachedImageOption, Resize};
pub use optimizer::{CreateImageError, ImageOptimizer};
pub use paths::path_from_segments;
pub use query::DecodeError;
pub use svg::svg_for_blur;
