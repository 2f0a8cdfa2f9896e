// Escape-time raster engine: the verified logic of partitioning a raster's rows into
// work units, deciding each orbit's divergence, coloring results, and merging the
// units' pixel results into a complete raster with all-or-nothing failure.
use vstd::prelude::*;

pub mod aggregate;
pub mod color;
pub mod evaluator;
pub mod partition;
pub mod raster;
pub mod worker;

verus! {

} // verus!
