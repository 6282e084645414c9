// Seed points in the plane and the generalized Voronoi field that they induce.
//
// - `point`: seed points and nearest-point hit testing;
// - `store`: the ordered point collection and its edits;
// - `codec`: the text form of a point list, read back exactly;
// - `config`: the metric exponent and the kind of cell;
// - `field`: raster coordinates, offsets to the seeds, and the per-location
//   choice of the owning seed;
// - `interaction`: pointer events turned into edits of the store.

use vstd::prelude::*;

pub mod codec;
pub mod config;
pub mod field;
pub mod interaction;
pub mod point;
pub mod store;

verus! {

} // verus!
