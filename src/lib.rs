//! A many-to-many association: a set of `(left, right)` pairs, with lookups in
//! both directions.
use vstd::prelude::*;

pub mod order;
pub mod pairs;
pub mod laws;
pub mod m2m;
pub mod small;

pub use m2m::M2M;
pub use small::SmallM2M;

verus! {

} // verus!
