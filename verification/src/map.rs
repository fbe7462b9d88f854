//! The map's vertex type.

use vstd::prelude::*;

verus! {

/// Marker type for the vertices of a simple city map. It holds no data; the
/// generator that lays out the map's walls works in floating point and lives
/// in the game around this library.
#[derive(Clone, Copy, Debug, Default)]
pub struct SimpleCityVertex;

} // verus!
