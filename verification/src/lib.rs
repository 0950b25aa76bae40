//! Exact planar geometry for judging how compact a closed region is:
//! convex hulls, polygon areas and minimum-area bounding rectangles, and the
//! rule that tells a compact district from an irregular one.
//!
//! Points have integer coordinates, so every result is exact: areas come in
//! half units, distances and ratios as fractions. Coordinates measured in
//! fractions of a unit are put on a grid first, fine enough for the purpose.

pub mod point;
pub mod wide;
pub mod plane;
pub mod quickhull;
pub mod hull_laws;
pub mod area;
pub mod area_laws;
pub mod aspect;
pub mod rectangle_laws;
pub mod queue;
pub mod analyze;
