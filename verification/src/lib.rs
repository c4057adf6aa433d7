//! Shape arena that slices N-dimensional space into pieces along oriented
//! manifolds, together with the commands that drive a puzzle built from the
//! pieces.

pub mod arena;
pub mod assoc;
pub mod colors;
pub mod commands;
pub mod construct;
pub mod contain;
pub mod cut;
pub mod gc;
pub mod intervals;
pub mod laws;
pub mod manifold;
pub mod orient;
pub mod puzzle;
pub mod record;
pub mod shape;
pub mod sign;
pub mod slice;
pub mod split;
pub mod steps;
pub mod store;
pub mod text;
pub mod view;
