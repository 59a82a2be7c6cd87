//! Region adjacency from shared boundary vertices.
//!
//! Regions are read as identifier plus boundary vertices; vertices are
//! quantized to exact integer keys, identifiers are interned to dense
//! integers, and two regions are adjacent when they share a quantized vertex.
pub mod census;
pub mod error;
pub mod feature_id;
pub mod geometry_interner;
pub mod graph;
pub mod id;
pub mod index;
pub mod interner;
pub mod pairs;
pub mod point;
pub mod repl;
pub mod vfs;

pub use census::{GeographicalHeader, Table};
pub use error::Error;
pub use feature_id::{feature_id, is_geoid_like, FeatureProperties, Property};
pub use geometry_interner::{Feature, GeometryInterner};
pub use graph::AdjacencyGraph;
pub use id::{GeoId, Interned, Raw};
pub use interner::{GeoIdInterner, InternedGeoId};
pub use point::{GeoScalar, GeometryPoint};
pub use repl::{Repl, ReplCommand};
pub use vfs::{Vfs, VfsDirectory, VfsFile, VfsNode};
