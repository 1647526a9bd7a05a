//! Timezone quadtree compressor: quantized polygon geometry, shared-arc
//! topology, a cost-driven quadtree, and its serialized forms.
pub mod geom;
pub mod segment;
pub mod winding;
pub mod lookup;
pub mod quant;
pub mod arcs;
pub mod borders;
pub mod topology;
pub mod artifact;
pub mod cost;
pub mod heap;
pub mod subdivide;
pub mod annotate;
pub mod resolve;
pub mod domain;
pub mod rebuild;
pub mod polycodec;
pub mod packing;
pub mod serialize;
pub mod pipeline;
