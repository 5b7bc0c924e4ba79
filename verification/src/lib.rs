//! Soft-aggregation engine: change-data capture, verified storage
//! formats, joins, indexes and the integer side of the fold kernels.

pub mod anchored;
pub mod anonymity;
pub mod answers;
pub mod apply;
pub mod arith;
pub mod averages;
pub mod beam;
pub mod bits;
pub mod bounds;
pub mod bytes;
pub mod cascade;
pub mod crud;
pub mod digest;
pub mod distributed;
pub mod dp;
pub mod durable;
pub mod encrypted;
pub mod error;
pub mod fold;
pub mod footprint;
pub mod frames;
pub mod hnsw;
pub mod join;
pub mod keys;
pub mod linear;
pub mod maps;
pub mod mask;
pub mod matrix;
pub mod memory;
pub mod merkle;
pub mod monoid;
pub mod named;
pub mod navigation;
pub mod operator;
pub mod order;
pub mod parallel;
pub mod partition;
pub mod patterns;
pub mod pgoutput;
pub mod privacy;
pub mod products;
pub mod protocol;
pub mod provenance;
pub mod reals;
pub mod rows;
pub mod semiring;
pub mod sidecar;
pub mod sketch;
pub mod softavg;
pub mod source;
pub mod streaming;
pub mod sums;
pub mod table;
pub mod text;
pub mod totals;
pub mod tree;
pub mod types;
pub mod unlearning;
pub mod wire;
