//! Foundational data structures and text helpers of the fruits engine: collections
//! with versioned handles, graphs and forests, JSON reading and writing, and the
//! source text of derived serializers.

pub mod bit_array;
pub mod graph;
pub mod morph_vec;
pub mod stack_vec;
pub mod types_registry;
pub mod versioned;
pub mod index_version_collection;
pub mod shader_standard;
pub mod swizzling;
pub mod assume_send;
pub mod json_indent;
pub mod ui;
pub mod reflection;
pub mod tree;
pub mod thread_pool;
pub mod close_int_map;
pub mod render_graph;
pub mod serialization_examples;
pub mod hierarchy;
pub mod json_parse;
pub mod text;
pub mod derive_text;
pub mod json_write;
pub mod decoding;
pub mod texture;
pub mod json_object;
pub mod json_roundtrip;
pub mod serialized_json;
