//! Derives a class-inheritance graph from source text with lexical
//! heuristics: tokens, declaration headers, `(child, parent)` edges, an
//! optional restriction to one class's descendants, and a graph of the result.
pub mod config;
pub mod extract;
pub mod filter;
pub mod graph;
pub mod naming;
pub mod pipeline;
pub mod scan;
pub mod text;

pub use config::{extract_file_contents, CommandLineConfig, ReadModule};
pub use extract::{
    build_edges, get_child_classes, get_parent_class, is_sinlge_inheritance_child,
    separate_child_and_parent_class, Edge,
};
pub use filter::filter_edges_by_class;
pub use graph::{build_class_graph, ClassGraph};
pub use naming::is_pascal_case;
pub use pipeline::{merge_file_edges, parse_file};
pub use scan::get_pascal_case;
pub use text::tokenize;
