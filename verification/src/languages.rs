//! The language-specific parts of import resolution that need no syntax tree.
pub mod c_family;
pub mod c_include;
pub mod c_walk;
pub mod go;
pub mod go_walk;
pub mod rust;
pub mod rust_tree;
pub mod rust_walk;
pub mod python;
pub mod python_walk;
pub mod java;
pub mod java_walk;
pub mod csharp;
pub mod csharp_walk;
