//! A path-addressed virtual file system over two stores.
//!
//! A store ([`file_system::node::NodeFileSystem`]) keeps its entries below one
//! directory of a host ([`file_system::host::Host`]); the facade
//! ([`file_system::WasmFileSystem`]) sends each path to one of two stores and
//! collects the changes for an observer ([`vscode`]). What a host holds is a
//! tree of entries ([`file_system::tree::Tree`]), and every call says what it
//! does to that tree. [`file_system::memory::MemoryHost`] is a host in memory;
//! [`file_system::laws`] holds what is true of every store.

pub mod error;
pub mod file_system;
pub mod js_vec;
pub mod path;
pub mod vscode;
