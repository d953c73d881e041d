//! A virtual filesystem: path handles over pluggable storage backends.
//!
//! The crate defines a small capability contract ([`VFS`]) that any storage
//! backend can implement, an in-memory backend ([`MemoryFS`]) built on a tree
//! of named nodes, and a path-handle layer ([`VPath`]) that exposes the
//! primitive operations together with composite recursive operations
//! (`create_dir_all`, `remove_dir_all`) written purely against the contract.
//! Every operation carries a contract over a mathematical model of the tree:
//! a map from segment sequences to nodes.

pub mod errors;
pub mod io;
pub mod laws;
pub mod memory;
pub mod model;
pub mod paths;
pub mod vpath;

pub use errors::ResultExt;
pub use errors::VfsError;
pub use io::FileReader;
pub use io::FileWriter;
pub use memory::MemoryFS;
pub use model::FsNode;
pub use vpath::FileSystem;
pub use vpath::VFileType;
pub use vpath::VMetadata;
pub use vpath::VPath;
pub use vpath::VFS;
