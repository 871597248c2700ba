//! An in-memory filesystem tree engine: a tree model of files and
//! directories, a recursive scanner that filters a directory listing by file
//! extension, shared path handles, reconstruction of a minimal tree from a
//! set of leaf paths, and a copy planner with collision avoidance.

pub mod builder;
pub mod copy;
pub mod handle;
pub mod scan;
pub mod tree;

pub use builder::leaf_handles;
pub use builder::reverse_file_paths;
pub use copy::copy_plan;
pub use copy::copy_step_action;
pub use copy::AlreadyExists;
pub use copy::CopyAction;
pub use copy::CopyStep;
pub use handle::ReversePath;
pub use scan::name_has_matching_extension;
pub use scan::retrieve_files_recursively;
pub use scan::RawEntry;
pub use scan::RawListing;
pub use tree::Directory;
pub use tree::FileSystemItem;
pub use tree::TreeError;
