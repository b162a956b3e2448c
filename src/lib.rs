use vstd::prelude::*;

pub mod ids;
pub mod laws;
pub mod path;
pub mod prefix;
pub mod registry;
pub mod store;
pub mod table;
pub mod types;
pub mod username;

pub use path::StorageLocationEnum;
pub use registry::{DriveRegistry, DriveRequestError};
pub use store::State;
pub use types::{
    CallContext, FetchFilesAtFolderPathConfig, FetchFilesResult, FileMetadata, FolderMetadata,
    FsError, PathEntry, StateSnapshot,
};

verus! {

} // verus!
