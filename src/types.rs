use vstd::prelude::*;
use crate::path::StorageLocationEnum;

verus! {

/// A folder record.
pub struct FolderMetadata {
    pub id: String,
    pub original_folder_name: String,
    pub parent_folder_uuid: Option<String>,
    pub subfolder_uuids: Vec<String>,
    pub file_uuids: Vec<String>,
    pub full_folder_path: String,
    pub tags: Vec<String>,
    pub owner: String,
    pub created_date: u64,
    pub storage_location: StorageLocationEnum,
    pub last_changed_unix_ms: u64,
    pub deleted: bool,
}

/// A file record: one revision in a file's version chain.
pub struct FileMetadata {
    pub id: String,
    pub original_file_name: String,
    pub folder_uuid: String,
    pub file_version: u32,
    pub prior_version: Option<String>,
    pub next_version: Option<String>,
    pub extension: String,
    pub full_file_path: String,
    pub tags: Vec<String>,
    pub owner: String,
    pub created_date: u64,
    pub storage_location: StorageLocationEnum,
    pub file_size: u64,
    pub raw_url: String,
    pub last_changed_unix_ms: u64,
    pub deleted: bool,
}

/// Why a request was refused; the store is unchanged whenever one is returned.
#[derive(Clone, Copy, Debug, PartialEq, Eq, Structural)]
pub enum FsError {
    /// The path has no `::`, names another namespace, or is empty where a name is needed.
    InvalidPath,
    /// The target path is already bound to another id.
    PathCollision,
    /// No record has the given id.
    NotFound,
    /// The caller is not the owner of the store.
    Unauthorized,
    /// The record's path cannot be decomposed as the operation needs.
    StructureError,
    /// The folder to create already exists.
    FolderAlreadyExists,
    /// No fresh identifier could be produced.
    IdUnavailable,
    /// The file's version number cannot grow any further.
    VersionLimit,
    /// The user name is not a run of letters and numbers once sanitized.
    InvalidUsername,
}

/// What the host supplies with each request.
pub struct CallContext {
    /// Identity of the executing store instance.
    pub canister_id: String,
    /// Identity of the caller.
    pub caller: String,
    /// Current time in nanoseconds.
    pub time_ns: u64,
}

impl CallContext {
    pub open spec fn millis(&self) -> u64 {
        (self.time_ns / 1_000_000) as u64
    }
}

/// One binding of a path index.
pub struct PathEntry {
    pub path: String,
    pub id: String,
}

/// A full dump of the store.
pub struct StateSnapshot {
    pub folder_uuid_to_metadata: Vec<FolderMetadata>,
    pub file_uuid_to_metadata: Vec<FileMetadata>,
    pub full_folder_path_to_uuid: Vec<PathEntry>,
    pub full_file_path_to_uuid: Vec<PathEntry>,
    pub owner: String,
    pub username: String,
}

/// A request for one page of a folder's children.
pub struct FetchFilesAtFolderPathConfig {
    pub full_folder_path: String,
    pub limit: u32,
    pub after: u32,
}

/// One page of a folder's children: subfolders first, then files.
pub struct FetchFilesResult {
    pub folders: Vec<FolderMetadata>,
    pub files: Vec<FileMetadata>,
    pub total: u32,
    pub has_more: bool,
}

impl FetchFilesResult {
    pub fn empty() -> (r: Self)
        ensures
            r.folders@.len() == 0,
            r.files@.len() == 0,
            r.total == 0,
            !r.has_more,
    {
        FetchFilesResult { folders: Vec::new(), files: Vec::new(), total: 0, has_more: false }
    }
}

pub fn copy_strings(v: &Vec<String>) -> (r: Vec<String>)
    ensures
        r@ == v@,
{
    let mut r: Vec<String> = Vec::new();
    let mut i: usize = 0;
    while i < v.len()
        invariant
            i <= v@.len(),
            r@ == v@.subrange(0, i as int),
        decreases v@.len() - i,
    {
        r.push(v[i].clone());
        proof {
            assert(r@ =~= v@.subrange(0, i + 1));
        }
        i = i + 1;
    }
    proof {
        assert(v@.subrange(0, v@.len() as int) =~= v@);
    }
    r
}

pub fn copy_opt(o: &Option<String>) -> (r: Option<String>)
    ensures
        r == *o,
{
    match o {
        Some(s) => Some(s.clone()),
        None => None,
    }
}

/// Two folder records hold the same values.
pub open spec fn same_folder(a: FolderMetadata, b: FolderMetadata) -> bool {
    &&& a.id == b.id
    &&& a.original_folder_name == b.original_folder_name
    &&& a.parent_folder_uuid == b.parent_folder_uuid
    &&& a.subfolder_uuids@ == b.subfolder_uuids@
    &&& a.file_uuids@ == b.file_uuids@
    &&& a.full_folder_path == b.full_folder_path
    &&& a.tags@ == b.tags@
    &&& a.owner == b.owner
    &&& a.created_date == b.created_date
    &&& a.storage_location == b.storage_location
    &&& a.last_changed_unix_ms == b.last_changed_unix_ms
    &&& a.deleted == b.deleted
}

/// Two file records hold the same values.
pub open spec fn same_file(a: FileMetadata, b: FileMetadata) -> bool {
    &&& a.id == b.id
    &&& a.original_file_name == b.original_file_name
    &&& a.folder_uuid == b.folder_uuid
    &&& a.file_version == b.file_version
    &&& a.prior_version == b.prior_version
    &&& a.next_version == b.next_version
    &&& a.extension == b.extension
    &&& a.full_file_path == b.full_file_path
    &&& a.tags@ == b.tags@
    &&& a.owner == b.owner
    &&& a.created_date == b.created_date
    &&& a.storage_location == b.storage_location
    &&& a.file_size == b.file_size
    &&& a.raw_url == b.raw_url
    &&& a.last_changed_unix_ms == b.last_changed_unix_ms
    &&& a.deleted == b.deleted
}

impl FolderMetadata {
    pub fn duplicate(&self) -> (r: Self)
        ensures
            same_folder(r, *self),
    {
        FolderMetadata {
            id: self.id.clone(),
            original_folder_name: self.original_folder_name.clone(),
            parent_folder_uuid: copy_opt(&self.parent_folder_uuid),
            subfolder_uuids: copy_strings(&self.subfolder_uuids),
            file_uuids: copy_strings(&self.file_uuids),
            full_folder_path: self.full_folder_path.clone(),
            tags: copy_strings(&self.tags),
            owner: self.owner.clone(),
            created_date: self.created_date,
            storage_location: self.storage_location,
            last_changed_unix_ms: self.last_changed_unix_ms,
            deleted: self.deleted,
        }
    }
}

impl FileMetadata {
    pub fn duplicate(&self) -> (r: Self)
        ensures
            same_file(r, *self),
    {
        FileMetadata {
            id: self.id.clone(),
            original_file_name: self.original_file_name.clone(),
            folder_uuid: self.folder_uuid.clone(),
            file_version: self.file_version,
            prior_version: copy_opt(&self.prior_version),
            next_version: copy_opt(&self.next_version),
            extension: self.extension.clone(),
            full_file_path: self.full_file_path.clone(),
            tags: copy_strings(&self.tags),
            owner: self.owner.clone(),
            created_date: self.created_date,
            storage_location: self.storage_location,
            file_size: self.file_size,
            raw_url: self.raw_url.clone(),
            last_changed_unix_ms: self.last_changed_unix_ms,
            deleted: self.deleted,
        }
    }
}

} // verus!
