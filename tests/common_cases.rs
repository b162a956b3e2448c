use officex_canisters_backend::{
    CallContext, FetchFilesAtFolderPathConfig, FsError, State, StorageLocationEnum,
};

fn ctx() -> CallContext {
    CallContext {
        canister_id: "bkyz2-fmaaa-aaaaa-qaaaq-cai".to_string(),
        caller: "owner-principal".to_string(),
        time_ns: 1_700_000_000_123_456_789,
    }
}

fn fresh() -> State {
    State::new("owner-principal".to_string(), "Anonymous".to_string())
}

fn folder_id(s: &State, path: &str) -> String {
    s.get_folder_by_path(&path.to_string()).expect("folder").id.clone()
}

#[test]
fn test_ping() {
    assert_eq!(State::ping(), "pong");
}

#[test]
fn test_create_folder() {
    let mut s = fresh();
    let f = s
        .create_folder(&ctx(), &"BrowserCache::test_folder1".to_string(), StorageLocationEnum::BrowserCache)
        .expect("created");
    assert_eq!(f.full_folder_path, "BrowserCache::test_folder1/");
}

#[test]
fn test_create_folders_with_subfolders() {
    let mut s = fresh();
    let folders = vec![
        "BrowserCache::folder1",
        "BrowserCache::folder1/subfolder1",
        "BrowserCache::folder1/subfolder2",
        "BrowserCache::folder2",
        "BrowserCache::folder2/subfolder1/subsubfolder1",
    ];
    for folder_path in folders {
        let f = s
            .create_folder(&ctx(), &folder_path.to_string(), StorageLocationEnum::BrowserCache)
            .expect("created");
        assert_eq!(f.full_folder_path, format!("{}/", folder_path));
    }
}

#[test]
fn test_upload_files() {
    let mut s = fresh();
    s.create_folder(&ctx(), &"BrowserCache::test_folder/subfolder".to_string(), StorageLocationEnum::BrowserCache)
        .expect("created");
    let files = vec!["BrowserCache::test_folder/file1.txt", "BrowserCache::test_folder/subfolder/file2.txt"];
    for file_path in files {
        let id = s
            .upsert_file_to_hash_tables(&ctx(), &file_path.to_string(), StorageLocationEnum::BrowserCache)
            .expect("uploaded");
        assert!(!id.is_empty());
        assert!(s.get_file_by_path(&file_path.to_string()).is_some(), "File not found: {}", file_path);
    }
}

#[test]
fn test_recursive_delete() {
    let mut s = fresh();
    let folders = vec![
        "BrowserCache::test_folder2/",
        "BrowserCache::test_folder2/subfolder1/",
        "BrowserCache::test_folder2/subfolder1/subsubfolder1/",
        "BrowserCache::test_folder2/subfolder2/",
    ];
    let mut created_folders = Vec::new();
    let mut created_files = Vec::new();
    for folder_path in &folders {
        let f = s
            .create_folder(&ctx(), &folder_path.to_string(), StorageLocationEnum::BrowserCache)
            .expect("created");
        assert_eq!(f.full_folder_path, format!("{}", folder_path));
        created_folders.push(f.full_folder_path.clone());
    }
    let files = vec![
        "BrowserCache::test_folder2/file1.txt",
        "BrowserCache::test_folder2/subfolder1/file2.txt",
        "BrowserCache::test_folder2/subfolder1/subsubfolder1/file3.txt",
        "BrowserCache::test_folder2/subfolder2/file4.txt",
    ];
    for file_path in &files {
        s.upsert_file_to_hash_tables(&ctx(), &file_path.to_string(), StorageLocationEnum::BrowserCache)
            .expect("uploaded");
        created_files.push(file_path.to_string());
    }
    let root_folder_id = folder_id(&s, "BrowserCache::test_folder2/");
    s.delete_folder(&ctx(), &root_folder_id).expect("deleted");
    let snapshot = s.snapshot_hashtables();
    for folder_path in &created_folders {
        assert!(
            !snapshot.full_folder_path_to_uuid.iter().any(|e| &e.path == folder_path),
            "Folder path '{}' was not deleted",
            folder_path
        );
    }
    for file_path in &created_files {
        assert!(
            !snapshot.full_file_path_to_uuid.iter().any(|e| &e.path == file_path),
            "File path '{}' was not deleted",
            file_path
        );
    }
}

#[test]
fn test_rename_folder_with_subfolders_and_files() {
    let mut s = fresh();
    let folders = vec![
        "BrowserCache::old_folder/",
        "BrowserCache::old_folder/subfolder1/",
        "BrowserCache::old_folder/subfolder2/sub3/",
    ];
    for folder_path in folders {
        let f = s
            .create_folder(&ctx(), &folder_path.to_string(), StorageLocationEnum::BrowserCache)
            .expect("created");
        assert_eq!(f.full_folder_path, format!("{}", folder_path));
    }
    let files = vec![
        "BrowserCache::old_folder/file1.txt",
        "BrowserCache::old_folder/subfolder1/file2.txt",
        "BrowserCache::old_folder/subfolder2/sub3/file3.txt",
    ];
    for file_path in files {
        s.upsert_file_to_hash_tables(&ctx(), &file_path.to_string(), StorageLocationEnum::BrowserCache)
            .expect("uploaded");
    }
    let root_folder_id = folder_id(&s, "BrowserCache::old_folder/");
    s.rename_folder(&ctx(), &root_folder_id, &"new_folder".to_string()).expect("renamed");
    let snapshot = s.snapshot_hashtables();
    let has_folder = |p: &str| snapshot.full_folder_path_to_uuid.iter().any(|e| e.path == p);
    let has_file = |p: &str| snapshot.full_file_path_to_uuid.iter().any(|e| e.path == p);
    assert!(has_folder("BrowserCache::new_folder/"));
    assert!(has_folder("BrowserCache::new_folder/subfolder1/"));
    assert!(has_folder("BrowserCache::new_folder/subfolder2/"));
    assert!(!has_folder("BrowserCache::old_folder/"));
    assert!(has_file("BrowserCache::new_folder/file1.txt"));
    assert!(has_file("BrowserCache::new_folder/subfolder1/file2.txt"));
    assert!(has_file("BrowserCache::new_folder/subfolder2/sub3/file3.txt"));
    assert!(!has_file("BrowserCache::old_folder/file1.txt"));
}

#[test]
fn create_folder_makes_missing_ancestors() {
    let mut s = fresh();
    let f = s
        .create_folder(&ctx(), &"BrowserCache::a/b".to_string(), StorageLocationEnum::BrowserCache)
        .expect("created");
    assert_eq!(f.full_folder_path, "BrowserCache::a/b/");
    let root = s.get_folder_by_path(&"BrowserCache::".to_string()).expect("root");
    assert_eq!(root.original_folder_name, "");
    assert!(root.parent_folder_uuid.is_none());
    let a = s.get_folder_by_path(&"BrowserCache::a/".to_string()).expect("a");
    assert_eq!(a.original_folder_name, "a");
    assert_eq!(a.parent_folder_uuid.as_ref(), Some(&root.id));
    assert!(root.subfolder_uuids.contains(&a.id));
    assert!(a.subfolder_uuids.contains(&f.id));
    assert_eq!(f.original_folder_name, "b");
    assert_eq!(folder_id(&s, "BrowserCache::a/b/"), f.id);
    let snapshot = s.snapshot_hashtables();
    assert_eq!(snapshot.folder_uuid_to_metadata.len(), 3);
}

#[test]
fn created_folder_is_found_under_same_id() {
    let mut s = fresh();
    for p in ["BrowserCache::x", "BrowserCache::x/y", "BrowserCache::z//w/"] {
        let f = s.create_folder(&ctx(), &p.to_string(), StorageLocationEnum::BrowserCache).expect("created");
        let found = s.get_folder_by_path(&f.full_folder_path).expect("found");
        assert_eq!(found.id, f.id);
        assert_eq!(s.get_folder_by_id(&f.id).expect("by id").full_folder_path, f.full_folder_path);
    }
    assert!(s.get_folder_by_path(&"BrowserCache::z/w/".to_string()).is_some());
}

#[test]
fn root_path_gives_root_folder_every_time() {
    let mut s = fresh();
    let r1 = s.create_folder(&ctx(), &"BrowserCache::".to_string(), StorageLocationEnum::BrowserCache).expect("root");
    let r2 = s.create_folder(&ctx(), &"BrowserCache::/".to_string(), StorageLocationEnum::BrowserCache).expect("root");
    assert_eq!(r1.id, r2.id);
    assert_eq!(r1.full_folder_path, "BrowserCache::");
}

#[test]
fn create_existing_folder_is_refused() {
    let mut s = fresh();
    s.create_folder(&ctx(), &"BrowserCache::dup".to_string(), StorageLocationEnum::BrowserCache).expect("created");
    let again = s.create_folder(&ctx(), &"BrowserCache::dup/".to_string(), StorageLocationEnum::BrowserCache);
    assert_eq!(again.err(), Some(FsError::FolderAlreadyExists));
}

#[test]
fn create_folder_path_errors() {
    let mut s = fresh();
    let no_sep = s.create_folder(&ctx(), &"BrowserCache".to_string(), StorageLocationEnum::BrowserCache);
    assert_eq!(no_sep.err(), Some(FsError::InvalidPath));
    let other_ns = s.create_folder(&ctx(), &"HardDrive::a".to_string(), StorageLocationEnum::BrowserCache);
    assert_eq!(other_ns.err(), Some(FsError::InvalidPath));
    let ok = s.create_folder(&ctx(), &"HardDrive::a".to_string(), StorageLocationEnum::HardDrive).expect("created");
    assert_eq!(ok.full_folder_path, "HardDrive::a/");
}

#[test]
fn other_caller_is_unauthorized() {
    let mut s = fresh();
    let stranger = CallContext { canister_id: "c".to_string(), caller: "someone-else".to_string(), time_ns: 1 };
    let r = s.create_folder(&stranger, &"BrowserCache::a".to_string(), StorageLocationEnum::BrowserCache);
    assert_eq!(r.err(), Some(FsError::Unauthorized));
    let r = s.upsert_file_to_hash_tables(&stranger, &"BrowserCache::a.txt".to_string(), StorageLocationEnum::BrowserCache);
    assert_eq!(r.err(), Some(FsError::Unauthorized));
    assert!(s.get_folder_by_path(&"BrowserCache::".to_string()).is_none());
}

#[test]
fn fetch_children_first_page_of_two_subfolders() {
    let mut s = fresh();
    s.create_folder(&ctx(), &"BrowserCache::p/c1".to_string(), StorageLocationEnum::BrowserCache).expect("c1");
    s.create_folder(&ctx(), &"BrowserCache::p/c2".to_string(), StorageLocationEnum::BrowserCache).expect("c2");
    let page = s.fetch_files_at_folder_path(&FetchFilesAtFolderPathConfig {
        full_folder_path: "BrowserCache::p/".to_string(),
        limit: 1,
        after: 0,
    });
    assert_eq!(page.folders.len(), 1);
    assert_eq!(page.files.len(), 0);
    assert_eq!(page.total, 1);
    assert!(page.has_more);
    assert_eq!(page.folders[0].full_folder_path, "BrowserCache::p/c1/");
}

#[test]
fn fetch_children_spans_folders_then_files() {
    let mut s = fresh();
    s.create_folder(&ctx(), &"BrowserCache::q/c1".to_string(), StorageLocationEnum::BrowserCache).expect("c1");
    s.upsert_file_to_hash_tables(&ctx(), &"BrowserCache::q/f1.txt".to_string(), StorageLocationEnum::BrowserCache)
        .expect("f1");
    s.upsert_file_to_hash_tables(&ctx(), &"BrowserCache::q/f2.txt".to_string(), StorageLocationEnum::BrowserCache)
        .expect("f2");
    let cfg = |limit: u32, after: u32| FetchFilesAtFolderPathConfig {
        full_folder_path: "BrowserCache::q/".to_string(),
        limit,
        after,
    };
    let page = s.fetch_files_at_folder_path(&cfg(2, 0));
    assert_eq!((page.folders.len(), page.files.len(), page.total, page.has_more), (1, 1, 2, true));
    assert_eq!(page.files[0].original_file_name, "f1.txt");
    let page = s.fetch_files_at_folder_path(&cfg(5, 1));
    assert_eq!((page.folders.len(), page.files.len(), page.total, page.has_more), (0, 2, 2, false));
    let page = s.fetch_files_at_folder_path(&cfg(5, 9));
    assert_eq!((page.folders.len(), page.files.len(), page.total, page.has_more), (0, 0, 0, false));
    let page = s.fetch_files_at_folder_path(&FetchFilesAtFolderPathConfig {
        full_folder_path: "BrowserCache::nowhere/".to_string(),
        limit: 5,
        after: 0,
    });
    assert_eq!((page.folders.len(), page.files.len(), page.total, page.has_more), (0, 0, 0, false));
}

#[test]
fn ensuring_an_existing_structure_changes_nothing() {
    let mut s = fresh();
    let f = s
        .create_folder(&ctx(), &"BrowserCache::a/b".to_string(), StorageLocationEnum::BrowserCache)
        .expect("created");
    let before = s.snapshot_hashtables();
    let id = s
        .ensure_folder_structure(&ctx(), &"BrowserCache::a/b".to_string(), StorageLocationEnum::BrowserCache)
        .expect("ensured");
    assert_eq!(id, f.id);
    let after = s.snapshot_hashtables();
    assert_eq!(before.folder_uuid_to_metadata.len(), after.folder_uuid_to_metadata.len());
    assert_eq!(before.full_folder_path_to_uuid.len(), after.full_folder_path_to_uuid.len());
    let root = s.get_folder_by_path(&"BrowserCache::".to_string()).expect("root");
    let a = s.get_folder_by_path(&"BrowserCache::a/".to_string()).expect("a");
    assert_eq!(root.subfolder_uuids, vec![a.id.clone()]);
    assert_eq!(a.subfolder_uuids, vec![f.id.clone()]);
    assert!(f.subfolder_uuids.is_empty() && f.file_uuids.is_empty() && f.tags.is_empty());
    assert_eq!(f.owner, "owner-principal");
    assert!(!f.deleted);
}
