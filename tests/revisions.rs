use officex_canisters_backend::path::sanitize_file_path;
use officex_canisters_backend::{CallContext, FileMetadata, FolderMetadata, FsError, State, StorageLocationEnum};

fn ctx_at(time_ns: u64) -> CallContext {
    CallContext {
        canister_id: "bkyz2-fmaaa-aaaaa-qaaaq-cai".to_string(),
        caller: "owner-principal".to_string(),
        time_ns,
    }
}

fn ctx() -> CallContext {
    ctx_at(1_700_000_000_123_456_789)
}

fn fresh() -> State {
    State::new("owner-principal".to_string(), "Anonymous".to_string())
}

fn upsert(s: &mut State, p: &str) -> String {
    s.upsert_file_to_hash_tables(&ctx(), &p.to_string(), StorageLocationEnum::BrowserCache).expect("upsert")
}

fn create(s: &mut State, p: &str) -> FolderMetadata {
    s.create_folder(&ctx(), &p.to_string(), StorageLocationEnum::BrowserCache).expect("create")
}

#[test]
fn second_upsert_supersedes_first() {
    let mut s = fresh();
    let first = upsert(&mut s, "BrowserCache::a/f.txt");
    let second = upsert(&mut s, "BrowserCache::a/f.txt");
    assert_ne!(first, second);
    let f2 = s.get_file_by_id(&second).expect("second");
    assert_eq!(f2.file_version, 2);
    assert_eq!(f2.prior_version.as_ref(), Some(&first));
    assert_eq!(f2.extension, "txt");
    assert_eq!(f2.original_file_name, "f.txt");
    let f1 = s.get_file_by_id(&first).expect("first kept");
    assert_eq!(f1.file_version, 1);
    assert_eq!(f1.next_version.as_ref(), Some(&second));
    let folder = s.get_folder_by_path(&"BrowserCache::a/".to_string()).expect("folder");
    assert!(!folder.file_uuids.contains(&first));
    assert!(folder.file_uuids.contains(&second));
    assert_eq!(s.get_file_by_path(&"BrowserCache::a/f.txt".to_string()).expect("head").id, second);
}

#[test]
fn repeated_upserts_form_one_chain() {
    let mut s = fresh();
    let k = 4;
    let mut ids = Vec::new();
    for _ in 0..k {
        ids.push(upsert(&mut s, "BrowserCache::docs/report.pdf"));
    }
    let mut seen = Vec::new();
    let mut cur = Some(s.get_file_by_path(&"BrowserCache::docs/report.pdf".to_string()).expect("head").id.clone());
    let mut last_version = u32::MAX;
    while let Some(id) = cur {
        let f = s.get_file_by_id(&id).expect("stored");
        assert!(f.file_version < last_version);
        last_version = f.file_version;
        assert!(!seen.contains(&id));
        seen.push(id.clone());
        cur = f.prior_version.clone();
    }
    assert_eq!(seen.len(), k);
    ids.reverse();
    assert_eq!(seen, ids);
    assert_eq!(last_version, 1);
}

#[test]
fn ids_of_distinct_calls_differ() {
    let mut s = fresh();
    let a = upsert(&mut s, "BrowserCache::one.txt");
    let b = upsert(&mut s, "BrowserCache::two.txt");
    let c = upsert(&mut s, "BrowserCache::one.txt");
    assert_ne!(a, b);
    assert_ne!(a, c);
    assert_ne!(b, c);
    assert_eq!(a.len(), 64);
    assert!(a.chars().all(|ch| ch.is_ascii_hexdigit() && !ch.is_ascii_uppercase()));
}

#[test]
fn extension_is_empty_without_dot() {
    let mut s = fresh();
    let id = upsert(&mut s, "BrowserCache::notes/README");
    let f = s.get_file_by_id(&id).expect("file");
    assert_eq!(f.extension, "");
    let id = upsert(&mut s, "BrowserCache::notes/archive.tar.gz");
    assert_eq!(s.get_file_by_id(&id).expect("file").extension, "gz");
}

#[test]
fn upsert_path_errors() {
    let mut s = fresh();
    let r = s.upsert_file_to_hash_tables(&ctx(), &"BrowserCache::".to_string(), StorageLocationEnum::BrowserCache);
    assert_eq!(r.err(), Some(FsError::InvalidPath));
    let r = s.upsert_file_to_hash_tables(&ctx(), &"file.txt".to_string(), StorageLocationEnum::BrowserCache);
    assert_eq!(r.err(), Some(FsError::InvalidPath));
    let r = s.upsert_file_to_hash_tables(&ctx(), &"Web3Storj::file.txt".to_string(), StorageLocationEnum::BrowserCache);
    assert_eq!(r.err(), Some(FsError::InvalidPath));
}

#[test]
fn sanitation_of_paths() {
    assert_eq!(sanitize_file_path("BrowserCache::a//b///c/"), Some("BrowserCache::a/b/c".to_string()));
    assert_eq!(sanitize_file_path("BrowserCache:://x:y::z"), Some("BrowserCache::x;y;;z".to_string()));
    assert_eq!(sanitize_file_path("no separator"), None);
    let mut s = fresh();
    let id = upsert(&mut s, "BrowserCache:://deep//file.txt/");
    assert_eq!(s.get_file_by_id(&id).expect("file").full_file_path, "BrowserCache::deep/file.txt");
}

#[test]
fn rename_moves_children_and_files() {
    let mut s = fresh();
    create(&mut s, "BrowserCache::old/sub");
    upsert(&mut s, "BrowserCache::old/x.txt");
    let sub_id = s.get_folder_by_path(&"BrowserCache::old/sub/".to_string()).expect("sub").id.clone();
    let old_id = s.get_folder_by_path(&"BrowserCache::old/".to_string()).expect("old").id.clone();
    s.rename_folder(&ctx(), &old_id, &"new".to_string()).expect("renamed");
    assert_eq!(s.get_folder_by_path(&"BrowserCache::new/".to_string()).expect("new").id, old_id);
    assert_eq!(s.get_folder_by_path(&"BrowserCache::new/sub/".to_string()).expect("new sub").id, sub_id);
    assert!(s.get_file_by_path(&"BrowserCache::new/x.txt".to_string()).is_some());
    assert!(s.get_folder_by_path(&"BrowserCache::old/".to_string()).is_none());
    assert!(s.get_folder_by_path(&"BrowserCache::old/sub/".to_string()).is_none());
    assert!(s.get_file_by_path(&"BrowserCache::old/x.txt".to_string()).is_none());
    let renamed = s.get_folder_by_id(&old_id).expect("record");
    assert_eq!(renamed.original_folder_name, "new");
    assert_eq!(s.get_folder_by_id(&sub_id).expect("sub record").full_folder_path, "BrowserCache::new/sub/");
    let root = s.get_folder_by_path(&"BrowserCache::".to_string()).expect("root");
    assert!(root.subfolder_uuids.contains(&old_id));
}

#[test]
fn rename_errors() {
    let mut s = fresh();
    let a = create(&mut s, "BrowserCache::a");
    create(&mut s, "BrowserCache::b");
    assert_eq!(s.rename_folder(&ctx(), &a.id, &"b".to_string()).err(), Some(FsError::PathCollision));
    assert_eq!(s.rename_folder(&ctx(), &a.id, &"x/y".to_string()).err(), Some(FsError::InvalidPath));
    assert_eq!(s.rename_folder(&ctx(), &a.id, &"".to_string()).err(), Some(FsError::InvalidPath));
    assert_eq!(s.rename_folder(&ctx(), &"missing".to_string(), &"c".to_string()).err(), Some(FsError::NotFound));
    let root = s.get_folder_by_path(&"BrowserCache::".to_string()).expect("root").id.clone();
    assert_eq!(s.rename_folder(&ctx(), &root, &"c".to_string()).err(), Some(FsError::StructureError));
    assert_eq!(s.rename_folder(&ctx(), &a.id, &"a".to_string()), Ok(()));
    assert!(s.get_folder_by_path(&"BrowserCache::a/".to_string()).is_some());
}

#[test]
fn rename_file_in_place() {
    let mut s = fresh();
    let id = upsert(&mut s, "BrowserCache::d/one.txt");
    let other = upsert(&mut s, "BrowserCache::d/two.txt");
    assert_eq!(s.rename_file(&ctx(), &id, &"two.txt".to_string()).err(), Some(FsError::PathCollision));
    s.rename_file(&ctx(), &id, &"three.md".to_string()).expect("renamed");
    let f = s.get_file_by_id(&id).expect("file");
    assert_eq!(f.full_file_path, "BrowserCache::d/three.md");
    assert_eq!(f.extension, "md");
    assert_eq!(f.original_file_name, "three.md");
    assert!(s.get_file_by_path(&"BrowserCache::d/one.txt".to_string()).is_none());
    assert_eq!(s.get_file_by_path(&"BrowserCache::d/three.md".to_string()).expect("found").id, id);
    assert_eq!(s.get_file_by_path(&"BrowserCache::d/two.txt".to_string()).expect("other").id, other);
    assert_eq!(s.rename_file(&ctx(), &"nope".to_string(), &"z".to_string()).err(), Some(FsError::NotFound));
}

#[test]
fn delete_folder_tombstones_and_purges() {
    let mut s = fresh();
    let top = create(&mut s, "BrowserCache::top");
    let mid = create(&mut s, "BrowserCache::top/mid");
    let leaf = create(&mut s, "BrowserCache::top/mid/leaf");
    let f1 = upsert(&mut s, "BrowserCache::top/a.txt");
    let f2 = upsert(&mut s, "BrowserCache::top/mid/leaf/b.txt");
    let keep = upsert(&mut s, "BrowserCache::elsewhere/c.txt");
    s.delete_folder(&ctx(), &top.id).expect("deleted");
    for id in [&top.id, &mid.id, &leaf.id] {
        let rec = s.get_folder_by_id(id).expect("kept");
        assert!(rec.deleted);
        assert!(s.get_folder_by_path(&rec.full_folder_path).is_none());
    }
    assert!(s.get_file_by_id(&f1).is_none());
    assert!(s.get_file_by_id(&f2).is_none());
    assert!(s.get_file_by_path(&"BrowserCache::top/a.txt".to_string()).is_none());
    assert!(s.get_file_by_id(&keep).is_some());
    assert!(s.get_folder_by_path(&"BrowserCache::elsewhere/".to_string()).is_some());
    assert!(s.get_folder_by_id(&top.id).expect("kept").subfolder_uuids.contains(&mid.id));
    assert_eq!(s.delete_folder(&ctx(), &"missing".to_string()).err(), Some(FsError::NotFound));
    let again = create(&mut s, "BrowserCache::top");
    assert_ne!(again.id, top.id);
}

#[test]
fn delete_file_splices_chain() {
    let mut s = fresh();
    let v1 = upsert(&mut s, "BrowserCache::c.txt");
    let v2 = upsert(&mut s, "BrowserCache::c.txt");
    let v3 = upsert(&mut s, "BrowserCache::c.txt");
    s.delete_file(&ctx(), &v2).expect("deleted");
    assert!(s.get_file_by_id(&v2).is_none());
    assert_eq!(s.get_file_by_id(&v1).expect("v1").next_version.as_ref(), Some(&v3));
    assert_eq!(s.get_file_by_id(&v3).expect("v3").prior_version.as_ref(), Some(&v1));
    assert_eq!(s.get_file_by_path(&"BrowserCache::c.txt".to_string()).expect("head").id, v3);
    s.delete_file(&ctx(), &v3).expect("deleted");
    assert!(s.get_file_by_path(&"BrowserCache::c.txt".to_string()).is_none());
    assert_eq!(s.delete_file(&ctx(), &v3).err(), Some(FsError::NotFound));
}

#[test]
fn cloud_file_sync_appends_revision() {
    let mut s = fresh();
    let old = upsert(&mut s, "BrowserCache::sync/f.txt");
    let incoming = FileMetadata {
        id: "client-id".to_string(),
        original_file_name: "ignored".to_string(),
        folder_uuid: "ignored".to_string(),
        file_version: 99,
        prior_version: None,
        next_version: None,
        extension: "ignored".to_string(),
        full_file_path: "BrowserCache::sync/g.bin".to_string(),
        tags: vec!["t".to_string()],
        owner: "client".to_string(),
        created_date: 5,
        storage_location: StorageLocationEnum::BrowserCache,
        file_size: 10,
        raw_url: "https://example.test/blob".to_string(),
        last_changed_unix_ms: 0b1010,
        deleted: false,
    };
    let new_id = s.upsert_cloud_file_with_local_sync(&ctx_at(0b0101 * 1_000_000), &old, &incoming).expect("merged");
    let f = s.get_file_by_id(&new_id).expect("new");
    assert_eq!(f.file_version, 2);
    assert_eq!(f.prior_version.as_ref(), Some(&old));
    assert_eq!(f.last_changed_unix_ms, 0b1111);
    assert_eq!(f.created_date, 5);
    assert_eq!(f.file_size, 10);
    assert_eq!(f.raw_url, "https://example.test/blob");
    assert_eq!(f.full_file_path, "BrowserCache::sync/g.bin");
    assert_eq!(f.extension, "bin");
    assert_eq!(s.get_file_by_id(&old).expect("old").next_version.as_ref(), Some(&new_id));
    let folder = s.get_folder_by_path(&"BrowserCache::sync/".to_string()).expect("folder");
    assert!(!folder.file_uuids.contains(&old));
    assert_eq!(folder.file_uuids.last(), Some(&new_id));
    assert_eq!(s.get_file_by_path(&"BrowserCache::sync/g.bin".to_string()).expect("head").id, new_id);
    assert!(s.get_file_by_path(&"BrowserCache::sync/f.txt".to_string()).is_none());
    let missing = s.upsert_cloud_file_with_local_sync(&ctx(), &"missing".to_string(), &incoming);
    assert_eq!(missing.err(), Some(FsError::NotFound));
}

#[test]
fn cloud_folder_sync_overwrites_in_place() {
    let mut s = fresh();
    let f = create(&mut s, "BrowserCache::cf");
    let incoming = FolderMetadata {
        id: "client".to_string(),
        original_folder_name: "renamed".to_string(),
        parent_folder_uuid: None,
        subfolder_uuids: Vec::new(),
        file_uuids: Vec::new(),
        full_folder_path: "BrowserCache::renamed/".to_string(),
        tags: vec!["x".to_string()],
        owner: "client".to_string(),
        created_date: 1,
        storage_location: StorageLocationEnum::HardDrive,
        last_changed_unix_ms: 8,
        deleted: true,
    };
    let id = s.upsert_cloud_folder_with_local_sync(&ctx_at(3 * 1_000_000), &f.id, &incoming).expect("merged");
    assert_eq!(id, f.id);
    let rec = s.get_folder_by_id(&f.id).expect("record");
    assert_eq!(rec.original_folder_name, "renamed");
    assert_eq!(rec.full_folder_path, "BrowserCache::renamed/");
    assert_eq!(rec.tags, vec!["x".to_string()]);
    assert_eq!(rec.storage_location, StorageLocationEnum::HardDrive);
    assert!(rec.parent_folder_uuid.is_none());
    assert!(rec.deleted);
    assert_eq!(rec.last_changed_unix_ms, 11);
    assert_eq!(rec.owner, "owner-principal");
    assert_eq!(s.get_folder_by_path(&"BrowserCache::cf/".to_string()).expect("still bound").id, f.id);
    let missing = s.upsert_cloud_folder_with_local_sync(&ctx(), &"missing".to_string(), &incoming);
    assert_eq!(missing.err(), Some(FsError::NotFound));
}

#[test]
fn rename_to_own_name_collides_with_reused_path() {
    let mut s = fresh();
    let first = create(&mut s, "BrowserCache::a");
    s.delete_folder(&ctx(), &first.id).expect("deleted");
    let second = create(&mut s, "BrowserCache::a");
    assert_ne!(first.id, second.id);
    assert_eq!(s.rename_folder(&ctx(), &first.id, &"a".to_string()).err(), Some(FsError::PathCollision));
    assert_eq!(s.rename_folder(&ctx(), &second.id, &"a".to_string()), Ok(()));
}

#[test]
fn rename_file_accepts_any_name() {
    let mut s = fresh();
    let id = upsert(&mut s, "BrowserCache::n/plain.txt");
    s.rename_file(&ctx(), &id, &"with:colon.txt".to_string()).expect("renamed");
    let f = s.get_file_by_id(&id).expect("file");
    assert_eq!(f.full_file_path, "BrowserCache::n/with:colon.txt");
    assert_eq!(f.extension, "txt");
}

#[test]
fn upsert_replaces_superseded_id_in_file_list() {
    let mut s = fresh();
    let other = upsert(&mut s, "BrowserCache::a/g.txt");
    let first = upsert(&mut s, "BrowserCache::a/f.txt");
    let second = upsert(&mut s, "BrowserCache::a/f.txt");
    let folder = s.get_folder_by_path(&"BrowserCache::a/".to_string()).expect("folder");
    assert_eq!(folder.file_uuids, vec![other, second]);
    assert!(!folder.file_uuids.contains(&first));
}

#[test]
fn delete_reaches_descendants_marked_deleted() {
    let mut s = fresh();
    let top = create(&mut s, "BrowserCache::t");
    let mid = create(&mut s, "BrowserCache::t/m");
    let f = upsert(&mut s, "BrowserCache::t/m/f.txt");
    let mut incoming = s.get_folder_by_id(&mid.id).expect("mid").duplicate();
    incoming.deleted = true;
    s.upsert_cloud_folder_with_local_sync(&ctx(), &mid.id, &incoming).expect("merged");
    s.delete_folder(&ctx(), &top.id).expect("deleted");
    assert!(s.get_file_by_id(&f).is_none());
    assert!(s.get_folder_by_path(&"BrowserCache::t/m/".to_string()).is_none());
    let m = s.get_folder_by_id(&mid.id).expect("kept");
    assert!(m.deleted);
    assert_eq!(m.parent_folder_uuid.as_ref(), Some(&top.id));
}

#[test]
fn rename_to_same_name_sets_stored_name() {
    let mut s = fresh();
    let a = create(&mut s, "BrowserCache::same");
    s.rename_folder(&ctx(), &a.id, &"same".to_string()).expect("renamed");
    let rec = s.get_folder_by_id(&a.id).expect("kept");
    assert_eq!(rec.original_folder_name, "same");
    assert_eq!(rec.full_folder_path, "BrowserCache::same/");
}
