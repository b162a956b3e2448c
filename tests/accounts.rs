use officex_canisters_backend::username::{is_valid_username, sanitize_username};
use officex_canisters_backend::{CallContext, DriveRegistry, DriveRequestError, FsError, State};

#[test]
fn username_is_sanitized_and_tagged_with_owner() {
    let s = State::new("owner-principal".to_string(), "Anonymous".to_string());
    assert_eq!(s.get_username(), "Anonymous@owner-principal");
    assert_eq!(s.get_owner(), "owner-principal");
    assert_eq!(sanitize_username("  a/b@c  "), "a b c");
    assert_eq!(sanitize_username(&"x".repeat(40)).len(), 32);
    assert!(is_valid_username("alice42"));
    assert!(is_valid_username("Zoë"));
    assert!(!is_valid_username("a b"));
    assert!(!is_valid_username(""));
}

#[test]
fn update_username_checks_owner_and_format() {
    let mut s = State::new("owner-principal".to_string(), "Anonymous".to_string());
    let owner = CallContext { canister_id: "c".to_string(), caller: "owner-principal".to_string(), time_ns: 0 };
    let other = CallContext { canister_id: "c".to_string(), caller: "intruder".to_string(), time_ns: 0 };
    assert_eq!(s.update_username(&other, &"bob".to_string()).err(), Some(FsError::Unauthorized));
    assert_eq!(s.update_username(&owner, &"b o b".to_string()).err(), Some(FsError::InvalidUsername));
    s.update_username(&owner, &"bob".to_string()).expect("updated");
    assert_eq!(s.get_username(), "bob@owner-principal");
    assert_eq!(s.snapshot_hashtables().username, "owner-principal");
}

#[test]
fn drive_registry_decisions() {
    let mut r = DriveRegistry::new();
    let alice = "alice-principal".to_string();
    assert_eq!(r.check_create_drive(&alice, true, &"alice".to_string()), Err(DriveRequestError::AnonymousCaller));
    assert_eq!(r.check_create_drive(&alice, false, &"a b".to_string()), Err(DriveRequestError::InvalidUsername));
    assert_eq!(r.check_create_drive(&alice, false, &" alice ".to_string()), Ok("alice".to_string()));
    assert_eq!(r.record_drive(alice.clone(), "drive-1".to_string()), Ok(1));
    assert_eq!(r.check_create_drive(&alice, false, &"alice".to_string()), Err(DriveRequestError::AlreadyHasDrive));
    assert_eq!(r.record_drive("bob".to_string(), "drive-2".to_string()), Ok(2));
    assert_eq!(r.get_total_drives(), 2);
    assert_eq!(r.get_user_drive(&alice), Some("drive-1".to_string()));
    assert_eq!(r.get_user_drive(&"carol".to_string()), None);
    assert_eq!(r.get_drive_by_index(2), Some("drive-2".to_string()));
    assert_eq!(r.get_drive_by_index(0), None);
    assert_eq!(r.get_drive_by_index(3), None);
}
