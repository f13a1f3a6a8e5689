use storkitty::locks::{SessionKey, SessionLocks};
use storkitty::safe_path::SafePath;
use storkitty::upload::{session_key, staging_dir};

fn key(root: &str, destination: &str) -> SessionKey {
    SessionKey { root: root.to_string(), destination: destination.to_string() }
}

#[test]
fn token_is_taken_once() {
    let mut locks = SessionLocks::new();
    assert!(!locks.is_held(&key("/data", "a.bin")));
    assert!(locks.try_acquire(key("/data", "a.bin")));
    assert!(locks.is_held(&key("/data", "a.bin")));
    assert!(!locks.try_acquire(key("/data", "a.bin")));
    assert!(locks.is_held(&key("/data", "a.bin")));
    assert!(locks.release(&key("/data", "a.bin")));
    assert!(!locks.is_held(&key("/data", "a.bin")));
    assert!(!locks.release(&key("/data", "a.bin")));
    assert!(locks.try_acquire(key("/data", "a.bin")));
}

#[test]
fn other_uploads_are_not_held_up() {
    let mut locks = SessionLocks::new();
    assert!(locks.try_acquire(key("/data", "a.bin")));
    assert!(locks.try_acquire(key("/data", "b.bin")));
    assert!(locks.try_acquire(key("/other", "a.bin")));
    assert!(!locks.try_acquire(key("/data", "b.bin")));
    assert!(locks.release(&key("/data", "a.bin")));
    assert!(locks.is_held(&key("/data", "b.bin")));
    assert!(locks.is_held(&key("/other", "a.bin")));
    assert!(!locks.is_held(&key("/data", "a.bin")));
    // Root and destination are two things: they are not run together.
    assert!(!locks.is_held(&key("/dat", "ab.bin")));
    assert!(!locks.is_held(&key("/datab.bin", "")));
}

#[test]
fn key_of_an_upload_is_its_staging_directory() {
    let staging = staging_dir("/data/docs", "sub//video.mp4").ok().unwrap();
    let first = session_key(&staging);
    assert_eq!(first.root, "/data/docs");
    assert_eq!(first.destination, "/data/docs/.storkitty/chunks/sub/video.mp4");
    let same = session_key(&staging_dir("/data/docs", "/sub/video.mp4/").ok().unwrap());
    assert_eq!(same.destination, first.destination);
    let copy = first.duplicate();
    assert_eq!(copy.root, first.root);
    assert_eq!(copy.destination, first.destination);
    let other = session_key(&SafePath::new("/data/docs".to_string()));
    assert_eq!(other.destination, "/data/docs");
}
