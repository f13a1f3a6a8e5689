use storkitty::chunk::hash_chunk;
use storkitty::error::{AppError, ErrorKind};
use storkitty::extractor::Storage;
use storkitty::safe_path::SafePath;
use storkitty::session::{transition, UploadEvent, UploadSession, UploadState};
use storkitty::ops::Probe;
use storkitty::upload::{
    check_upload_target, plan_abort, plan_chunk, plan_decoded, prepare_upload, read_fields,
    staging_decision, staging_dir, store_decision, AbortFileDto, ChunkRequest, UploadFields,
    ABORT_DELAY_MS,
};

fn storage_at(root: &str, below: &str) -> Storage {
    let base = SafePath::new(root.to_string());
    let path = if below.is_empty() { base } else { base.safe_join(below).ok().unwrap() };
    Storage { path, root: root.to_string() }
}

fn request(index: usize, total: usize, bytes: &[u8], filename: &str) -> ChunkRequest {
    ChunkRequest { index, total, bytes: bytes.to_vec(), filename: filename.to_string() }
}

fn fields(chunk: Option<&str>, total: Option<&str>, file: Option<&[u8]>, filename: Option<&str>) -> UploadFields {
    UploadFields {
        chunk: chunk.map(|s| s.to_string()),
        total: total.map(|s| s.to_string()),
        file: file.map(|b| b.to_vec()),
        filename: filename.map(|s| s.to_string()),
    }
}

#[test]
fn all_four_fields_are_required() {
    let read = read_fields(fields(Some("2"), Some("5"), Some(b"xyz"), Some("a.bin"))).ok().unwrap();
    assert_eq!(read.index, 2);
    assert_eq!(read.total, 5);
    assert_eq!(read.bytes, b"xyz".to_vec());
    assert_eq!(read.filename, "a.bin");
    let missing = [
        fields(None, Some("5"), Some(b"x"), Some("a")),
        fields(Some("2"), None, Some(b"x"), Some("a")),
        fields(Some("2"), Some("5"), None, Some("a")),
        fields(Some("2"), Some("5"), Some(b"x"), None),
        fields(None, None, None, None),
    ];
    for f in missing {
        let e = read_fields(f).err().unwrap();
        assert_eq!(e, AppError::MissingFields);
        assert_eq!(e.kind(), ErrorKind::BadRequest);
    }
}

#[test]
fn unreadable_numbers_fall_back() {
    let read = read_fields(fields(Some("x"), Some("y"), Some(b""), Some("a"))).ok().unwrap();
    assert_eq!(read.index, 0);
    assert_eq!(read.total, 1);
    let read = read_fields(fields(Some("-1"), Some(""), Some(b""), Some("a"))).ok().unwrap();
    assert_eq!(read.index, 0);
    assert_eq!(read.total, 1);
    let read = read_fields(fields(Some("+3"), Some("0"), Some(b""), Some("a"))).ok().unwrap();
    assert_eq!(read.index, 3);
    assert_eq!(read.total, 0);
}

#[test]
fn upload_needs_the_target_or_its_parent() {
    assert!(check_upload_target(true, Some(true)).is_ok());
    assert!(check_upload_target(true, Some(false)).is_ok());
    assert!(check_upload_target(true, None).is_ok());
    assert!(check_upload_target(false, Some(true)).is_ok());
    assert!(check_upload_target(false, None).is_ok());
    let e = check_upload_target(false, Some(false)).err().unwrap();
    assert_eq!(e, AppError::TargetDirectoryMissing);
    assert_eq!(e.message(), "Target directory does not exist");
}

#[test]
fn nothing_is_written_over_what_is_there() {
    assert!(staging_decision(Probe::Missing));
    assert!(store_decision(Probe::Missing));
    for found in [Probe::File, Probe::Directory, Probe::Other] {
        assert!(!staging_decision(found));
        assert!(!store_decision(found));
    }
}

#[test]
fn staging_directory_is_hidden_below_the_root() {
    let dir = staging_dir("/data/docs", "video.mp4").ok().unwrap();
    assert_eq!(dir.get_path(), "/data/docs/.storkitty/chunks/video.mp4");
    let dir = staging_dir("/data/docs", "sub/video.mp4").ok().unwrap();
    assert_eq!(dir.get_path(), "/data/docs/.storkitty/chunks/sub/video.mp4");
    for name in ["", "..", "../../etc/passwd", "a/../b", "a\u{0}b", "CON"] {
        assert_eq!(staging_dir("/data/docs", name).err(), Some(AppError::InvalidPath), "{}", name);
    }
    let dir = staging_dir("/data/docs", "/etc/passwd").ok().unwrap();
    assert_eq!(dir.get_path(), "/data/docs/.storkitty/chunks/etc/passwd");
}

#[test]
fn plan_names_every_path_of_a_chunk() {
    let storage = storage_at("/data/docs", "reports");
    let plan = plan_chunk(&storage, &request(2, 3, b"hello world", "q1.txt")).ok().unwrap();
    let hash = "b94d27b9934d3e08a52e52d7da7dabfac484efe37a5380ee9088f7ace2efcde9";
    assert_eq!(plan.index, 2);
    assert_eq!(plan.total, 3);
    assert_eq!(plan.hash, hash);
    assert_eq!(plan.chunk_name, format!("2_{}", hash));
    assert_eq!(plan.staging.get_path(), "/data/docs/.storkitty/chunks/q1.txt");
    assert_eq!(plan.chunk_path.get_path(), format!("/data/docs/.storkitty/chunks/q1.txt/2_{}", hash));
    assert_eq!(plan.destination.get_path(), "/data/docs/reports/q1.txt");
}

#[test]
fn file_name_is_percent_decoded() {
    let storage = storage_at("/data/docs", "");
    let plan = plan_chunk(&storage, &request(0, 1, b"x", "my%20file%2Btest.txt")).ok().unwrap();
    assert_eq!(plan.destination.get_path(), "/data/docs/my file+test.txt");
    assert_eq!(plan.staging.get_path(), "/data/docs/.storkitty/chunks/my file+test.txt");
    let plan = plan_chunk(&storage, &request(0, 1, b"x", "%E4%B8%AD%E6%96%87.txt")).ok().unwrap();
    assert_eq!(plan.destination.get_path(), "/data/docs/\u{4e2d}\u{6587}.txt");
    let plan = plan_chunk(&storage, &request(0, 1, b"x", "a+b.txt")).ok().unwrap();
    assert_eq!(plan.destination.get_path(), "/data/docs/a+b.txt");
    let plan = plan_chunk(&storage, &request(0, 1, b"x", "100%25.txt")).ok().unwrap();
    assert_eq!(plan.destination.get_path(), "/data/docs/100%.txt");
}

#[test]
fn undecodable_file_name_is_refused() {
    let storage = storage_at("/data/docs", "");
    for name in ["%ff", "a%c3.txt", "%80abc"] {
        let e = plan_chunk(&storage, &request(0, 1, b"x", name)).err().unwrap();
        assert_eq!(e, AppError::UndecodableFilename, "{}", name);
        assert_eq!(e.kind(), ErrorKind::BadRequest);
    }
}

#[test]
fn decoded_file_name_must_stay_below_the_root() {
    let storage = storage_at("/data/docs", "");
    for name in ["..%2F..%2Fetc%2Fpasswd", "%2E%2E", "..", "a%00b", "", "%3Fx", "x%2F..%2Fy"] {
        let e = plan_chunk(&storage, &request(0, 1, b"x", name)).err().unwrap();
        assert_eq!(e, AppError::InvalidPath, "{}", name);
    }
    let plan = plan_chunk(&storage, &request(0, 1, b"x", "%2Fetc%2Fpasswd")).ok().unwrap();
    assert_eq!(plan.destination.get_path(), "/data/docs/etc/passwd");
    assert_eq!(plan.staging.get_path(), "/data/docs/.storkitty/chunks/etc/passwd");
}

#[test]
fn plan_of_a_decoded_name_takes_it_as_it_is() {
    let storage = storage_at("/data/docs", "in");
    let plan = plan_decoded(&storage, &request(1, 2, b"abc", "ignored"), "100%25.txt").ok().unwrap();
    assert_eq!(plan.destination.get_path(), "/data/docs/in/100%25.txt");
    assert_eq!(plan.hash, hash_chunk(b"abc"));
    assert_eq!(plan_decoded(&storage, &request(1, 2, b"abc", "ignored"), "../x").err(), Some(AppError::InvalidPath));
}

#[test]
fn request_is_checked_before_the_disk_is_touched() {
    let storage = storage_at("/data/docs", "in");
    let (request, plan) =
        prepare_upload(&storage, fields(Some("1"), Some("2"), Some(b"abc"), Some("a%20b.txt"))).ok().unwrap();
    assert_eq!(request.index, 1);
    assert_eq!(request.total, 2);
    assert_eq!(plan.destination.get_path(), "/data/docs/in/a b.txt");
    assert_eq!(plan.hash, hash_chunk(b"abc"));
    // Missing fields come first, then the decoding, then the validation.
    let e = prepare_upload(&storage, fields(None, Some("2"), Some(b"abc"), Some("%ff"))).err().unwrap();
    assert_eq!(e, AppError::MissingFields);
    let e = prepare_upload(&storage, fields(Some("1"), Some("2"), Some(b"abc"), Some("%ff/.."))).err().unwrap();
    assert_eq!(e, AppError::UndecodableFilename);
    let e = prepare_upload(&storage, fields(Some("1"), Some("2"), Some(b"abc"), Some("%2e%2e"))).err().unwrap();
    assert_eq!(e, AppError::InvalidPath);
}

#[test]
fn abort_removes_the_staging_directory_after_a_delay() {
    let storage = storage_at("/data/docs", "reports");
    let plan = plan_abort(&storage, &AbortFileDto { file: "q1.txt".to_string() }).ok().unwrap();
    assert_eq!(plan.staging.get_path(), "/data/docs/.storkitty/chunks/q1.txt");
    assert_eq!(plan.delay_ms, 3000);
    assert_eq!(ABORT_DELAY_MS, 3000);
    // The name is taken as it is: it is not percent-decoded.
    let plan = plan_abort(&storage, &AbortFileDto { file: "a%20b".to_string() }).ok().unwrap();
    assert_eq!(plan.staging.get_path(), "/data/docs/.storkitty/chunks/a%20b");
    let e = plan_abort(&storage, &AbortFileDto { file: "../..".to_string() }).err().unwrap();
    assert_eq!(e, AppError::InvalidPath);
}

#[test]
fn same_chunk_twice_leaves_one_file() {
    let mut session = UploadSession::new();
    let first = session.upload_chunk(1, 3, b"chunk one");
    let after_first = session.listing();
    let second = session.upload_chunk(1, 3, b"chunk one");
    assert_eq!(first.hash, second.hash);
    assert_eq!(first.hash, hash_chunk(b"chunk one"));
    assert!(first.merged.is_none());
    assert!(second.merged.is_none());
    assert_eq!(session.listing(), after_first);
    assert_eq!(session.listing(), vec![format!("1_{}", first.hash)]);
    assert_eq!(session.read(&format!("1_{}", first.hash)), Some(b"chunk one".to_vec()));
    assert_eq!(session.state(), UploadState::Receiving);
}

#[test]
fn same_index_with_other_bytes_is_another_file() {
    let mut session = UploadSession::new();
    let first = session.upload_chunk(0, 2, b"aaa");
    let second = session.upload_chunk(0, 2, b"bbb");
    assert_ne!(first.hash, second.hash);
    assert_eq!(session.listing().len(), 2);
    // The chunk stored last counts for the index.
    let last = session.upload_chunk(1, 2, b"ccc");
    assert_eq!(last.merged, Some(b"bbbccc".to_vec()));
}

#[test]
fn chunks_merge_by_index_not_by_arrival() {
    let mut session = UploadSession::new();
    assert!(session.upload_chunk(2, 3, b"chunk2").merged.is_none());
    assert!(session.upload_chunk(0, 3, b"chunk0").merged.is_none());
    let last = session.upload_chunk(1, 3, b"chunk1");
    assert_eq!(last.merged, Some(b"chunk0chunk1chunk2".to_vec()));
    assert_eq!(last.hash, hash_chunk(b"chunk1"));
    assert_eq!(session.state(), UploadState::Merged);
    assert!(session.listing().is_empty());
}

#[test]
fn every_arrival_order_gives_the_same_file() {
    let chunks: [&[u8]; 4] = [b"AA", b"", b"CCC", b"D"];
    let orders: [[usize; 4]; 6] = [
        [0, 1, 2, 3],
        [3, 2, 1, 0],
        [2, 0, 3, 1],
        [1, 3, 0, 2],
        [3, 0, 1, 2],
        [1, 0, 3, 2],
    ];
    for order in orders {
        let mut session = UploadSession::new();
        let mut merged = None;
        for (step, index) in order.iter().enumerate() {
            let receipt = session.upload_chunk(*index, 4, chunks[*index]);
            assert_eq!(receipt.merged.is_some(), step == 3);
            merged = receipt.merged;
        }
        assert_eq!(merged, Some(b"AACCCD".to_vec()));
    }
}

#[test]
fn incomplete_upload_merges_nothing() {
    let mut session = UploadSession::new();
    let a = session.upload_chunk(0, 3, b"zero");
    let b = session.upload_chunk(1, 3, b"one");
    assert!(a.merged.is_none());
    assert!(b.merged.is_none());
    assert_eq!(session.state(), UploadState::Receiving);
    assert_eq!(session.listing(), vec![format!("0_{}", a.hash), format!("1_{}", b.hash)]);
    assert_eq!(session.read(&format!("0_{}", a.hash)), Some(b"zero".to_vec()));
    assert_eq!(session.read(&format!("1_{}", b.hash)), Some(b"one".to_vec()));
    assert_eq!(session.read("2_x"), None);
}

#[test]
fn index_beyond_the_total_completes_nothing() {
    let mut session = UploadSession::new();
    assert!(session.upload_chunk(5, 2, b"x").merged.is_none());
    assert!(session.upload_chunk(0, 2, b"a").merged.is_none());
    assert_eq!(session.upload_chunk(1, 2, b"b").merged, Some(b"ab".to_vec()));
}

#[test]
fn abort_empties_the_staging_area() {
    let mut session = UploadSession::new();
    session.upload_chunk(0, 3, b"zero");
    session.upload_chunk(1, 3, b"one");
    session.abort_upload();
    assert_eq!(session.state(), UploadState::Aborted);
    assert!(session.listing().is_empty());
    // The next chunk begins a new upload: what came before the abort is gone.
    let receipt = session.upload_chunk(2, 3, b"two");
    assert!(receipt.merged.is_none());
    assert_eq!(session.state(), UploadState::Receiving);
    assert_eq!(session.listing(), vec![format!("2_{}", receipt.hash)]);
    assert!(session.upload_chunk(0, 3, b"zero").merged.is_none());
    assert_eq!(session.upload_chunk(1, 3, b"one").merged, Some(b"zeroonetwo".to_vec()));
}

#[test]
fn chunk_after_the_merge_begins_a_new_upload() {
    let mut session = UploadSession::new();
    assert_eq!(session.upload_chunk(0, 1, b"all").merged, Some(b"all".to_vec()));
    assert_eq!(session.state(), UploadState::Merged);
    session.abort_upload();
    assert_eq!(session.state(), UploadState::Merged);
    assert_eq!(session.upload_chunk(0, 1, b"again").merged, Some(b"again".to_vec()));
    assert!(session.upload_chunk(0, 2, b"more").merged.is_none());
    assert_eq!(session.state(), UploadState::Receiving);
}

#[test]
fn upload_states_follow_the_events() {
    let receiving = UploadState::Receiving;
    let complete = UploadState::Complete;
    let merged = UploadState::Merged;
    let aborted = UploadState::Aborted;
    let stored_last = UploadEvent::ChunkStored { complete: true };
    let stored = UploadEvent::ChunkStored { complete: false };
    assert_eq!(transition(receiving, stored), receiving);
    assert_eq!(transition(receiving, stored_last), complete);
    assert_eq!(transition(receiving, UploadEvent::MergeSucceeded), receiving);
    assert_eq!(transition(receiving, UploadEvent::MergeFailed), receiving);
    assert_eq!(transition(receiving, UploadEvent::AbortRequested), aborted);
    assert_eq!(transition(complete, UploadEvent::MergeSucceeded), merged);
    assert_eq!(transition(complete, UploadEvent::MergeFailed), complete);
    assert_eq!(transition(complete, stored_last), complete);
    assert_eq!(transition(complete, stored), complete);
    assert_eq!(transition(complete, UploadEvent::AbortRequested), aborted);
    let events = [
        stored_last,
        stored,
        UploadEvent::MergeSucceeded,
        UploadEvent::MergeFailed,
        UploadEvent::AbortRequested,
    ];
    for event in events {
        assert_eq!(transition(merged, event), merged);
        assert_eq!(transition(aborted, event), aborted);
    }
}
