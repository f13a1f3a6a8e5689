use storkitty::error::{AppError, ErrorKind};
use storkitty::extractor::{bind_storage, parse_request, resolve_storage};
use storkitty::file::is_system_file;
use storkitty::path::split_path;
use storkitty::safe_path::SafePath;
use storkitty::storage::{CreateStorageDto, Registry, StorageDatabase, StorageDto};

fn storage(id: i64, path: &str, local_path: &str, disabled: bool, sort_index: i64) -> StorageDatabase {
    StorageDatabase {
        id,
        name: path.to_uppercase(),
        path: path.to_string(),
        local_path: local_path.to_string(),
        max_file_size: 0,
        allow_extensions: String::new(),
        block_extensions: String::new(),
        disabled,
        sort_index,
        created_at: String::new(),
        updated_at: String::new(),
    }
}

fn registry() -> Registry {
    Registry::new(vec![
        storage(1, "docs", "/data/docs", false, 2),
        storage(2, "old", "/data/old", true, 0),
        storage(3, "media", "/srv/media/", false, 1),
        storage(4, "docs", "/data/shadow", false, 0),
    ])
}

#[test]
fn resolves_path_below_enabled_storage() {
    let resolved = resolve_storage(&registry(), "docs/reports/q1.txt").ok().unwrap();
    assert_eq!(resolved.path.get_path(), "/data/docs/reports/q1.txt");
    assert_eq!(resolved.root, "/data/docs");
    assert_eq!(resolved.path.root(), "/data/docs");
}

#[test]
fn resolves_storage_alone_to_its_root() {
    let resolved = resolve_storage(&registry(), "docs").ok().unwrap();
    assert_eq!(resolved.path.get_path(), "/data/docs");
    let resolved = resolve_storage(&registry(), "/docs/").ok().unwrap();
    assert_eq!(resolved.path.get_path(), "/data/docs");
    let target = resolved.into_path();
    assert_eq!(target.0.get_path(), "/data/docs");
}

#[test]
fn rejects_traversal_before_lookup() {
    assert_eq!(parse_request("docs/../../etc/passwd").err(), Some(AppError::InvalidStoragePath));
    let e = resolve_storage(&registry(), "docs/../../etc/passwd").err().unwrap();
    assert_eq!(e, AppError::InvalidStoragePath);
    assert_eq!(e.kind(), ErrorKind::BadRequest);
    // The same answer where no storage of that name exists: nothing was looked up.
    let e = resolve_storage(&registry(), "nowhere/../x").err().unwrap();
    assert_eq!(e, AppError::InvalidStoragePath);
}

#[test]
fn unknown_storage_is_not_found() {
    let e = resolve_storage(&registry(), "nowhere/x").err().unwrap();
    assert_eq!(e, AppError::StorageNotFound);
    assert_eq!(e.kind(), ErrorKind::NotFound);
    let e = bind_storage(None, &None).err().unwrap();
    assert_eq!(e, AppError::StorageNotFound);
}

#[test]
fn disabled_storage_is_forbidden_whatever_follows() {
    for path in ["old", "old/", "old/a", "old/a/b/c.txt", "/old//x", "old/CON\u{3000}"] {
        let e = resolve_storage(&registry(), path).err().unwrap();
        assert_eq!(e, AppError::StorageDisabled, "{}", path);
        assert_eq!(e.kind(), ErrorKind::Forbidden);
    }
}

#[test]
fn empty_pieces_do_not_leave_the_root() {
    // A second slash must not make the rest of the path absolute.
    let resolved = resolve_storage(&registry(), "docs//etc/passwd").ok().unwrap();
    assert_eq!(resolved.path.get_path(), "/data/docs/etc/passwd");
}

#[test]
fn root_with_trailing_slash_gets_no_second_one() {
    let resolved = resolve_storage(&registry(), "media/a/b").ok().unwrap();
    assert_eq!(resolved.path.get_path(), "/srv/media/a/b");
    assert_eq!(resolved.root, "/srv/media/");
}

#[test]
fn valid_request_is_resolved_as_it_is_trimmed() {
    // White space at the end of a valid request path is dropped, and what
    // is left is the target, also where it ends in a dot.
    for (raw, target) in [
        ("docs/x.\u{a0}", "/data/docs/x."),
        ("docs/a/b \u{3000}", "/data/docs/a/b"),
        ("docs/.\u{a0}", "/data/docs/."),
        ("docs/a\u{2003}\u{a0}", "/data/docs/a"),
        ("\u{3000}docs/a", "/data/docs/a"),
        ("docs/~/x", "/data/docs/~/x"),
    ] {
        assert!(parse_request(raw).is_ok(), "{}", raw);
        let resolved = resolve_storage(&registry(), raw).ok().unwrap();
        assert_eq!(resolved.path.get_path(), target, "{}", raw);
        assert_eq!(resolved.root, "/data/docs");
    }
}

#[test]
fn device_name_left_by_trimming_is_refused() {
    // The request path is valid as it stands, but its last piece without the
    // white space at its end is the name of a device.
    for raw in ["docs/CON\u{3000}", "docs/a/lpt1\u{a0}", "docs/Nul\u{2003}\u{a0}"] {
        assert!(parse_request(raw).is_ok(), "{}", raw);
        let e = resolve_storage(&registry(), raw).err().unwrap();
        assert_eq!(e, AppError::InvalidPath, "{}", raw);
        assert_eq!(e.kind(), ErrorKind::BadRequest);
    }
}

#[test]
fn first_record_of_a_name_counts() {
    let registry = registry();
    let found = registry.lookup("docs").unwrap();
    assert_eq!(found.id, 1);
    assert!(registry.lookup("Docs").is_none());
    assert!(registry.lookup("").is_none());
}

#[test]
fn enabled_storages_come_by_sort_index() {
    let registry = registry();
    let ids: Vec<i64> = registry.list_enabled().iter().map(|s| s.id).collect();
    assert_eq!(ids, vec![4, 3, 1]);
    let dtos = registry.enabled_dtos();
    let paths: Vec<&str> = dtos.iter().map(|d| d.path.as_str()).collect();
    assert_eq!(paths, vec!["docs", "media", "docs"]);
    assert_eq!(dtos[1].id, 3);
    assert_eq!(dtos[1].name, "MEDIA");
    assert_eq!(dtos[1].sort_index, 1);
}

#[test]
fn equal_sort_indices_keep_record_order() {
    let registry = Registry::new(vec![
        storage(1, "a", "/a", false, 5),
        storage(2, "b", "/b", false, 5),
        storage(3, "c", "/c", false, 1),
        storage(4, "d", "/d", false, 5),
    ]);
    let ids: Vec<i64> = registry.list_enabled().iter().map(|s| s.id).collect();
    assert_eq!(ids, vec![3, 1, 2, 4]);
}

#[test]
fn storage_dto_keeps_what_the_client_sees() {
    let dto = StorageDto::from_storage(&storage(7, "docs", "/data/docs", false, 3));
    assert_eq!(dto.id, 7);
    assert_eq!(dto.name, "DOCS");
    assert_eq!(dto.path, "docs");
    assert_eq!(dto.sort_index, 3);
}

fn new_storage(path: &str) -> CreateStorageDto {
    CreateStorageDto {
        name: "n".to_string(),
        path: path.to_string(),
        local_path: "/x".to_string(),
        max_file_size: 0,
        allow_extensions: String::new(),
        block_extensions: String::new(),
        sort_index: 0,
    }
}

#[test]
fn storage_path_takes_letters_digits_dash_and_underscore() {
    assert!(new_storage("docs").validate().is_ok());
    assert!(new_storage("Docs_2-b").validate().is_ok());
    assert!(new_storage("").validate().is_ok());
    for path in ["my docs", "docs/", "d.cs", "d\u{e9}cs", "a+b"] {
        let e = new_storage(path).validate().err().unwrap();
        assert_eq!(e, AppError::InvalidStorageName, "{}", path);
        assert_eq!(e.kind(), ErrorKind::BadRequest);
    }
}

#[test]
fn split_path_gives_storage_and_rest() {
    assert_eq!(split_path("docs/reports/q1.txt"), ("docs".to_string(), Some("reports/q1.txt".to_string())));
    assert_eq!(split_path("docs"), ("docs".to_string(), None));
    assert_eq!(split_path("docs/"), ("docs".to_string(), Some(String::new())));
    assert_eq!(split_path("  //docs/a/ "), ("docs".to_string(), Some("a/".to_string())));
    assert_eq!(split_path("docs//a"), ("docs".to_string(), Some("/a".to_string())));
    assert_eq!(split_path(""), (String::new(), None));
    assert_eq!(split_path(" \t\n"), (String::new(), None));
    assert_eq!(split_path("///"), (String::new(), None));
    assert_eq!(split_path("\u{3000}docs\u{a0}"), ("docs".to_string(), None));
}

#[test]
fn system_files_are_known_by_their_last_piece() {
    for name in [
        ".", "..", ".DS_Store", ".chunks", "Thumbs.db", "__pycache__", ".git", ".svn",
        "node_modules", ".gitkeep", "desktop.ini", ".storkitty",
    ] {
        assert!(is_system_file(name), "{}", name);
        assert!(is_system_file(&format!("a/b/{}", name)), "{}", name);
    }
    assert!(!is_system_file("thumbs.db"));
    assert!(!is_system_file(".git/config"));
    assert!(!is_system_file("readme.md"));
    assert!(!is_system_file(""));
    assert!(!is_system_file(".git/"));
}

#[test]
fn safe_join_keeps_root() {
    let base = SafePath::new("/data/docs".to_string());
    let joined = base.safe_join("/a//b/").ok().unwrap();
    assert_eq!(joined.get_path(), "/data/docs/a/b");
    assert_eq!(joined.root(), "/data/docs");
    assert_eq!(joined.last_name(), Some("b".to_string()));
    assert_eq!(base.last_name(), None);
    let deeper = joined.safe_join("c.txt").ok().unwrap();
    assert_eq!(deeper.get_path(), "/data/docs/a/b/c.txt");
    assert_eq!(deeper.duplicate().get_path(), "/data/docs/a/b/c.txt");
    assert_eq!(base.safe_join("/").ok().unwrap().get_path(), "/data/docs");
}

#[test]
fn safe_join_validates_the_child() {
    let base = SafePath::new("/data/docs".to_string());
    for child in ["", "a/../b", "..", "~/x", "C:\\x", "a/CON", "a/b?", "a/b "] {
        let e = base.safe_join(child).err().unwrap();
        assert_eq!(e, AppError::InvalidPath, "{}", child);
        assert_eq!(e.kind(), ErrorKind::BadRequest);
    }
}

#[test]
fn safe_join_never_leaves_the_root() {
    let base = SafePath::new("/data/docs".to_string()).safe_join("sub").ok().unwrap();
    for child in ["/etc/passwd", "//etc", "a", "a/b/c", "/", ".hidden/x", "~"] {
        let joined = base.safe_join(child).ok().unwrap().get_path();
        assert!(joined.starts_with("/data/docs/sub"), "{}", joined);
        assert!(!joined.contains(".."));
        assert!(!joined.contains("//"));
    }
}

#[test]
fn get_path_of_odd_roots() {
    assert_eq!(SafePath::new(String::new()).safe_join("a/b").ok().unwrap().get_path(), "a/b");
    assert_eq!(SafePath::new("/".to_string()).safe_join("a").ok().unwrap().get_path(), "/a");
    assert_eq!(SafePath::new("rel".to_string()).safe_join("a").ok().unwrap().get_path(), "rel/a");
}

#[test]
fn every_error_has_its_kind_and_message() {
    let all = [
        (AppError::InvalidStoragePath, ErrorKind::BadRequest),
        (AppError::InvalidPath, ErrorKind::BadRequest),
        (AppError::InvalidFileName, ErrorKind::BadRequest),
        (AppError::InvalidFolderName, ErrorKind::BadRequest),
        (AppError::InvalidStorageName, ErrorKind::BadRequest),
        (AppError::MissingFields, ErrorKind::BadRequest),
        (AppError::UndecodableFilename, ErrorKind::BadRequest),
        (AppError::IsFolder, ErrorKind::BadRequest),
        (AppError::NotFile, ErrorKind::BadRequest),
        (AppError::StorageNotFound, ErrorKind::NotFound),
        (AppError::FileNotFound, ErrorKind::NotFound),
        (AppError::DownloadNotFound, ErrorKind::NotFound),
        (AppError::TargetNotFound, ErrorKind::NotFound),
        (AppError::TargetDirectoryMissing, ErrorKind::NotFound),
        (AppError::StorageDisabled, ErrorKind::Forbidden),
        (AppError::FileExists, ErrorKind::Conflict),
        (AppError::FolderExists, ErrorKind::Conflict),
        (AppError::Io, ErrorKind::IOFailure),
        (AppError::Internal, ErrorKind::Internal),
    ];
    for (error, kind) in all {
        assert_eq!(error.kind(), kind);
        assert!(!error.message().is_empty());
        assert!(!error.message().contains('/'));
    }
    assert_eq!(AppError::InvalidStoragePath.message(), "存储路径不合法");
    assert_eq!(AppError::StorageNotFound.message(), "存储不存在");
    assert_eq!(AppError::StorageDisabled.message(), "存储已禁用");
    assert_eq!(AppError::InvalidPath.message(), "路径不合法");
    assert_eq!(
        AppError::MissingFields.message(),
        "Missing required fields: chunk, total, file, or filename"
    );
}
