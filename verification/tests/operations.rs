use storkitty::error::{AppError, ErrorKind};
use storkitty::listing::{count_items, list_response, sort_files, FileInfo, FileType};
use storkitty::ops::{
    content_decision, content_disposition, create_file_decision, create_file_target,
    create_folder_decision, create_folder_target, delete_file_decision, delete_file_targets,
    delete_folder_decision, delete_folder_targets, download_decision, list_decision, plan_batch,
    rename_destination, rename_destination_decision, rename_source, rename_source_decision,
    BatchStep, CreateFileDto, CreateFolderDto, DeleteFileDto, DeleteFolderDto, Probe,
    RenameFileDto,
};
use storkitty::safe_path::SafePath;

fn base() -> SafePath {
    SafePath::new("/data/docs".to_string()).safe_join("work").ok().unwrap()
}

fn names(list: &[&str]) -> Vec<String> {
    list.iter().map(|s| s.to_string()).collect()
}

#[test]
fn new_file_needs_a_valid_name() {
    let target = create_file_target(&base(), &CreateFileDto { name: "notes.txt".to_string() });
    assert_eq!(target.ok().unwrap().get_path(), "/data/docs/work/notes.txt");
    for name in ["", "a/b", "CON", "a?", "a.", " "] {
        let e = create_file_target(&base(), &CreateFileDto { name: name.to_string() }).err().unwrap();
        assert_eq!(e, AppError::InvalidFileName, "{}", name);
        assert_eq!(e.kind(), ErrorKind::BadRequest);
    }
    // A valid name with two dots in a row is no valid path.
    let e = create_file_target(&base(), &CreateFileDto { name: "a..b".to_string() }).err().unwrap();
    assert_eq!(e, AppError::InvalidPath);
}

#[test]
fn new_folder_needs_a_valid_name() {
    let target = create_folder_target(&base(), &CreateFolderDto { name: "2024".to_string() });
    assert_eq!(target.ok().unwrap().get_path(), "/data/docs/work/2024");
    let e = create_folder_target(&base(), &CreateFolderDto { name: "a/b".to_string() }).err().unwrap();
    assert_eq!(e, AppError::InvalidFolderName);
    let e = create_folder_target(&base(), &CreateFolderDto { name: "a..b".to_string() }).err().unwrap();
    assert_eq!(e, AppError::InvalidPath);
}

#[test]
fn nothing_is_created_over_something() {
    assert!(create_file_decision(Probe::Missing).is_ok());
    assert!(create_folder_decision(Probe::Missing).is_ok());
    for found in [Probe::File, Probe::Directory, Probe::Other] {
        let e = create_file_decision(found).err().unwrap();
        assert_eq!(e, AppError::FileExists);
        assert_eq!(e.kind(), ErrorKind::Conflict);
        let e = create_folder_decision(found).err().unwrap();
        assert_eq!(e, AppError::FolderExists);
        assert_eq!(e.kind(), ErrorKind::Conflict);
    }
}

#[test]
fn content_is_read_from_what_is_no_folder() {
    assert!(content_decision(Probe::File).is_ok());
    assert!(content_decision(Probe::Other).is_ok());
    assert_eq!(content_decision(Probe::Missing).err(), Some(AppError::FileNotFound));
    assert_eq!(content_decision(Probe::Directory).err(), Some(AppError::IsFolder));
    assert_eq!(AppError::FileNotFound.kind(), ErrorKind::NotFound);
}

#[test]
fn only_regular_files_are_downloaded() {
    assert!(download_decision(Probe::File).is_ok());
    for found in [Probe::Missing, Probe::Directory, Probe::Other] {
        assert_eq!(download_decision(found).err(), Some(AppError::DownloadNotFound));
    }
    assert_eq!(AppError::DownloadNotFound.message(), "File not found");
}

#[test]
fn only_what_exists_is_listed() {
    assert_eq!(list_decision(Probe::Missing).err(), Some(AppError::TargetNotFound));
    for found in [Probe::File, Probe::Directory, Probe::Other] {
        assert!(list_decision(found).is_ok());
    }
}

#[test]
fn rename_goes_from_a_file_to_a_free_path() {
    let dto = RenameFileDto { from: "a.txt".to_string(), to: "sub/b.txt".to_string() };
    assert_eq!(rename_source(&base(), &dto).ok().unwrap().get_path(), "/data/docs/work/a.txt");
    assert_eq!(rename_destination(&base(), &dto).ok().unwrap().get_path(), "/data/docs/work/sub/b.txt");
    let bad = RenameFileDto { from: "../a".to_string(), to: "b?".to_string() };
    assert_eq!(rename_source(&base(), &bad).err(), Some(AppError::InvalidPath));
    assert_eq!(rename_destination(&base(), &bad).err(), Some(AppError::InvalidPath));
    assert!(rename_source_decision(Probe::File).is_ok());
    assert_eq!(rename_source_decision(Probe::Missing).err(), Some(AppError::FileNotFound));
    assert_eq!(rename_source_decision(Probe::Directory).err(), Some(AppError::NotFile));
    assert_eq!(rename_source_decision(Probe::Other).err(), Some(AppError::NotFile));
    assert!(rename_destination_decision(Probe::Missing).is_ok());
    for found in [Probe::File, Probe::Directory, Probe::Other] {
        assert_eq!(rename_destination_decision(found).err(), Some(AppError::FileExists));
    }
}

#[test]
fn batch_stops_at_the_first_refused_name() {
    let plan = plan_batch(&base(), &names(&["a", "b/c", "../x", "d"]));
    let paths: Vec<String> = plan.targets.iter().map(|p| p.get_path()).collect();
    assert_eq!(paths, vec!["/data/docs/work/a", "/data/docs/work/b/c"]);
    assert_eq!(plan.rejected, Some(AppError::InvalidPath));
    let plan = plan_batch(&base(), &names(&["a", "b"]));
    assert_eq!(plan.targets.len(), 2);
    assert_eq!(plan.rejected, None);
    let plan = plan_batch(&base(), &names(&[]));
    assert_eq!(plan.targets.len(), 0);
    assert_eq!(plan.rejected, None);
    let plan = plan_batch(&base(), &names(&["", "a"]));
    assert_eq!(plan.targets.len(), 0);
    assert_eq!(plan.rejected, Some(AppError::InvalidPath));
}

#[test]
fn delete_requests_are_batches() {
    let plan = delete_file_targets(&base(), &DeleteFileDto { targets: names(&["a", "CON", "b"]) });
    assert_eq!(plan.targets.len(), 1);
    assert_eq!(plan.rejected, Some(AppError::InvalidPath));
    let plan = delete_folder_targets(&base(), &DeleteFolderDto { targets: names(&["x", "y"]) });
    let paths: Vec<String> = plan.targets.iter().map(|p| p.get_path()).collect();
    assert_eq!(paths, vec!["/data/docs/work/x", "/data/docs/work/y"]);
    assert_eq!(plan.rejected, None);
}

#[test]
fn batch_passes_over_what_does_not_fit() {
    assert_eq!(delete_file_decision(Probe::Missing), BatchStep::Skip);
    assert_eq!(delete_file_decision(Probe::Directory), BatchStep::Skip);
    assert_eq!(delete_file_decision(Probe::File), BatchStep::Remove);
    assert_eq!(delete_file_decision(Probe::Other), BatchStep::Remove);
    assert_eq!(delete_folder_decision(Probe::Missing), BatchStep::Skip);
    assert_eq!(delete_folder_decision(Probe::File), BatchStep::Skip);
    assert_eq!(delete_folder_decision(Probe::Directory), BatchStep::Remove);
    assert_eq!(delete_folder_decision(Probe::Other), BatchStep::Remove);
}

#[test]
fn download_is_offered_under_the_last_name() {
    let target = base().safe_join("report 1.pdf").ok().unwrap();
    assert_eq!(content_disposition(&target), "attachment; filename=\"report 1.pdf\"");
    let root = SafePath::new("/data/docs".to_string());
    assert_eq!(content_disposition(&root), "attachment; filename=\"download\"");
}

fn entry(name: &str, file_type: FileType) -> FileInfo {
    let folder = matches!(file_type, FileType::Folder);
    FileInfo {
        name: name.to_string(),
        path: name.to_string(),
        file_type,
        size: if folder { None } else { Some(name.len() as u64) },
        modified: "2024-01-01 00:00:00".to_string(),
        items: if folder { Some(0) } else { None },
    }
}

fn sorted_names(files: &[FileInfo]) -> Vec<String> {
    sort_files(&files.iter().map(|f| entry(&f.name, f.file_type)).collect())
        .iter()
        .map(|f| f.name.clone())
        .collect()
}

#[test]
fn folders_come_before_files() {
    let files = [
        entry("b.txt", FileType::File),
        entry("zeta", FileType::Folder),
        entry("a.txt", FileType::File),
        entry("alpha", FileType::Folder),
    ];
    assert_eq!(sorted_names(&files), vec!["alpha", "zeta", "a.txt", "b.txt"]);
}

#[test]
fn names_are_ordered_in_lower_case() {
    let files = [
        entry("banana", FileType::File),
        entry("Apple", FileType::File),
        entry("cherry", FileType::File),
        entry("Banana2", FileType::File),
        entry("apple1", FileType::File),
        entry("\u{c9}clair", FileType::File),
        entry("\u{e9}cole", FileType::File),
        entry("Zebra", FileType::File),
    ];
    assert_eq!(
        sorted_names(&files),
        vec!["Apple", "apple1", "banana", "Banana2", "cherry", "Zebra", "\u{c9}clair", "\u{e9}cole"]
    );
}

#[test]
fn a_name_comes_before_every_longer_one_that_starts_with_it() {
    let files = [
        entry("abc", FileType::File),
        entry("ab", FileType::File),
        entry("", FileType::File),
        entry("a", FileType::File),
        entry("abd", FileType::File),
    ];
    assert_eq!(sorted_names(&files), vec!["", "a", "ab", "abc", "abd"]);
}

#[test]
fn entries_that_are_not_told_apart_keep_their_order() {
    let mut files = vec![
        entry("README", FileType::File),
        entry("readme", FileType::File),
        entry("Readme", FileType::File),
        entry("a", FileType::File),
    ];
    files[0].modified = "first".to_string();
    files[1].modified = "second".to_string();
    files[2].modified = "third".to_string();
    let sorted = sort_files(&files);
    let shown: Vec<(&str, &str)> = sorted.iter().map(|f| (f.name.as_str(), f.modified.as_str())).collect();
    assert_eq!(
        shown,
        vec![("a", "2024-01-01 00:00:00"), ("README", "first"), ("readme", "second"), ("Readme", "third")]
    );
}

#[test]
fn sorting_agrees_with_std() {
    let names = [
        "b", "A", "c", "a", "B", "\u{df}", "\u{4e2d}", "Z", "z", "_", "1", "10", "2", "\u{1f600}", "~", "a b", "a-b",
        "AB", "ab", "aB", "Ab", "", "\u{130}", "i",
    ];
    let files: Vec<FileInfo> = names
        .iter()
        .enumerate()
        .map(|(i, n)| entry(n, if i % 3 == 0 { FileType::Folder } else { FileType::File }))
        .collect();
    let mut expected: Vec<(bool, String, usize)> = names
        .iter()
        .enumerate()
        .map(|(i, n)| (i % 3 != 0, n.to_lowercase(), i))
        .collect();
    expected.sort();
    let expected: Vec<&str> = expected.iter().map(|(_, _, i)| names[*i]).collect();
    let sorted = list_response(&files);
    let shown: Vec<&str> = sorted.files.iter().map(|f| f.name.as_str()).collect();
    assert_eq!(shown, expected);
    assert_eq!(sorted.files.len(), names.len());
}

#[test]
fn sorted_entries_keep_their_fields() {
    let mut file = entry("b", FileType::File);
    file.path = "sub/b".to_string();
    file.size = Some(42);
    let mut folder = entry("a", FileType::Folder);
    folder.items = Some(7);
    let sorted = sort_files(&vec![file, folder]);
    assert_eq!(sorted[0].name, "a");
    assert_eq!(sorted[0].items, Some(7));
    assert_eq!(sorted[0].size, None);
    assert_eq!(sorted[1].path, "sub/b");
    assert_eq!(sorted[1].size, Some(42));
    assert_eq!(sorted[1].modified, "2024-01-01 00:00:00");
}

#[test]
fn items_are_counted_without_blocked_names() {
    assert_eq!(count_items(&names(&["a.txt", "b.exe", "c"]), ""), 3);
    assert_eq!(count_items(&names(&["a.txt", "exe", "c"]), "exe,bat"), 2);
    assert_eq!(count_items(&names(&["exe", "bat", "xe,b", "e,bat"]), "exe,bat"), 0);
    assert_eq!(count_items(&names(&["exe,bat!", "ex e"]), "exe,bat"), 2);
    assert_eq!(count_items(&names(&[]), "exe"), 0);
    assert_eq!(count_items(&names(&["", "a"]), "exe"), 1);
    assert_eq!(count_items(&names(&["\u{4e2d}", "\u{6587}x"]), "x\u{4e2d}\u{6587}"), 1);
}
