use corvex::errors::FsError;
use corvex::store::Storage;

#[test]
fn scenario_create_folder_then_file_then_list() {
    let mut st = Storage::new();

    let folder = st.create_folder("notes").unwrap();
    assert_eq!(folder.id, "notes");
    assert_eq!(folder.name, "notes");
    assert!(folder.files.is_empty());
    assert!(folder.subfolders.is_empty());

    let fe = st.create_file("notes/a.md").unwrap();
    assert_eq!(fe.id, "notes/a.md");
    assert_eq!(fe.name, "a.md");

    let root = st.list_all_files();
    assert_eq!(root.id, "");
    assert_eq!(root.name, "");
    assert!(root.files.is_empty());
    assert_eq!(root.subfolders.len(), 1);
    let sub = &root.subfolders[0];
    assert_eq!(sub.id, "notes");
    assert_eq!(sub.name, "notes");
    assert_eq!(sub.files.len(), 1);
    assert_eq!(sub.files[0].id, "notes/a.md");
    assert_eq!(sub.files[0].name, "a.md");
    assert!(sub.subfolders.is_empty());
}

#[test]
fn create_write_read_round_trip() {
    let mut st = Storage::new();
    st.create_file("note.md").unwrap();
    st.save_file_content("note.md", "hello world\n").unwrap();
    let back = st.get_file_content("note.md").unwrap();
    assert_eq!(back, "hello world\n");
}

#[test]
fn create_at_existing_path_fails_and_keeps_content() {
    let mut st = Storage::new();
    st.create_file("a.md").unwrap();
    st.save_file_content("a.md", "original body").unwrap();
    let err = st.create_file("a.md").unwrap_err();
    assert_eq!(err, FsError::AlreadyExists);
    assert_eq!(st.get_file_content("a.md").unwrap(), "original body");
}

#[test]
fn rename_without_extension_fails_before_any_change() {
    let mut st = Storage::new();
    st.create_file("a.md").unwrap();
    st.save_file_content("a.md", "kept").unwrap();
    let err = st.modify_file("a.md", "b").unwrap_err();
    assert!(matches!(err, FsError::InvalidExtension(_)));
    // The source file still exists with its content.
    assert_eq!(st.get_file_content("a.md").unwrap(), "kept");
    assert_eq!(st.get_file_content("b").unwrap_err(), FsError::NotFound);
}

#[test]
fn rename_file_moves_content_and_id() {
    let mut st = Storage::new();
    st.create_folder("a").unwrap();
    st.create_folder("b").unwrap();
    st.create_file("a/x.md").unwrap();
    st.save_file_content("a/x.md", "payload").unwrap();
    let fe = st.modify_file("a/x.md", "b/y.md").unwrap();
    assert_eq!(fe.id, "b/y.md");
    assert_eq!(fe.name, "y.md");
    assert_eq!(st.get_file_content("a/x.md").unwrap_err(), FsError::NotFound);
    assert_eq!(st.get_file_content("b/y.md").unwrap(), "payload");
}

#[test]
fn rename_folder_relabels_every_descendant() {
    let mut st = Storage::new();
    st.create_folder("notes").unwrap();
    st.create_folder("notes/sub").unwrap();
    st.create_file("notes/a.md").unwrap();
    st.create_file("notes/b.md").unwrap();
    st.create_file("notes/sub/c.md").unwrap();
    assert_eq!(st.entries.len(), 5);

    let folder = st.modify_folder("notes", "journal").unwrap();
    assert_eq!(folder.id, "journal");
    assert_eq!(folder.name, "journal");
    // Total entry count is unchanged.
    assert_eq!(st.entries.len(), 5);

    let root = st.list_all_files();
    assert_eq!(root.subfolders.len(), 1);
    let j = &root.subfolders[0];
    assert_eq!(j.id, "journal");
    assert_eq!(j.files.len(), 2);
    for f in &j.files {
        assert!(f.id.starts_with("journal/"));
    }
    assert_eq!(j.subfolders.len(), 1);
    assert_eq!(j.subfolders[0].id, "journal/sub");
    assert_eq!(j.subfolders[0].files.len(), 1);
    assert_eq!(j.subfolders[0].files[0].id, "journal/sub/c.md");
    // Old identifiers are gone.
    assert_eq!(st.get_file_content("notes/a.md").unwrap_err(), FsError::NotFound);
}

#[test]
fn delete_folder_removes_all_descendants_from_listing() {
    let mut st = Storage::new();
    st.create_folder("notes").unwrap();
    st.create_folder("notes/sub").unwrap();
    st.create_file("notes/a.md").unwrap();
    st.create_file("notes/sub/b.md").unwrap();
    st.create_file("keep.md").unwrap();

    st.delete_folder("notes").unwrap();

    let root = st.list_all_files();
    assert!(root.subfolders.is_empty());
    assert_eq!(root.files.len(), 1);
    assert_eq!(root.files[0].id, "keep.md");
    assert_eq!(st.get_file_content("notes/a.md").unwrap_err(), FsError::NotFound);
    assert_eq!(st.get_file_content("notes/sub/b.md").unwrap_err(), FsError::NotFound);
}

#[test]
fn delete_file_then_read_fails() {
    let mut st = Storage::new();
    st.create_file("a.md").unwrap();
    st.delete_file("a.md").unwrap();
    assert_eq!(st.get_file_content("a.md").unwrap_err(), FsError::NotFound);
    assert_eq!(st.delete_file("a.md").unwrap_err(), FsError::NotFound);
}

#[test]
fn create_file_requires_existing_parent() {
    let mut st = Storage::new();
    let err = st.create_file("missing/a.md").unwrap_err();
    assert!(matches!(err, FsError::IoError(_)));
}

#[test]
fn unclean_paths_are_rejected_before_anything_else() {
    let mut st = Storage::new();
    assert_eq!(st.create_file("../a.md").unwrap_err(), FsError::PathEscapesRoot);
    assert_eq!(st.create_file("a//b.md").unwrap_err(), FsError::PathEscapesRoot);
    assert_eq!(st.create_file("a/./b.md").unwrap_err(), FsError::PathEscapesRoot);
    assert_eq!(st.create_file("/a.md").unwrap_err(), FsError::PathEscapesRoot);
    assert_eq!(st.create_file("").unwrap_err(), FsError::PathEscapesRoot);
    assert_eq!(st.create_folder("..").unwrap_err(), FsError::PathEscapesRoot);
    assert_eq!(st.delete_folder("x/../y").unwrap_err(), FsError::PathEscapesRoot);
}

#[test]
fn create_folder_builds_missing_intermediates() {
    let mut st = Storage::new();
    let folder = st.create_folder("x/y/z").unwrap();
    assert_eq!(folder.id, "x/y/z");
    assert_eq!(folder.name, "z");
    let root = st.list_all_files();
    assert_eq!(root.subfolders.len(), 1);
    assert_eq!(root.subfolders[0].id, "x");
    assert_eq!(root.subfolders[0].subfolders[0].id, "x/y");
    assert_eq!(root.subfolders[0].subfolders[0].subfolders[0].id, "x/y/z");
}

#[test]
fn create_folder_over_existing_fails() {
    let mut st = Storage::new();
    st.create_folder("notes").unwrap();
    assert_eq!(st.create_folder("notes").unwrap_err(), FsError::AlreadyExists);
    st.create_file("a.md").unwrap();
    assert_eq!(st.create_folder("a.md").unwrap_err(), FsError::AlreadyExists);
    // An intermediate entry that is a file blocks creation.
    let err = st.create_folder("a.md/deep").unwrap_err();
    assert!(matches!(err, FsError::IoError(_)));
}

#[test]
fn rename_folder_error_cases() {
    let mut st = Storage::new();
    st.create_folder("a").unwrap();
    st.create_folder("b").unwrap();
    assert_eq!(st.modify_folder("missing", "c").unwrap_err(), FsError::NotFound);
    assert_eq!(st.modify_folder("a", "b").unwrap_err(), FsError::AlreadyExists);
    let below = st.modify_folder("a", "a/inner").unwrap_err();
    assert!(matches!(below, FsError::IoError(_)));
    // Renaming a file through the folder operation is NotFound.
    st.create_file("x.md").unwrap();
    assert_eq!(st.modify_folder("x.md", "y").unwrap_err(), FsError::NotFound);
}

#[test]
fn write_to_missing_file_does_not_create_it() {
    let mut st = Storage::new();
    assert_eq!(st.save_file_content("ghost.md", "boo").unwrap_err(), FsError::NotFound);
    assert_eq!(st.get_file_content("ghost.md").unwrap_err(), FsError::NotFound);
}

#[test]
fn list_folders_is_shallow() {
    let mut st = Storage::new();
    st.create_folder("a").unwrap();
    st.create_folder("a/sub").unwrap();
    st.create_file("a/one.md").unwrap();
    st.create_file("top.md").unwrap();
    let folders = st.list_folders();
    assert_eq!(folders.len(), 1);
    assert_eq!(folders[0].id, "a");
    assert_eq!(folders[0].files.len(), 1);
    assert_eq!(folders[0].files[0].name, "one.md");
    assert!(folders[0].subfolders.is_empty());
}
