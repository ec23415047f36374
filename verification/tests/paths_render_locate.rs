use corvex::errors::FsError;
use corvex::paths::{validate_extension, compute_id, join_under, is_clean_string};
use corvex::render::interpret_render_outcome;
use corvex::locate::{get_storage_dir, get_storage_directory, storage_path_for};
use corvex::walk::snapshot_folder_tree;

#[test]
fn extension_allow_list() {
    assert!(validate_extension("a.md").is_ok());
    assert!(validate_extension("paper.tex").is_ok());
    assert!(validate_extension("notes/deep/a.md").is_ok());
    assert!(validate_extension(".md").is_ok());

    let err = validate_extension("a.txt").unwrap_err();
    assert_eq!(
        err,
        FsError::InvalidExtension("Unsupported file extension: .txt".to_string())
    );
    let err = validate_extension("plain").unwrap_err();
    assert_eq!(
        err,
        FsError::InvalidExtension("File must have an extension".to_string())
    );
    let err = validate_extension("trailing.").unwrap_err();
    assert_eq!(
        err,
        FsError::InvalidExtension("Unsupported file extension: .".to_string())
    );
    // Only the final segment counts.
    let err = validate_extension("dir.md/bar").unwrap_err();
    assert_eq!(
        err,
        FsError::InvalidExtension("File must have an extension".to_string())
    );
}

#[test]
fn compute_id_round_trips_with_join() {
    let root = "/home/user/corvex/data";
    let abs = join_under(root, "notes/a.md");
    assert_eq!(abs, "/home/user/corvex/data/notes/a.md");
    assert_eq!(compute_id(&abs, root).unwrap(), "notes/a.md");
    // The root itself is the empty identifier.
    assert_eq!(compute_id(root, root).unwrap(), "");
    // Paths outside the root are rejected.
    assert_eq!(
        compute_id("/etc/passwd", root).unwrap_err(),
        FsError::PathEscapesRoot
    );
    assert_eq!(
        compute_id("/home/user/corvex/datax/a.md", root).unwrap_err(),
        FsError::PathEscapesRoot
    );
}

#[test]
fn clean_path_gate() {
    assert!(is_clean_string("a.md"));
    assert!(is_clean_string("notes/sub/a.md"));
    assert!(!is_clean_string(""));
    assert!(!is_clean_string("/abs"));
    assert!(!is_clean_string("a/"));
    assert!(!is_clean_string("a//b"));
    assert!(!is_clean_string(".."));
    assert!(!is_clean_string("a/../b"));
    assert!(!is_clean_string("./a"));
}

#[test]
fn render_failure_surfaces_diagnostics() {
    let r = interpret_render_outcome(false, "! Undefined control sequence.".to_string(), None);
    match r.unwrap_err() {
        FsError::RenderError(diag) => {
            assert!(!diag.is_empty());
            assert_eq!(diag, "! Undefined control sequence.");
        },
        _ => panic!("expected a render failure"),
    }
}

#[test]
fn render_success_returns_output_bytes() {
    let pdf = vec![b'%', b'P', b'D', b'F', b'-', b'1'];
    let r = interpret_render_outcome(true, String::new(), Some(pdf.clone()));
    let bytes = r.unwrap();
    assert!(!bytes.is_empty());
    assert_eq!(&bytes[0..4], b"%PDF");
    assert_eq!(bytes, pdf);
}

#[test]
fn render_success_without_output_is_io_error() {
    let r = interpret_render_outcome(true, String::new(), None);
    assert!(matches!(r.unwrap_err(), FsError::IoError(_)));
}

#[test]
fn storage_root_is_under_home() {
    assert_eq!(storage_path_for("/home/u"), "/home/u/corvex/data");
    // In an ordinary environment a home directory exists.
    let p = get_storage_dir().unwrap();
    assert!(p.ends_with("/corvex/data"));
    let q = get_storage_directory().unwrap();
    assert_eq!(p, q);
}

#[test]
fn snapshot_of_a_real_directory_tree() {
    let dir = tempfile::tempdir().unwrap();
    let sub = tempfile::tempdir_in(dir.path()).unwrap();
    let file = tempfile::Builder::new()
        .prefix("note")
        .suffix(".md")
        .tempfile_in(sub.path())
        .unwrap();

    let root = dir.path().to_str().unwrap();
    let tree = snapshot_folder_tree(root).unwrap();
    assert_eq!(tree.id, "");
    assert!(tree.files.is_empty());
    assert_eq!(tree.subfolders.len(), 1);
    let subfolder = &tree.subfolders[0];
    assert_eq!(subfolder.files.len(), 1);
    assert!(subfolder.files[0].name.starts_with("note"));
    assert!(subfolder.files[0].name.ends_with(".md"));
    assert!(subfolder.files[0].id.ends_with(&subfolder.files[0].name));
    drop(file);
}

#[test]
fn error_messages_describe_each_failure() {
    assert_eq!(FsError::NotFound.message(), "entry does not exist");
    assert_eq!(FsError::AlreadyExists.message(), "entry already exists");
    assert_eq!(FsError::PathEscapesRoot.message(), "path escapes the storage root");
    assert_eq!(
        FsError::StorageUnavailable.message(),
        "unable to determine home directory"
    );
    assert_eq!(FsError::EncodingError.message(), "file content is not valid text");
    assert_eq!(FsError::IoError("disk full".to_string()).message(), "disk full");
    assert_eq!(FsError::RenderError("bad input".to_string()).message(), "bad input");
    assert_eq!(
        FsError::ProcessLaunchError("no renderer".to_string()).message(),
        "no renderer"
    );
    assert_eq!(
        FsError::InvalidExtension("File must have an extension".to_string()).message(),
        "File must have an extension"
    );
}
