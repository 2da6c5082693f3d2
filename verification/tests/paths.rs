use bite::paths::{is_image, is_image_path, path_extension};

#[test]
fn image_paths_are_recognised_regardless_of_case() {
    assert!(is_image_path("a/b/photo.PNG"));
    assert!(is_image_path("shot.jpeg"));
    assert!(is_image_path("raw.cr3"));
    assert!(!is_image_path("workflow.bite"));
    assert!(!is_image_path("notes.txt"));
    assert!(!is_image_path("noextension"));
}

#[test]
fn the_extension_follows_the_last_dot_of_the_file_name() {
    assert_eq!(path_extension("a/b.c/archive.tar.gz"), Some("gz".to_string()));
    assert_eq!(path_extension("a/b.c/plain"), None);
    assert_eq!(path_extension(".hidden"), None);
    assert_eq!(path_extension("dir/.hidden.png"), Some("png".to_string()));
    assert_eq!(path_extension("photo.png/"), Some("png".to_string()));
    assert_eq!(path_extension("photo.png/."), Some("png".to_string()));
    assert_eq!(path_extension("trailing."), Some(String::new()));
    assert_eq!(path_extension("up/.."), None);
    assert_eq!(path_extension(""), None);
    assert_eq!(path_extension("/"), None);
}

#[test]
fn hidden_files_and_directories_are_not_pictures() {
    assert!(!is_image(".png"));
    assert!(is_image("folder/.x.TIFF"));
    assert!(!is_image("pictures.png/.."));
    assert!(is_image("3d.3FR"));
}

#[test]
fn the_title_marks_unsaved_edits_and_names_the_file() {
    assert_eq!(bite::paths::window_title(None, false), "Untitled - Bite");
    assert_eq!(bite::paths::window_title(None, true), "*Untitled - Bite");
    assert_eq!(bite::paths::window_title(Some("/tmp/my-workflow.bite"), true), "*my-workflow - Bite");
    assert_eq!(bite::paths::window_title(Some("archive.tar.gz"), false), "archive.tar - Bite");
    assert_eq!(bite::paths::window_title(Some("dir/.hidden"), false), ".hidden - Bite");
    assert_eq!(bite::paths::window_title(Some("/"), false), "Untitled - Bite");
}

#[test]
fn a_branch_lists_its_pictures_by_file_name() {
    let paths = vec!["/in/a.png".to_string(), "b.jpg".to_string(), "dir/..".to_string(), "c/".to_string()];
    assert_eq!(bite::paths::active_names(&paths), ["a.png", "b.jpg", "", "c"]);
    assert_eq!(bite::paths::file_name_text("/"), "");
}
