use adb_studio::file_system::{is_internal_path, selected_target};
use adb_studio::file_system::{
    build_visible_rows, sort_entries, DirEntryInfo, DirListing, FileKind, TreeState,
};

fn entry(path: &str, name: &str, is_dir: bool) -> DirEntryInfo {
    DirEntryInfo::new(path.to_string(), name.to_string(), is_dir)
}

#[test]
fn file_kinds_follow_the_extension() {
    assert!(FileKind::from_path("/w/a.FLAC", false) == FileKind::Audio);
    assert!(FileKind::from_path("/w/a.ogg", false) == FileKind::Other);
    assert!(FileKind::from_path("/w/model.safetensors", false) == FileKind::Safetensors);
    assert!(FileKind::from_path("/w/a.json", false) == FileKind::Json);
    assert!(FileKind::from_path("/w/a.json", true) == FileKind::Directory);
    assert_eq!(FileKind::Directory.as_str(), "dir");
    assert_eq!(FileKind::Other.as_str(), "other");
}

#[test]
fn entries_list_folders_first_then_names_ignoring_case() {
    let mut entries = vec![
        entry("/w/b.mp3", "b.mp3", false),
        entry("/w/Zeta", "Zeta", true),
        entry("/w/A.mp3", "A.mp3", false),
        entry("/w/alpha", "alpha", true),
    ];
    sort_entries(&mut entries);
    let names: Vec<&str> = entries.iter().map(|e| e.name.as_str()).collect();
    assert_eq!(names, vec!["alpha", "Zeta", "A.mp3", "b.mp3"]);
}

#[test]
fn toggling_opens_and_closes_a_folder() {
    let mut tree = TreeState::new("/w".to_string());
    assert!(tree.is_expanded("/w"));
    tree.toggle("/w/a");
    assert!(tree.is_expanded("/w/a/"));
    tree.toggle("/w//a");
    assert!(!tree.is_expanded("/w/a"));
    assert!(tree.is_expanded("/w"));
}

#[test]
fn selecting_a_path_opens_the_folders_above_it_up_to_the_root() {
    let mut tree = TreeState::new("/w".to_string());
    tree.select_and_expand("/w/a/b/c.mp3");
    assert_eq!(tree.selected.as_deref(), Some("/w/a/b/c.mp3"));
    assert!(tree.is_expanded("/w/a/b"));
    assert!(tree.is_expanded("/w/a"));
    assert!(!tree.is_expanded("/"));
    assert!(!tree.is_expanded("/w/a/b/c.mp3"));
}

#[test]
fn visible_rows_descend_into_open_folders() {
    let mut tree = TreeState::new("/w".to_string());
    tree.toggle("/w/a");
    tree.select("/w/a/x.mp3");
    let listings = vec![
        DirListing {
            dir: "/w".to_string(),
            entries: vec![entry("/w/song.mp3", "song.mp3", false), entry("/w/a", "a", true), entry("/w/b", "b", true)],
        },
        DirListing { dir: "/w/a".to_string(), entries: vec![entry("/w/a/x.mp3", "x.mp3", false)] },
    ];
    let rows = build_visible_rows(&tree, &listings);
    let shown: Vec<(&str, i32, bool, bool)> =
        rows.iter().map(|r| (r.name.as_str(), r.depth, r.is_expanded, r.is_selected)).collect();
    assert_eq!(
        shown,
        vec![("a", 0, true, false), ("x.mp3", 1, false, true), ("b", 0, false, false), ("song.mp3", 0, false, false)]
    );
}

#[test]
fn internal_paths_are_those_under_the_private_folder() {
    assert!(is_internal_path("/w/.adbstudio/workflows/a.json"));
    assert!(!is_internal_path("/w/music/a.flac"));
    assert!(!is_internal_path("/w/.adbstudio2/a"));
}

#[test]
fn pasted_files_go_to_the_selected_folder_or_that_of_the_selected_file() {
    assert_eq!(selected_target(Some("/w/a"), true, Some("/w")), Some("/w/a".to_string()));
    assert_eq!(selected_target(Some("/w/a/b.flac"), false, Some("/w")), Some("/w/a".to_string()));
    assert_eq!(selected_target(None, false, Some("/w")), Some("/w".to_string()));
    assert_eq!(selected_target(Some("/"), false, Some("/w")), Some("/w".to_string()));
    assert_eq!(selected_target(None, false, None), None);
}
