use adb_studio::paths::{join_path, strip_prefix};

#[test]
fn stripping_the_folder_off_a_joined_path_gives_the_relative_parts_back() {
    let joined = join_path("/w", "a/b.flac");
    assert_eq!(joined, "/w/a/b.flac");
    assert_eq!(strip_prefix(&joined, "/w"), Some(vec!["a".to_string(), "b.flac".to_string()]));
    let joined = join_path("/w/", "x//y");
    assert_eq!(strip_prefix(&joined, "/w/"), Some(vec!["x".to_string(), "y".to_string()]));
    assert_eq!(strip_prefix("/elsewhere/z", "/w"), None);
}
