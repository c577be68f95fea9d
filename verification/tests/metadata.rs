use adb_studio::metadata::{assign_tag, comment_move, mirrored_workflow, moved_comment, workflow_move};
use adb_studio::metadata::{
    cached_checksum, checksum_for_file, comment_quantization_beats, checksum_key, find_same_audio, load_audio_metadata, remember_checksum,
    save_audio_metadata_checked, store_audio_metadata, ChecksumCacheEntry,
};
use adb_studio::metadata::{
    adjacent_workflow_path, comment_path, has_downloaded_audio, recreated_metadata_path,
    record_downloaded_audio, rename_audio_metadata, workflow_path, AudioFileMetadata,
};

fn record(path: &str, current: &str, original: &str) -> AudioFileMetadata {
    AudioFileMetadata::downloaded(String::new(), original.to_string(), current.to_string(), path.to_string())
}

#[test]
fn clamps_rating_to_five_stars() {
    let mut metadata = record("", "", "");
    metadata.rating = 9;
    assert_eq!(metadata.normalized_rating(), 5);
}

#[test]
fn ratings_up_to_five_stay() {
    let mut metadata = record("/w/a.wav", "a.wav", "");
    metadata.rating = 3;
    assert_eq!(metadata.normalized_rating(), 3);
}

#[test]
fn metadata_paths_reject_files_outside_the_workspace() {
    assert_eq!(workflow_path("/workspace", "/tmp/outside.wav", false), None);
    assert_eq!(comment_path("/workspace", "/tmp/outside.wav"), None);
}

#[test]
fn workflow_path_prefers_a_workflow_beside_the_audio_file() {
    assert_eq!(
        workflow_path("/workspace", "/workspace/downloads/song.mp3", true),
        Some("/workspace/downloads/song.mp3.workflow.json".to_string())
    );
    assert_eq!(
        workflow_path("/workspace", "/workspace/downloads/song.mp3", false),
        Some("/workspace/.adbstudio/workflows/downloads/song.mp3.workflow.json".to_string())
    );
    assert_eq!(
        adjacent_workflow_path("/workspace/downloads/song.mp3"),
        Some("/workspace/downloads/song.mp3.workflow.json".to_string())
    );
}

#[test]
fn recreated_metadata_sits_beside_the_workflow() {
    assert_eq!(
        recreated_metadata_path("/w", "/w/a/song.wav", false, false),
        Some("/w/.adbstudio/workflows/a/song.wav.workflow.json.metadata.json".to_string())
    );
    assert_eq!(
        recreated_metadata_path("/w", "/w/a/song.wav", true, false),
        Some("/w/a/song.wav.metadata.json".to_string())
    );
}

#[test]
fn comment_path_mirrors_the_audio_path() {
    assert_eq!(
        comment_path("/ws", "/ws/folder1/folder2/file-name.wav"),
        Some("/ws/.adbstudio/comment/folder1/folder2/file-name.json".to_string())
    );
    assert_eq!(
        comment_path("/ws", "/ws/folder/.hidden"),
        Some("/ws/.adbstudio/comment/folder/.hidden.json".to_string())
    );
}

#[test]
fn download_is_recorded_once_and_needs_an_existing_file() {
    let mut index = Vec::new();
    record_downloaded_audio(&mut index, "abc", "remote-song.wav", "/w/downloads/song.wav");
    record_downloaded_audio(&mut index, "abc", "remote-song.wav", "/w/downloads/song.wav");
    assert_eq!(index.len(), 1);
    assert_eq!(index[0].current_file_name, "song.wav");
    assert!(has_downloaded_audio(&index, "remote-song.wav", &vec!["/w/downloads/song.wav".to_string()]));
    assert!(!has_downloaded_audio(&index, "remote-song.wav", &Vec::new()));
    assert!(!has_downloaded_audio(&index, "other.wav", &vec!["/w/downloads/song.wav".to_string()]));
}

#[test]
fn download_of_a_new_name_adds_a_record() {
    let mut index = vec![record("/w/x.wav", "x.wav", "x-remote.wav")];
    record_downloaded_audio(&mut index, "", "y-remote.wav", "/w/y.wav");
    assert_eq!(index.len(), 2);
    assert_eq!(index[1].original_file_name, "y-remote.wav");
    assert_eq!(index[1].file_path, "/w/y.wav");
}

#[test]
fn rename_moves_records_under_a_folder() {
    let mut index = vec![record("/w/old/nested/track.wav", "track.wav", ""), record("/w/other.wav", "other.wav", "")];
    assert!(rename_audio_metadata(&mut index, "/w/old", "/w/new"));
    assert_eq!(index[0].file_path, "/w/new/nested/track.wav");
    assert_eq!(index[0].current_file_name, "track.wav");
    assert_eq!(index[1].file_path, "/w/other.wav");
}

#[test]
fn rename_of_a_file_keeps_its_original_name() {
    let mut index = vec![record("/w/source.wav", "source.wav", "original.wav")];
    assert!(rename_audio_metadata(&mut index, "/w/source.wav", "/w/final.mp3"));
    assert_eq!(index[0].original_file_name, "original.wav");
    assert_eq!(index[0].current_file_name, "final.mp3");
    assert_eq!(index[0].file_path, "/w/final.mp3/");
    assert!(!rename_audio_metadata(&mut index, "/w/elsewhere", "/w/x"));
}

#[test]
fn tags_are_given_once_and_taken_away_entirely() {
    let mut ids = vec![1u64, 2, 1];
    assign_tag(&mut ids, 3, true);
    assert_eq!(ids, vec![1, 2, 1, 3]);
    assign_tag(&mut ids, 3, true);
    assert_eq!(ids, vec![1, 2, 1, 3]);
    assign_tag(&mut ids, 1, false);
    assert_eq!(ids, vec![2, 3]);
    assign_tag(&mut ids, 9, false);
    assert_eq!(ids, vec![2, 3]);
}

#[test]
fn renamed_audio_file_moves_its_private_workflow() {
    assert_eq!(
        workflow_move("/w", "/w/old.wav", "/w/new.wav", false, false, false),
        Some((
            "/w/.adbstudio/workflows/old.wav.workflow.json".to_string(),
            "/w/.adbstudio/workflows/new.wav.workflow.json".to_string()
        ))
    );
    assert_eq!(
        workflow_move("/w", "/w/a/old.flac", "/w/a/new.flac", false, true, true),
        Some(("/w/a/old.flac.workflow.json".to_string(), "/w/a/new.flac.workflow.json".to_string()))
    );
    assert_eq!(workflow_move("/w", "/w/notes.txt", "/w/n.txt", false, false, false), None);
}

#[test]
fn renamed_folder_moves_its_workflow_subtree() {
    assert_eq!(
        workflow_move("/w", "/w/old", "/w/new", true, false, false),
        Some(("/w/.adbstudio/workflows/old".to_string(), "/w/.adbstudio/workflows/new".to_string()))
    );
    assert_eq!(mirrored_workflow("/w", "/elsewhere/x"), "/elsewhere/x");
}

#[test]
fn comment_files_move_with_their_audio_file() {
    assert_eq!(
        comment_move("/ws", "/ws/a/song.wav", "/ws/b/song.wav", false),
        Some((
            "/ws/.adbstudio/comment/a/song.json".to_string(),
            "/ws/.adbstudio/comment/b/song.json".to_string()
        ))
    );
    assert_eq!(comment_move("/ws", "/ws/a/song.wav", "/tmp/song.wav", false), None);
}

#[test]
fn comment_folders_move_with_their_folder() {
    assert_eq!(
        comment_move("/ws", "/ws/a", "/ws/b/c", true),
        Some(("/ws/.adbstudio/comment/a".to_string(), "/ws/.adbstudio/comment/b/c".to_string()))
    );
    assert_eq!(comment_move("/ws", "/other/a", "/ws/b", true), None);
}

#[test]
fn moved_comment_follows_its_file_or_folder() {
    let m = record("/ws/a/song.wav", "song.wav", "song.wav");
    let same = moved_comment(m.clone(), "/ws/a/song.wav", "/ws/b/tune.wav").unwrap();
    assert_eq!(same.file_path, "/ws/b/tune.wav");
    assert_eq!(same.current_file_name, "tune.wav");
    assert_eq!(same.original_file_name, "song.wav");
    let inside = moved_comment(m.clone(), "/ws/a", "/ws/c").unwrap();
    assert_eq!(inside.file_path, "/ws/c/song.wav");
    assert_eq!(inside.current_file_name, "song.wav");
    assert!(moved_comment(m, "/ws/x", "/ws/c").is_none());
}

fn with_checksum(path: &str, checksum: &str, rating: u8) -> AudioFileMetadata {
    let mut m = record(path, "", "");
    m.checksum = checksum.to_string();
    m.rating = rating;
    m
}

#[test]
fn finds_a_record_by_checksum_or_by_path() {
    let index = vec![with_checksum("/w/a.wav", "", 0), with_checksum("/w/b.wav", "beef", 0)];
    assert_eq!(find_same_audio(&index, "beef", None), Some(1));
    assert_eq!(find_same_audio(&index, "", Some("/w/a.wav")), Some(0));
    assert_eq!(find_same_audio(&index, "", None), None);
    assert_eq!(find_same_audio(&index, "cafe", Some("/w/c.wav")), None);
}

#[test]
fn storing_replaces_the_record_of_the_same_file() {
    let mut index = vec![with_checksum("/w/a.wav", "aa", 1), with_checksum("/w/b.wav", "bb", 2)];
    store_audio_metadata(&mut index, with_checksum("/w/moved.wav", "bb", 5));
    assert_eq!(index.len(), 2);
    assert_eq!(index[1].file_path, "/w/moved.wav");
    assert_eq!(index[1].rating, 5);
    store_audio_metadata(&mut index, with_checksum("/w/c.wav", "cc", 3));
    assert_eq!(index.len(), 3);
    assert_eq!(index[2].file_path, "/w/c.wav");
}

#[test]
fn saved_metadata_takes_the_file_path_and_checksum() {
    let mut index = Vec::new();
    let (saved, comment) =
        save_audio_metadata_checked(&mut index, "/w", "/w/d/track.wav", with_checksum("", "", 2), "sum");
    assert_eq!(saved.checksum, "sum");
    assert_eq!(saved.file_path, "/w/d/track.wav");
    assert_eq!(saved.current_file_name, "track.wav");
    assert_eq!(comment, Some("/w/.adbstudio/comment/d/track.json".to_string()));
    assert_eq!(index.len(), 1);
    assert_eq!(index[0].rating, 2);
    let (_, outside) =
        save_audio_metadata_checked(&mut index, "/w", "/elsewhere/x.wav", with_checksum("", "k", 1), "");
    assert_eq!(outside, None);
    assert_eq!(index.len(), 2);
}

#[test]
fn round_trips_audio_rating_through_the_index() {
    let mut index = Vec::new();
    save_audio_metadata_checked(&mut index, "/w", "/w/track.wav", with_checksum("/w/track.wav", "", 2), "");
    let (loaded, relinked) = load_audio_metadata(&mut index, None, "", "/w/track.wav");
    assert_eq!(loaded.rating, 2);
    assert!(!relinked);
}

#[test]
fn moved_file_keeps_its_checksum_linked_record() {
    let mut index = Vec::new();
    save_audio_metadata_checked(&mut index, "/w", "/w/old.wav", with_checksum("", "", 4), "c0ffee");
    let (moved, relinked) = load_audio_metadata(&mut index, None, "c0ffee", "/w/new.wav");
    assert_eq!(moved.rating, 4);
    assert_eq!(moved.checksum, "c0ffee");
    assert_eq!(moved.file_path, "/w/old.wav");
    assert!(!relinked);
}

#[test]
fn a_record_with_another_checksum_is_linked_anew() {
    let mut index = vec![with_checksum("/w/a.wav", "old", 3)];
    let (loaded, relinked) = load_audio_metadata(&mut index, None, "new", "/w/a.wav");
    assert!(relinked);
    assert_eq!(loaded.checksum, "new");
    assert_eq!(loaded.rating, 3);
    assert_eq!(index.len(), 1);
    assert_eq!(index[0].checksum, "new");
    let (empty, relinked) = load_audio_metadata(&mut Vec::new(), None, "", "/w/none.wav");
    assert!(!relinked);
    assert_eq!(empty.file_path, "");
    let (side, _) =
        load_audio_metadata(&mut index, Some(with_checksum("/w/a.wav", "new", 1)), "new", "/w/a.wav");
    assert_eq!(side.rating, 1);
}

#[test]
fn checksum_keys_are_workspace_relative_with_slashes() {
    assert_eq!(checksum_key("/w", "/w/a/b.wav"), Some("a/b.wav".to_string()));
    assert_eq!(checksum_key("/w", "/w/a\\b.wav"), Some("a/b.wav".to_string()));
    assert_eq!(checksum_key("/w", "/x/b.wav"), None);
}

fn entry(path: &str, size: u64, modified: u128, checksum: &str) -> ChecksumCacheEntry {
    ChecksumCacheEntry { path: path.to_string(), size, modified_nanos: modified, checksum: checksum.to_string() }
}

#[test]
fn cached_checksum_serves_an_unchanged_file() {
    let mut cache = Vec::new();
    remember_checksum(&mut cache, entry("track.wav", 5, 7, "first"));
    assert_eq!(cached_checksum(&cache, "track.wav", 5, 7), Some("first".to_string()));
    assert_eq!(cached_checksum(&cache, "track.wav", 6, 7), None);
    assert_eq!(cached_checksum(&cache, "track.wav", 5, 8), None);
    remember_checksum(&mut cache, entry("other.wav", 1, 1, "o"));
    remember_checksum(&mut cache, entry("track.wav", 6, 9, "second"));
    assert_eq!(cache.len(), 2);
    assert_eq!(cache[0].path, "other.wav");
    assert_eq!(cached_checksum(&cache, "track.wav", 6, 9), Some("second".to_string()));
    assert_eq!(cached_checksum(&cache, "track.wav", 5, 7), None);
}

#[test]
fn quantization_entries_name_their_beats() {
    assert_eq!(comment_quantization_beats(0), 0);
    assert_eq!(comment_quantization_beats(1), 1);
    assert_eq!(comment_quantization_beats(4), 4);
    assert_eq!(comment_quantization_beats(5), 8);
    assert_eq!(comment_quantization_beats(6), 16);
    assert_eq!(comment_quantization_beats(7), 0);
    assert_eq!(comment_quantization_beats(-1), 0);
}

#[test]
fn checksums_come_from_the_cache_or_the_content() {
    let mut cache = Vec::new();
    assert_eq!(
        checksum_for_file(&mut cache, "/w", "/x/a.wav", 3, 1, Some(b"abc")),
        Err("file is outside workspace".to_string())
    );
    assert!(cache.is_empty());
    assert_eq!(checksum_for_file(&mut cache, "/w", "/w/a.wav", 3, 1, None), Ok(None));
    let abc = "ba7816bf8f01cfea414140de5dae2223b00361a396177a9cb410ff61f20015ad".to_string();
    assert_eq!(
        checksum_for_file(&mut cache, "/w", "/w/a.wav", 3, 1, Some(b"abc")),
        Ok(Some(abc.clone()))
    );
    assert_eq!(cache.len(), 1);
    assert_eq!(cache[0].path, "a.wav");
    assert_eq!(checksum_for_file(&mut cache, "/w", "/w/a.wav", 3, 1, None), Ok(Some(abc)));
    assert_eq!(checksum_for_file(&mut cache, "/w", "/w/a.wav", 4, 1, None), Ok(None));
}
