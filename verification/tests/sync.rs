use adb_studio::sync::{
    check_remote_files, downloaded_one, file_action, poll_interval_ms, workflow_remote_file, FileAction,
    SyncProgress, config_path, download_index_path, progress_with_index, sort_remote_files,
    validate_request_config, workflow_local_path, DownloadIndex, RemoteFile, SyncConfig,
    SyncController, SyncError, DEFAULT_INTERVAL_MS, DEFAULT_LOCAL_DIRECTORY,
    DEFAULT_REMOTE_DIRECTORY,
};

fn remote(name: &str, path: &str, modified: u64) -> RemoteFile {
    RemoteFile { name: name.to_string(), path: path.to_string(), modified }
}

#[test]
fn defaults_are_stable() {
    let config = SyncConfig::default();
    assert_eq!(config.remote_directory, DEFAULT_REMOTE_DIRECTORY);
    assert_eq!(config.local_directory, DEFAULT_LOCAL_DIRECTORY);
    assert_eq!(config.interval_ms, DEFAULT_INTERVAL_MS);
}

#[test]
fn normalization_removes_url_slashes_and_clamps_interval() {
    let config = SyncConfig {
        url: " https://example.test/// ".to_string(),
        interval_ms: 1,
        ..SyncConfig::default()
    }
    .normalized();
    assert_eq!(config.url, "https://example.test");
    assert_eq!(config.interval_ms, 100);
}

#[test]
fn local_directory_rejects_escape() {
    let config = SyncConfig { local_directory: "../outside".to_string(), ..SyncConfig::default() };
    assert!(config.local_path("/workspace").is_err());
}

#[test]
fn local_directory_joins_the_workspace() {
    let config = SyncConfig::default();
    assert_eq!(config.local_path("/workspace").unwrap(), "/workspace/downloads");
    let absolute = SyncConfig { local_directory: "/tmp/x".to_string(), ..SyncConfig::default() };
    assert_eq!(
        absolute.local_path("/workspace"),
        Err(SyncError::InvalidConfig("Download directory must be inside the workspace".to_string()))
    );
}

#[test]
fn normalization_keeps_long_intervals_and_trims_remote_directory() {
    let config = SyncConfig {
        url: "http://host".to_string(),
        remote_directory: "  output/audio \n".to_string(),
        local_directory: "dl".to_string(),
        interval_ms: 5000,
    }
    .normalized();
    assert_eq!(config.url, "http://host");
    assert_eq!(config.remote_directory, "output/audio");
    assert_eq!(config.interval_ms, 5000);
}

#[test]
fn remote_files_are_sorted_newest_first() {
    let mut files = vec![remote("older.mp3", "/remote/older.mp3", 1), remote("newer.mp3", "/remote/newer.mp3", 2)];
    sort_remote_files(&mut files);
    assert_eq!(files[0].name, "newer.mp3");
    assert_eq!(files[1].name, "older.mp3");
}

#[test]
fn sorting_keeps_files_of_the_same_time_in_order() {
    let mut files = vec![
        remote("a.mp3", "/a", 5),
        remote("b.mp3", "/b", 9),
        remote("c.mp3", "/c", 5),
        remote("d.mp3", "/d", 1),
    ];
    sort_remote_files(&mut files);
    let names: Vec<&str> = files.iter().map(|f| f.name.as_str()).collect();
    assert_eq!(names, vec!["b.mp3", "a.mp3", "c.mp3", "d.mp3"]);
}

#[test]
fn workflow_path_mirrors_audio_path_inside_private_directory() {
    assert_eq!(
        workflow_local_path("/workspace", "folder1/folder2/song.mp3", false),
        "/workspace/.adbstudio/workflows/folder1/folder2/song.mp3.workflow.json"
    );
}

#[test]
fn configuration_files_live_in_the_private_directory() {
    assert_eq!(config_path("/workspace"), "/workspace/.adbstudio/sync.json");
    assert_eq!(download_index_path("/workspace/"), "/workspace/.adbstudio/sync-downloads.json");
}

#[test]
fn completed_record_replaces_earlier_record_of_the_same_file() {
    let config = SyncConfig { url: "https://comfy.example".to_string(), ..SyncConfig::default() };
    let file = remote("nested/song.mp3", "/output/audio/song.mp3", 0);
    let mut index = DownloadIndex::new();
    assert!(!index.contains_completed(&config, &file));
    index.record_completed_at(&config, &file, 10, 100);
    index.record_completed_at(&config, &file, 1234, 200);
    assert_eq!(index.downloads.len(), 1);
    assert_eq!(index.downloads[0].status, "completed");
    assert_eq!(index.downloads[0].size, 1234);
    assert_eq!(index.downloads[0].downloaded_at, 200);
    assert_eq!(index.downloads[0].filename, "song.mp3");
    assert!(index.contains_completed(&config, &file));
    let other = SyncConfig { url: "https://other".to_string(), ..SyncConfig::default() };
    assert!(!index.contains_completed(&other, &file));
}

#[test]
fn progress_counts_matching_basenames() {
    let files = vec![remote("nested/song.mp3", "/remote/song.mp3", 2), remote("other.mp3", "/remote/other.mp3", 1)];
    let local = vec!["song.mp3".to_string()];
    let progress = progress_with_index(&files, &local, &SyncConfig::default(), &DownloadIndex::new());
    assert_eq!(progress.present, 1);
    assert_eq!(progress.total, 2);
}

#[test]
fn completed_record_counts_after_local_file_is_removed() {
    let config = SyncConfig { url: "https://comfy.example".to_string(), ..SyncConfig::default() };
    let file = remote("song.mp3", "/output/audio/song.mp3", 0);
    let mut index = DownloadIndex::new();
    index.record_completed(&config, &file, 1234);
    assert_eq!(index.downloads[0].size, 1234);
    let progress = progress_with_index(&[file].to_vec(), &Vec::new(), &config, &index);
    assert_eq!(progress.present, 1);
}

#[test]
fn controller_counts_runs_and_stops_once() {
    let mut controller = SyncController::new();
    assert_eq!(controller.generation(), 0);
    assert!(!controller.stop());
    assert_eq!(controller.start(), 1);
    assert_eq!(controller.start(), 2);
    assert!(controller.stop());
    assert!(!controller.stop());
    assert_eq!(controller.generation(), 2);
    controller.generation = u64::MAX;
    assert_eq!(controller.start(), 0);
}

#[test]
fn request_configuration_is_validated_in_order() {
    let mut config = SyncConfig::default();
    assert_eq!(
        validate_request_config(&config),
        Err(SyncError::InvalidConfig("ComfyUI URL is required".to_string()))
    );
    config.url = "ftp://host".to_string();
    assert_eq!(
        validate_request_config(&config),
        Err(SyncError::InvalidConfig("ComfyUI URL must start with http:// or https://".to_string()))
    );
    config.url = "https://host".to_string();
    config.remote_directory = String::new();
    assert_eq!(
        validate_request_config(&config),
        Err(SyncError::InvalidConfig("Remote directory is required".to_string()))
    );
    config.remote_directory = "output".to_string();
    assert_eq!(validate_request_config(&config), Ok(()));
}

#[test]
fn errors_read_as_messages() {
    assert_eq!(SyncError::Io("disk full".to_string()).message(), "File sync failed: disk full");
    assert_eq!(SyncError::Request("timeout".to_string()).message(), "ComfyUI request failed: timeout");
    assert_eq!(SyncError::Response("bad".to_string()).message(), "bad");
}

#[test]
fn a_pass_downloads_only_missing_unrecorded_files() {
    let config = SyncConfig { url: "http://s".to_string(), ..SyncConfig::default() };
    let mut index = DownloadIndex::new();
    let file = remote("output/audio/a.flac", "output/audio/a.flac", 1);
    assert_eq!(file_action(&config, &index, &file, false), FileAction::Download("a.flac".to_string()));
    assert_eq!(file_action(&config, &index, &file, true), FileAction::Keep("a.flac".to_string()));
    index.record_completed(&config, &file, 10);
    assert_eq!(file_action(&config, &index, &file, false), FileAction::Keep("a.flac".to_string()));
    assert_eq!(file_action(&config, &index, &remote("", "", 1), false), FileAction::Skip);
}

#[test]
fn workflow_of_a_remote_file_sits_beside_it() {
    let w = workflow_remote_file(&remote("a.flac", "output/a.flac", 7));
    assert_eq!(w.name, "a.flac.workflow.json");
    assert_eq!(w.path, "output/a.flac.workflow.json");
    assert_eq!(w.modified, 7);
}

#[test]
fn progress_and_interval_steps() {
    let p = downloaded_one(&SyncProgress { present: 2, total: 5 });
    assert_eq!((p.present, p.total), (3, 5));
    let config = SyncConfig { interval_ms: 20, ..SyncConfig::default() };
    assert_eq!(poll_interval_ms(&config), 100);
    assert_eq!(poll_interval_ms(&SyncConfig::default()), DEFAULT_INTERVAL_MS);
}

#[test]
fn a_file_list_with_a_blank_name_or_path_is_refused() {
    assert_eq!(check_remote_files(&vec![remote("a.flac", "x/a.flac", 1)]), Ok(()));
    assert_eq!(
        check_remote_files(&vec![remote("a.flac", "x/a.flac", 1), remote("  ", "x/b.flac", 2)]),
        Err(SyncError::Response("ComfyUI returned a file without a name or path".to_string()))
    );
    assert!(check_remote_files(&vec![remote("a", " \t", 1)]).is_err());
}
