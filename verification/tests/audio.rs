use adb_studio::metadata::{StemExport, StemExportManifest, StemFile};
use adb_studio::audio::{raster_cache_bytes, raster_from_cache, waveform_cache_key, RASTER_HEIGHT, RASTER_WIDTH};
use adb_studio::audio::{manifest_output_folder, record_stem_export, to_forward_slashes};
use adb_studio::audio::{
    cache_path, raster_cache_path, find_export, percent_text, split_output, stems_intact, codec_args, collect_files, expected_output_directory, format_duration, is_audio,
    normalized_output_folder, pytorch_index_url, relative_path, request_audio_generation,
    row_index, selected_sources, user_comment_subtitle, LoadRequest, StemJob,
};

#[test]
fn time_formatters_use_fixed_audio_display_formats() {
    assert_eq!(format_duration(125), "02:05");
}

#[test]
fn durations_of_an_hour_and_more_keep_counting_minutes() {
    assert_eq!(format_duration(0), "00:00");
    assert_eq!(format_duration(59), "00:59");
    assert_eq!(format_duration(3600), "60:00");
    assert_eq!(format_duration(6001), "100:01");
}

#[test]
fn output_folder_is_workspace_relative() {
    assert_eq!(normalized_output_folder("").unwrap(), "");
    assert!(normalized_output_folder("../outside").is_err());
    assert!(normalized_output_folder("/outside").is_err());
    let job = StemJob {
        workspace: "workspace".into(),
        source: "workspace/song.wav".into(),
        output_folder: "stems".into(),
        format: "flac".into(),
        overwrite: false,
    };
    assert_eq!(expected_output_directory(&job).unwrap(), "workspace/stems/song");
}

#[test]
fn source_without_a_name_has_no_output_directory() {
    let job = StemJob {
        workspace: "workspace".into(),
        source: "workspace/..".into(),
        output_folder: " stems ".into(),
        format: "flac".into(),
        overwrite: false,
    };
    assert_eq!(expected_output_directory(&job), Err("Source file has no usable name".to_string()));
}

#[test]
fn audio_files_are_recognised_by_extension() {
    assert!(is_audio("/music/Song.FLAC"));
    assert!(is_audio("a/b.ogg"));
    assert!(!is_audio("a/b.json"));
    assert!(!is_audio("a/.mp3"));
    assert!(!is_audio("a/b"));
}

#[test]
fn collected_files_are_audio_in_path_order() {
    let paths = vec![
        "/w/b.mp3".to_string(),
        "/w/notes.txt".to_string(),
        "/w/a/z.wav".to_string(),
        "/w/a.flac".to_string(),
    ];
    assert_eq!(collect_files(&paths), vec!["/w/a/z.wav", "/w/a.flac", "/w/b.mp3"]);
}

#[test]
fn subtitle_is_the_first_line_with_text() {
    assert_eq!(user_comment_subtitle("\n   \n  first line  \nsecond"), "first line");
    assert_eq!(user_comment_subtitle(""), "");
    assert_eq!(user_comment_subtitle(" \r\n\t"), "");
}

#[test]
fn rows_are_found_by_path() {
    let rows = vec!["/a/x.mp3".to_string(), "/a/y.mp3".to_string(), "/a//x.mp3".to_string()];
    assert_eq!(row_index(&rows, "/a/x.mp3"), Some(2));
    assert_eq!(row_index(&rows, "/a/y.mp3"), Some(1));
    assert_eq!(row_index(&rows, "/a/z.mp3"), None);
}

#[test]
fn selection_is_used_only_when_it_holds_the_source() {
    let selected = vec!["/a".to_string(), "/b".to_string()];
    assert_eq!(selected_sources(&selected, "/b"), selected);
    assert_eq!(selected_sources(&selected, "/c"), vec!["/c".to_string()]);
}

#[test]
fn stem_codecs_and_wheel_index() {
    assert_eq!(codec_args("wav"), vec!["-c:a", "pcm_s24le"]);
    assert_eq!(codec_args("mp3"), vec!["-c:a", "libmp3lame", "-b:a", "320k"]);
    assert_eq!(codec_args("flac"), vec!["-c:a", "flac"]);
    assert_eq!(pytorch_index_url("rocm"), "https://download.pytorch.org/whl/rocm6.3");
    assert_eq!(pytorch_index_url("cuda"), "https://download.pytorch.org/whl/cpu");
}

#[test]
fn relative_paths_stay_inside_the_workspace() {
    assert_eq!(relative_path("/w", "/w/stems/song/drums.flac").unwrap(), "stems/song/drums.flac");
    assert!(relative_path("/w", "/elsewhere/x").is_err());
}

#[test]
fn waveform_requests_cover_the_rows_around_the_start() {
    let mut state = LoadRequest { requested_range: None, running: false };
    assert!(request_audio_generation(&mut state, 10, 100));
    assert_eq!(state.requested_range, Some((6, 42)));
    assert!(!request_audio_generation(&mut state, 2, 20));
    assert_eq!(state.requested_range, Some((0, 20)));
}

fn export(path: &str, hash: &str, model: &str, format: &str) -> StemExport {
    StemExport {
        parent_path: path.to_string(),
        parent_hash: hash.to_string(),
        model: model.to_string(),
        format: format.to_string(),
        output_folder: "stems".to_string(),
        stems: vec![
            StemFile { kind: "vocals".to_string(), path: "stems/a/vocals.flac".to_string(), hash: "v".to_string() },
            StemFile { kind: "drums".to_string(), path: "stems/a/drums.flac".to_string(), hash: "d".to_string() },
        ],
        exported_at: String::new(),
    }
}

#[test]
fn an_export_counts_only_for_the_same_source_model_format_and_folder() {
    let manifest = StemExportManifest {
        exports: vec![
            export("a.flac", "h", "mdx", "flac"),
            export("a.flac", "old", "htdemucs", "flac"),
            export("a.flac", "h", "htdemucs", "wav"),
            export("a.flac", "h", "htdemucs", "flac"),
        ],
    };
    assert_eq!(find_export(&manifest, "a.flac", "h", "flac", "stems"), Some(3));
    assert_eq!(find_export(&manifest, "a.flac", "h", "flac", "other"), None);
    let e = &manifest.exports[3];
    assert!(stems_intact(e, &vec![Some("v".to_string()), Some("d".to_string())]));
    assert!(!stems_intact(e, &vec![Some("v".to_string()), None]));
    assert!(!stems_intact(e, &vec![Some("v".to_string()), Some("x".to_string())]));
}

#[test]
fn separator_output_is_split_at_carriage_returns_and_line_feeds() {
    let mut pending = "Sep".to_string();
    let lines = split_output(&mut pending, b"arating\r 12%|##\r\n 40");
    assert_eq!(lines, vec!["Separating".to_string(), " 12%|##".to_string(), String::new()]);
    assert_eq!(pending, " 40");
    let lines = split_output(&mut pending, b"");
    assert!(lines.is_empty());
    assert_eq!(pending, " 40");
}

#[test]
fn progress_percentage_is_the_last_word_before_the_percent_sign() {
    assert_eq!(percent_text(" 45%|####  | 10/22 [00:03<00:04]"), Some("45".to_string()));
    assert_eq!(percent_text("Progress: 7.5 %"), Some("7.5".to_string()));
    assert_eq!(percent_text("no sign here"), Some("here".to_string()));
    assert_eq!(percent_text("   %"), None);
    assert_eq!(percent_text(""), None);
}

#[test]
fn waveform_caches_live_in_the_private_folder() {
    assert_eq!(cache_path("abc", "/w"), "/w/.adbstudio/waveforms/abc.json");
    assert_eq!(raster_cache_path("abc", "/w/"), "/w/.adbstudio/waveforms/abc.raster");
}

#[test]
fn recording_an_export_replaces_earlier_ones_of_the_same_source() {
    let mut manifest = StemExportManifest {
        exports: vec![
            export("a.wav", "h1", "htdemucs", "flac"),
            export("b.wav", "h2", "htdemucs", "flac"),
            export("a.wav", "h0", "htdemucs", "wav"),
        ],
    };
    record_stem_export(&mut manifest, export("a.wav", "h1", "htdemucs", "mp3"));
    assert_eq!(manifest.exports.len(), 3);
    assert_eq!(manifest.exports[0].parent_path, "b.wav");
    assert_eq!(manifest.exports[1].parent_hash, "h0");
    assert_eq!(manifest.exports[2].format, "mp3");
    assert_eq!(find_export(&manifest, "a.wav", "h1", "mp3", "stems"), Some(2));
    assert_eq!(find_export(&manifest, "a.wav", "h1", "flac", "stems"), None);
}

#[test]
fn manifest_output_folders_use_forward_slashes() {
    assert_eq!(manifest_output_folder(" stems\\out "), Ok("stems/out".to_string()));
    assert_eq!(manifest_output_folder(""), Ok(String::new()));
    assert_eq!(
        manifest_output_folder("/abs"),
        Err("Stem output folder must be inside the workspace".to_string())
    );
    assert_eq!(to_forward_slashes("a\\b\\c"), "a/b/c");
}

#[test]
fn waveform_cache_keys_hash_the_version_peak_count_and_checksum() {
    assert_eq!(waveform_cache_key("abc"), "e917efd427c3eb1dcc2fd6dd50003c2f9348a2fdd96adbfa8141cc31ff133cd4");
    assert_ne!(waveform_cache_key("abc"), waveform_cache_key("abd"));
}

#[test]
fn raster_cache_round_trips_with_dimensions() {
    let raster = vec![64u8; RASTER_WIDTH * RASTER_HEIGHT];
    let file = raster_cache_bytes(&raster).unwrap();
    assert_eq!(&file[..28], b"ADB-STUDIO-WAVEFORM-RASTER-2");
    assert_eq!(&file[28..36], &[0x80, 0x07, 0, 0, 0xae, 0, 0, 0]);
    assert_eq!(raster_from_cache(&file), Some(raster.clone()));
    assert_eq!(raster_cache_bytes(&raster[1..]), None);
    let mut wrong = file.clone();
    wrong[28] = 0x81;
    assert_eq!(raster_from_cache(&wrong), None);
    assert_eq!(raster_from_cache(&file[..file.len() - 1]), None);
}
