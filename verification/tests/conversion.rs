use adb_studio::conversion::{bitrate, codec_args, compression_level, worker_count};

#[test]
fn quality_picks_the_bitrate_and_unknown_quality_means_medium() {
    let values = ["a", "b", "c", "d"];
    assert_eq!(bitrate("Low", &values), "a");
    assert_eq!(bitrate("Medium", &values), "b");
    assert_eq!(bitrate("High", &values), "c");
    assert_eq!(bitrate("Maximum", &values), "d");
    assert_eq!(bitrate("whatever", &values), "b");
    assert_eq!(compression_level("Maximum"), "12");
    assert_eq!(compression_level("low"), "5");
}

#[test]
fn codec_arguments_follow_format_and_quality() {
    assert_eq!(codec_args("mp3", "High"), vec!["-c:a", "libmp3lame", "-b:a", "192k"]);
    assert_eq!(codec_args("ogg", "Maximum"), vec!["-c:a", "libvorbis", "-b:a", "256k"]);
    assert_eq!(codec_args("opus", "Low"), vec!["-c:a", "libopus", "-b:a", "64k"]);
    assert_eq!(codec_args("flac", "Low"), vec!["-c:a", "flac", "-compression_level", "1"]);
    assert_eq!(codec_args("wav", "Low"), vec!["-c:a", "pcm_s16le"]);
    assert_eq!(codec_args("wav", "Other"), vec!["-c:a", "pcm_f32le"]);
    assert_eq!(worker_count(2), 2);
    assert_eq!(worker_count(9), 4);
}
