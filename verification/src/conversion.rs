//! Converting audio files with ffmpeg: the codec arguments for a format and quality.
use vstd::prelude::*;
use crate::json::text_eq;

verus! {

/// The place of a quality among `Low`, `Medium`, `High` and `Maximum`; `Medium` for any
/// other text.
pub open spec fn quality_place(quality: Seq<char>) -> int {
    if quality == "Low"@ {
        0
    } else if quality == "High"@ {
        2
    } else if quality == "Maximum"@ {
        3
    } else {
        1
    }
}

proof fn lemma_quality_names()
    ensures
        "Low"@ != "Medium"@,
        "Low"@ != "High"@,
        "Low"@ != "Maximum"@,
        "Medium"@ != "High"@,
        "Medium"@ != "Maximum"@,
        "High"@ != "Maximum"@,
{
    reveal_strlit("Low");
    reveal_strlit("Medium");
    reveal_strlit("High");
    reveal_strlit("Maximum");
    assert("Low"@.len() != "Medium"@.len());
    assert("Low"@.len() != "Maximum"@.len());
    assert("Low"@[0] != "High"@[0]);
    assert("Medium"@.len() != "High"@.len());
    assert("Medium"@.len() != "Maximum"@.len());
    assert("High"@.len() != "Maximum"@.len());
}

/// The bitrate of `values` (low to maximum) for a quality.
pub fn bitrate(quality: &str, values: &[&'static str; 4]) -> (r: &'static str)
    ensures
        r == values@[quality_place(quality@)],
{
    proof {
        lemma_quality_names();
    }
    if text_eq(quality, "Low") {
        values[0]
    } else if text_eq(quality, "Medium") {
        values[1]
    } else if text_eq(quality, "High") {
        values[2]
    } else if text_eq(quality, "Maximum") {
        values[3]
    } else {
        values[1]
    }
}

/// The FLAC compression level for a quality.
pub fn compression_level(quality: &str) -> (r: &'static str)
    ensures
        r@ == seq!["1"@, "5"@, "8"@, "12"@][quality_place(quality@)],
{
    proof {
        lemma_quality_names();
    }
    if text_eq(quality, "Low") {
        "1"
    } else if text_eq(quality, "Medium") {
        "5"
    } else if text_eq(quality, "High") {
        "8"
    } else if text_eq(quality, "Maximum") {
        "12"
    } else {
        "5"
    }
}

pub open spec fn texts_of_strs(v: Seq<&str>) -> Seq<Seq<char>> {
    v.map_values(|a: &str| a@)
}

/// The codec arguments of ffmpeg for a format and quality: MP3, Ogg Vorbis and Opus at a
/// bitrate for the quality, FLAC at a compression level, and PCM (WAV) of a sample width
/// for the quality for any other format.
pub open spec fn codec_args_spec(format: Seq<char>, quality: Seq<char>) -> Seq<Seq<char>> {
    let q = quality_place(quality);
    if format == "mp3"@ {
        seq!["-c:a"@, "libmp3lame"@, "-b:a"@, seq!["96k"@, "128k"@, "192k"@, "320k"@][q]]
    } else if format == "ogg"@ {
        seq!["-c:a"@, "libvorbis"@, "-b:a"@, seq!["96k"@, "128k"@, "192k"@, "256k"@][q]]
    } else if format == "opus"@ {
        seq!["-c:a"@, "libopus"@, "-b:a"@, seq!["64k"@, "96k"@, "128k"@, "192k"@][q]]
    } else if format == "flac"@ {
        seq!["-c:a"@, "flac"@, "-compression_level"@, seq!["1"@, "5"@, "8"@, "12"@][q]]
    } else {
        seq![
            "-c:a"@,
            if quality == "Low"@ {
                "pcm_s16le"@
            } else if quality == "Medium"@ {
                "pcm_s24le"@
            } else if quality == "High"@ {
                "pcm_s32le"@
            } else {
                "pcm_f32le"@
            },
        ]
    }
}

/// The codec arguments of ffmpeg for a format and quality (see `codec_args_spec`).
pub fn codec_args(format: &str, quality: &str) -> (r: Vec<&'static str>)
    ensures
        texts_of_strs(r@) == codec_args_spec(format@, quality@),
{
    proof {
        lemma_quality_names();
    }
    proof {
        reveal_strlit("mp3");
        reveal_strlit("ogg");
        reveal_strlit("opus");
        reveal_strlit("flac");
    }
    if text_eq(format, "mp3") {
        let b = bitrate(quality, &["96k", "128k", "192k", "320k"]);
        let v = vec!["-c:a", "libmp3lame", "-b:a", b];
        assert(texts_of_strs(v@) =~= codec_args_spec(format@, quality@));
        v
    } else if text_eq(format, "ogg") {
        let b = bitrate(quality, &["96k", "128k", "192k", "256k"]);
        let v = vec!["-c:a", "libvorbis", "-b:a", b];
        assert(texts_of_strs(v@) =~= codec_args_spec(format@, quality@));
        v
    } else if text_eq(format, "opus") {
        let b = bitrate(quality, &["64k", "96k", "128k", "192k"]);
        let v = vec!["-c:a", "libopus", "-b:a", b];
        assert(texts_of_strs(v@) =~= codec_args_spec(format@, quality@));
        v
    } else if text_eq(format, "flac") {
        let c = compression_level(quality);
        let v = vec!["-c:a", "flac", "-compression_level", c];
        assert(texts_of_strs(v@) =~= codec_args_spec(format@, quality@));
        v
    } else {
        let pcm = if text_eq(quality, "Low") {
            "pcm_s16le"
        } else if text_eq(quality, "Medium") {
            "pcm_s24le"
        } else if text_eq(quality, "High") {
            "pcm_s32le"
        } else {
            "pcm_f32le"
        };
        let v = vec!["-c:a", pcm];
        assert(texts_of_strs(v@) =~= codec_args_spec(format@, quality@));
        v
    }
}

/// How many conversions run at once: one per job, at most four.
pub fn worker_count(jobs: usize) -> (r: usize)
    ensures
        r == if jobs < 4 {
            jobs
        } else {
            4
        },
{
    if jobs < 4 {
        jobs
    } else {
        4
    }
}

} // verus!
