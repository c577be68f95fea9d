use adb_studio::json::Json;
use adb_studio::server::{find_audio_output, output_file_extension, AudioOutput};
use serde_json::Value;

fn to_json(v: &Value) -> Json {
    match v {
        Value::Null => Json::Null,
        Value::Bool(b) => Json::Bool(*b),
        Value::Number(n) => Json::Number(n.to_string()),
        Value::String(s) => Json::Str(s.clone()),
        Value::Array(a) => Json::Array(a.iter().map(to_json).collect()),
        Value::Object(o) => Json::Object(o.iter().map(|(k, v)| (k.clone(), to_json(v))).collect()),
    }
}

fn doc(text: &str) -> Json {
    to_json(&serde_json::from_str::<Value>(text).unwrap())
}

fn output(name: &str) -> AudioOutput {
    AudioOutput {
        filename: name.to_string(),
        subfolder: String::new(),
        output_type: "output".to_string(),
    }
}

#[test]
fn finds_the_first_audio_output_of_a_history_entry() {
    let history = doc(
        r#"{"abc": {"outputs": {
            "9": {"images": [{"filename": "preview.png", "subfolder": "", "type": "temp"}]},
            "12": {"audio": [{"filename": "song_00001_.FLAC", "subfolder": "audio", "type": "output"}]}
        }}}"#,
    );
    let found = find_audio_output(&history).unwrap();
    assert_eq!(found.filename, "song_00001_.FLAC");
    assert_eq!(found.subfolder, "audio");
    assert_eq!(found.output_type, "output");
}

#[test]
fn audio_output_defaults_subfolder_and_type() {
    let found = find_audio_output(&doc(r#"[1, {"filename": "a.mp3"}]"#)).unwrap();
    assert_eq!(found.subfolder, "");
    assert_eq!(found.output_type, "output");
}

#[test]
fn no_audio_output_in_a_reply_without_one() {
    assert!(find_audio_output(&doc(r#"{"filename": "a.txt", "x": [{"filename": 3}]}"#)).is_none());
    assert!(find_audio_output(&doc("null")).is_none());
}

#[test]
fn downloaded_copy_takes_a_lower_case_extension() {
    assert_eq!(output_file_extension(&output("a.WAV")), "flac");
    assert_eq!(output_file_extension(&output("dir/a.Opus")), "opus");
    assert_eq!(output_file_extension(&output("noext")), "audio");
}
