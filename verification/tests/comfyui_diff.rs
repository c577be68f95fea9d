use adb_studio::comfyui::diff::{
    add_count_difference, add_text_difference,
    compare_workflows, count_change, edit_distance, numeric_pairs, shown_differences,
};
use adb_studio::comfyui::{ComfyUIWorkflow, LoRAInfo};

fn workflow(bpm: &str, seed: &str, key: &str, prompt: &str, loras: Vec<(&str, &str)>) -> ComfyUIWorkflow {
    ComfyUIWorkflow {
        bpm: bpm.to_string(),
        duration: String::new(),
        key: key.to_string(),
        seed: seed.to_string(),
        ksampler_cfg: String::new(),
        ksampler_steps: String::new(),
        reference_audio: String::new(),
        reference_audio_hash: String::new(),
        reference_audio_guess_attempted: false,
        reference_audio_ambiguous: false,
        model: "m.safetensors".to_string(),
        prompt: prompt.to_string(),
        lyrics: String::new(),
        loras: loras
            .into_iter()
            .map(|(file, strength)| LoRAInfo {
                node_id: String::new(),
                filename: file.to_string(),
                custom_path: String::new(),
                strength: strength.to_string(),
            })
            .collect(),
    }
}

#[test]
fn counts_prompt_edits_and_formats_deltas() {
    assert_eq!(edit_distance("kit", "kat"), 1);
    assert_eq!(edit_distance("same", "same"), 0);
    assert_eq!(count_change(130, 125), "130 (+5)");
    assert_eq!(count_change(34, 32), "34 (+2)");
    assert_eq!(count_change(2, 0), "2 (+2)");
}

#[test]
fn edit_distance_counts_insertions_deletions_and_substitutions() {
    assert_eq!(edit_distance("", "abc"), 3);
    assert_eq!(edit_distance("abc", ""), 3);
    assert_eq!(edit_distance("kitten", "sitting"), 3);
    assert_eq!(edit_distance("flaw", "lawn"), 2);
    assert_eq!(edit_distance("grüße", "grusse"), 3);
}

#[test]
fn count_change_shows_decreases_and_no_change() {
    assert_eq!(count_change(1, 3), "1 (-2)");
    assert_eq!(count_change(4, 4), "4");
}

#[test]
fn compares_workflows_field_by_field() {
    let pinned = workflow("120", "7", "C major", "warm pads", vec![("a.safetensors", "0.5"), ("b.safetensors", "1")]);
    let track = workflow("125", "7", "D minor", "warm pad", vec![("b.safetensors", "0.8")]);
    let pairs = numeric_pairs(&pinned, &track);
    assert_eq!(
        pairs,
        vec![("120".to_string(), "125".to_string()), ("1".to_string(), "0.8".to_string())]
    );
    let table = vec![("120".to_string(), "125".to_string(), "125 (+5)".to_string())];
    let differences = compare_workflows(&pinned, &track, &table);
    let shown: Vec<(String, String)> =
        differences.into_iter().map(|d| (d.label, d.value)).collect();
    assert_eq!(
        shown,
        vec![
            ("BPM: ".to_string(), "125 (+5)".to_string()),
            ("Key: ".to_string(), "D minor".to_string()),
            ("Prompt: ".to_string(), "1".to_string()),
            ("Loras: ".to_string(), "1 (-1)".to_string()),
            ("Lora b.safetensors strength: ".to_string(), "0.8".to_string()),
        ]
    );
}

#[test]
fn identical_workflows_have_no_differences() {
    let pinned = workflow("120", "7", "C major", "warm pads", vec![("a.safetensors", "0.5")]);
    let track = pinned.clone();
    assert!(numeric_pairs(&pinned, &track).is_empty());
    assert!(compare_workflows(&pinned, &track, &Vec::new()).is_empty());
}

#[test]
fn track_list_shows_missing_workflows_and_nothing_for_the_pinned_track() {
    let w = workflow("120", "7", "C major", "x", vec![]);
    let other = workflow("121", "7", "C major", "x", vec![]);
    let missing = shown_differences(Some(&w), None, false, &Vec::new());
    assert_eq!(missing.len(), 1);
    assert_eq!(missing[0].label, "");
    assert_eq!(missing[0].value, "missing workflow file");
    assert!(shown_differences(Some(&w), Some(&other), true, &Vec::new()).is_empty());
    assert!(shown_differences(None, Some(&other), false, &Vec::new()).is_empty());
    let shown = shown_differences(Some(&w), Some(&other), false, &Vec::new());
    assert_eq!(shown.len(), 1);
    assert_eq!(shown[0].value, "121");
}

#[test]
fn edit_distance_is_the_same_both_ways() {
    assert_eq!(edit_distance("warm pads", "pad warm"), edit_distance("pad warm", "warm pads"));
    assert_eq!(edit_distance("abc", "abc"), 0);
}

#[test]
fn single_differences_are_added_only_when_the_values_differ() {
    let mut out = Vec::new();
    add_text_difference(&mut out, "Key: ", "C", "C");
    assert!(out.is_empty());
    add_text_difference(&mut out, "Key: ", "C", "D");
    add_count_difference(&mut out, "Prompt: ", "abc", "abd");
    assert_eq!(out.len(), 2);
    assert_eq!((out[0].label.as_str(), out[0].value.as_str()), ("Key: ", "D"));
    assert_eq!((out[1].label.as_str(), out[1].value.as_str()), ("Prompt: ", "1"));
}
