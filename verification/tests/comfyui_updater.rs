use adb_studio::comfyui::updater::{
    add_lora, anchor_position, apply_workflow_edits, node_ids, remove_lora, reorder_loras, set_lora_path,
    set_lora_strength, update_metadata,
};
use adb_studio::json::Json;
use serde_json::Value;

fn to_json(v: &Value) -> Json {
    match v {
        Value::Null => Json::Null,
        Value::Bool(b) => Json::Bool(*b),
        Value::Number(n) => Json::Number(n.to_string()),
        Value::String(s) => Json::Str(s.clone()),
        Value::Array(a) => Json::Array(a.iter().map(to_json).collect()),
        Value::Object(o) => Json::Object(o.iter().map(|(k, v)| (k.clone(), to_json(v))).collect()),
    }
}

fn from_json(j: &Json) -> Value {
    match j {
        Json::Null => Value::Null,
        Json::Bool(b) => Value::Bool(*b),
        Json::Number(t) => serde_json::from_str(t).unwrap(),
        Json::Str(s) => Value::String(s.clone()),
        Json::Array(a) => Value::Array(a.iter().map(from_json).collect()),
        Json::Object(o) => {
            Value::Object(o.iter().map(|(k, v)| (k.clone(), from_json(v))).collect())
        }
    }
}

fn value(text: &str) -> Value {
    serde_json::from_str(text).unwrap()
}

fn doc(text: &str) -> Json {
    to_json(&value(text))
}

/// The JSON number a text reads as, the way the application computes it.
fn number_text(text: &str) -> Option<String> {
    text.parse::<f64>().ok().and_then(serde_json::Number::from_f64).map(|n| n.to_string())
}

fn update(value: &mut Json, field: &str, new_value: &str) -> bool {
    let number = number_text(new_value);
    update_metadata(value, field, new_value, number.as_deref())
}

#[test]
fn updater_updates_api_metadata_without_touching_model_or_lora() {
    let mut value = doc(
        r#"{
            "1": {"class_type": "TextEncodeAceStepAudio1.5", "inputs": {
                "bpm": 128, "key": "C major", "seed": 31, "prompt": "old"
            }},
            "2": {"class_type": "CheckpointLoaderSimple", "inputs": {"ckpt_name": "model.safetensors"}},
            "3": {"class_type": "Load LoRA", "inputs": {"lora_name": "style.safetensors"}}
        }"#,
    );
    assert!(update(&mut value, "bpm", "140"));
    assert!(update(&mut value, "prompt", "new"));
    let value = from_json(&value);
    assert_eq!(value["1"]["inputs"]["bpm"], self::value("140"));
    assert_eq!(value["1"]["inputs"]["prompt"], self::value(r#""new""#));
    assert_eq!(value["2"]["inputs"]["ckpt_name"], self::value(r#""model.safetensors""#));
    assert_eq!(value["3"]["inputs"]["lora_name"], self::value(r#""style.safetensors""#));
}

#[test]
fn updates_ksampler_and_reference_audio_metadata() {
    let mut value = doc(
        r#"{
            "1": {"class_type": "KSampler", "inputs": {"steps": 8, "cfg": 1.0}},
            "2": {"class_type": "LoadAudio", "inputs": {"audio": "old.flac"}}
        }"#,
    );

    assert!(update(&mut value, "ksampler_steps", "12"));
    assert!(update(&mut value, "ksampler_cfg", "2.5"));
    assert!(update(&mut value, "reference_audio", "reference.flac"));
    let value = from_json(&value);
    assert_eq!(value["1"]["inputs"]["steps"], self::value("12"));
    assert_eq!(value["1"]["inputs"]["cfg"], self::value("2.5"));
    assert_eq!(value["2"]["inputs"]["audio"], self::value(r#""reference.flac""#));
}

#[test]
fn sets_custom_path_in_api_lora_node() {
    let mut value = doc(
        r#"{
            "3": {"class_type": "Load LoRA", "inputs": {
                "lora_name": "style.safetensors"
            }}
        }"#,
    );

    assert!(set_lora_path(&mut value, "3", "subfolder/style.safetensors"));
    assert_eq!(from_json(&value)["3"]["inputs"]["lora_name"], self::value(r#""subfolder/style.safetensors""#));
}

#[test]
fn sets_custom_path_in_visual_lora_node() {
    let mut value = doc(
        r#"{
            "nodes": [{
                "id": 7,
                "type": "LoraLoaderModelOnly",
                "widgets_values": ["style.safetensors", 1.0]
            }]
        }"#,
    );

    assert!(set_lora_path(&mut value, "7", "/models/loras/style.safetensors"));
    assert_eq!(
        from_json(&value)["nodes"][0]["widgets_values"][0],
        self::value(r#""/models/loras/style.safetensors""#)
    );
}

#[test]
fn updater_updates_visual_metadata_after_seed_control_value() {
    let mut value = doc(
        r#"{"nodes": [{
            "type": "TextEncodeAceStepAudio1.5",
            "inputs": [
                {"name": "tags", "widget": {}},
                {"name": "lyrics", "widget": {}},
                {"name": "seed", "widget": {}},
                {"name": "bpm", "widget": {}},
                {"name": "keyscale", "widget": {}}
            ],
            "widgets_values": ["prompt", "lyrics", 31, "fixed", 130, "C major"]
        }]}"#,
    );
    assert!(update(&mut value, "bpm", "150"));
    assert!(update(&mut value, "key", "D minor"));
    assert!(update(&mut value, "lyrics", "new lyrics"));
    assert!(update(&mut value, "seed", "42"));
    let value = from_json(&value);
    assert_eq!(value["nodes"][0]["widgets_values"][2], self::value("42"));
    assert_eq!(value["nodes"][0]["widgets_values"][4], self::value("150"));
    assert_eq!(value["nodes"][0]["widgets_values"][5], self::value(r#""D minor""#));
    assert_eq!(value["nodes"][0]["widgets_values"][1], self::value(r#""new lyrics""#));
}

#[test]
fn updates_visual_metadata_with_positional_prompt_and_lyrics() {
    let mut value = doc(
        r#"{"nodes": [{
            "type": "TextEncodeAceStepAudio1.5",
            "inputs": [
                {"name": "clip"},
                {"name": "seed", "widget": {"name": "seed"}},
                {"name": "duration", "widget": {"name": "duration"}}
            ],
            "widgets_values": [
                "prompt", "lyrics", 34, "fixed", 128, 30,
                "4", "en", "E minor", true, 2, 0.85, 0.9, 0, 0
            ]
        }]}"#,
    );

    assert!(update(&mut value, "seed", "777"));
    assert!(update(&mut value, "duration", "45"));
    assert!(update(&mut value, "lyrics", "new lyrics"));
    let value = from_json(&value);
    assert_eq!(value["nodes"][0]["widgets_values"][1], self::value(r#""new lyrics""#));
    assert_eq!(value["nodes"][0]["widgets_values"][2], self::value("777"));
    assert_eq!(value["nodes"][0]["widgets_values"][5], self::value("45"));
}

#[test]
fn writing_the_same_value_changes_nothing() {
    let mut value = doc(r#"{"1": {"class_type": "KSampler", "inputs": {"steps": 8}}}"#);
    let before = from_json(&value);
    assert!(!update(&mut value, "ksampler_steps", "8"));
    assert!(!update(&mut value, "ksampler_steps", "eight"));
    assert_eq!(from_json(&value), before);
}

#[test]
fn strength_is_written_as_a_number() {
    let mut value = doc(
        r#"{"3": {"class_type": "Load LoRA", "inputs": {"lora_name": "a.safetensors", "strength_model": 1.0}}}"#,
    );
    assert!(set_lora_strength(&mut value, "3", number_text("0.5").as_deref()));
    assert_eq!(from_json(&value)["3"]["inputs"]["strength_model"], self::value("0.5"));
    assert!(!set_lora_strength(&mut value, "3", number_text("0.5").as_deref()));
    assert!(!set_lora_strength(&mut value, "3", number_text("strong").as_deref()));
    assert!(!set_lora_strength(&mut value, "9", number_text("1").as_deref()));
}

#[test]
fn api_lora_ids_and_reordering() {
    let mut value = doc(
        r#"{
            "1": {"class_type": "CheckpointLoaderSimple", "inputs": {"ckpt_name": "m.safetensors"}},
            "2": {"class_type": "LoraLoader", "inputs": {"model": ["1", 0], "lora_name": "a.safetensors"}},
            "3": {"class_type": "LoraLoader", "inputs": {"model": ["2", 0], "lora_name": "b.safetensors"}},
            "4": {"class_type": "KSampler", "inputs": {"model": ["3", 0]}}
        }"#,
    );
    assert_eq!(node_ids(&value), vec!["2".to_string(), "3".to_string()]);
    assert!(reorder_loras(&mut value, &vec!["3".to_string(), "2".to_string()]));
    let reordered = from_json(&value);
    assert_eq!(reordered["3"]["inputs"]["model"], self::value(r#"["1", 0]"#));
    assert_eq!(reordered["2"]["inputs"]["model"], self::value(r#"["3", 0]"#));
    assert!(!reorder_loras(&mut value, &vec!["3".to_string()]));
    assert!(!reorder_loras(&mut value, &vec!["3".to_string(), "9".to_string()]));
}

/// The position of a new visual LoRA node, the way the application computes it: the
/// anchor moved by 10 on each axis.
fn shifted_position(value: &Json) -> Option<(String, String)> {
    anchor_position(value).and_then(|(x, y)| {
        let shift = |t: &str| {
            t.parse::<f64>()
                .ok()
                .and_then(|n| serde_json::Number::from_f64(n + 10.0))
                .map(|n| n.to_string())
        };
        Some((shift(&x)?, shift(&y)?))
    })
}

#[test]
fn adds_lora_to_visual_model_chain() {
    let mut value = doc(
        r#"{
            "last_node_id": 106,
            "last_link_id": 292,
            "nodes": [
                {
                    "id": 106,
                    "type": "LoraLoaderModelOnly",
                    "pos": [100, 200],
                    "inputs": [{"name": "model", "link": 291}],
                    "outputs": [{"name": "MODEL", "links": [292]}],
                    "widgets_values": ["existing.safetensors", 1.2]
                },
                {
                    "id": 78,
                    "type": "ModelSamplingAuraFlow",
                    "inputs": [{"name": "model", "link": 292}]
                }
            ],
            "links": [[292, 106, 0, 78, 0, "MODEL"]]
        }"#,
    );

    let position = shifted_position(&value);
    let node_id = add_lora(&mut value, "/models/new.safetensors", position).unwrap();
    assert_eq!(node_id, "107");
    let value = from_json(&value);
    assert_eq!(value["nodes"][2]["pos"], self::value("[110.0, 210.0]"));
    assert_eq!(value["nodes"][0]["outputs"][0]["links"], self::value("[293]"));
    assert_eq!(value["nodes"][1]["inputs"][0]["link"], self::value("292"));
    assert_eq!(
        value["nodes"][2]["widgets_values"],
        self::value(r#"["new.safetensors", 1.0]"#)
    );
    assert_eq!(value["nodes"][2]["inputs"][0]["link"], self::value("293"));
    assert_eq!(value["links"][0], self::value(r#"[292, 107, 0, 78, 0, "MODEL"]"#));
    assert_eq!(value["links"][1], self::value(r#"[293, 106, 0, 107, 0, "MODEL"]"#));
}

#[test]
fn adding_to_a_visual_chain_updates_the_counters() {
    let mut value = doc(
        r#"{
            "last_node_id": 106,
            "last_link_id": 292,
            "nodes": [
                {"id": 106, "type": "LoraLoaderModelOnly",
                 "inputs": [{"name": "model", "link": 291}],
                 "outputs": [{"name": "MODEL", "links": [292]}],
                 "widgets_values": ["existing.safetensors", 1.2]},
                {"id": 78, "type": "ModelSamplingAuraFlow", "inputs": [{"name": "model", "link": 292}]}
            ],
            "links": [[292, 106, 0, 78, 0, "MODEL"]]
        }"#,
    );
    assert_eq!(anchor_position(&value), None);
    assert_eq!(add_lora(&mut value, "C:\\loras\\x.safetensors", None), Some("107".to_string()));
    let value = from_json(&value);
    assert_eq!(value["last_node_id"], self::value("107"));
    assert_eq!(value["last_link_id"], self::value("293"));
    assert_eq!(value["nodes"][2]["id"], self::value("107"));
    assert_eq!(value["nodes"][2]["outputs"][0]["links"], self::value("[292]"));
    assert_eq!(value["nodes"][2]["widgets_values"][0], self::value(r#""x.safetensors""#));
    assert!(value["nodes"][2].get("pos").is_none());
}

#[test]
fn adding_without_a_lora_changes_nothing() {
    let mut value = doc(r#"{"1": {"class_type": "KSampler", "inputs": {"steps": 8}}}"#);
    let before = from_json(&value);
    assert_eq!(add_lora(&mut value, "a.safetensors", None), None);
    assert_eq!(from_json(&value), before);
}

#[test]
fn adds_lora_to_api_prompt_under_the_first_free_number() {
    let mut value = doc(
        r#"{
            "1": {"class_type": "CheckpointLoaderSimple", "inputs": {"ckpt_name": "m.safetensors"}},
            "2": {"class_type": "LoraLoader", "inputs": {"model": ["1", 0], "lora_name": "a.safetensors", "strength_model": 0.7}},
            "3": {"class_type": "LoraLoader", "inputs": {"model": ["2", 0], "lora_name": "b.safetensors"}},
            "4": {"class_type": "KSampler", "inputs": {"model": ["3", 0]}}
        }"#,
    );
    assert_eq!(add_lora(&mut value, "dir/c.safetensors", None), Some("5".to_string()));
    assert_eq!(node_ids(&value), vec!["2".to_string(), "3".to_string(), "5".to_string()]);
    let added = from_json(&value);
    assert_eq!(added["5"]["inputs"]["lora_name"], self::value(r#""c.safetensors""#));
    assert_eq!(added["5"]["inputs"]["model"], self::value(r#"["3", 0]"#));
    assert!(added["5"]["inputs"].get("strength_model").is_none());

    assert_eq!(add_lora(&mut value, "d.safetensors", None), Some("6".to_string()));
    let added = from_json(&value);
    assert_eq!(added["6"]["inputs"]["model"], self::value(r#"["5", 0]"#));
}

#[test]
fn adding_to_api_prompt_sets_strength_to_one() {
    let mut value = doc(
        r#"{
            "10": {"class_type": "CheckpointLoaderSimple", "inputs": {}},
            "1": {"class_type": "LoraLoader", "inputs": {"model": ["10", 0], "lora_name": "a.safetensors", "strength": 0.4}}
        }"#,
    );
    assert_eq!(add_lora(&mut value, "b.safetensors", None), Some("2".to_string()));
    let added = from_json(&value);
    assert_eq!(added["2"]["inputs"]["strength"], self::value("1.0"));
    assert_eq!(added["2"]["inputs"]["model"], self::value(r#"["1", 0]"#));
    assert_eq!(added["1"]["inputs"]["strength"], self::value("0.4"));
}

#[test]
fn removes_lora_from_visual_model_chain() {
    let mut value = doc(
        r#"{
            "nodes": [
                {"id": 1, "type": "CheckpointLoaderSimple", "outputs": [{"links": [10]}]},
                {"id": 2, "type": "LoraLoaderModelOnly", "inputs": [{"name": "model", "link": 10}], "outputs": [{"links": [11]}]},
                {"id": 3, "type": "LoraLoaderModelOnly", "inputs": [{"name": "model", "link": 11}], "outputs": [{"links": [12]}]},
                {"id": 4, "type": "ModelSamplingAuraFlow", "inputs": [{"name": "model", "link": 12}]}
            ],
            "links": [
                [10, 1, 0, 2, 0, "MODEL"],
                [11, 2, 0, 3, 0, "MODEL"],
                [12, 3, 0, 4, 0, "MODEL"]
            ]
        }"#,
    );

    assert!(remove_lora(&mut value, "2"));
    let value = from_json(&value);
    assert_eq!(value["nodes"].as_array().unwrap().len(), 3);
    assert_eq!(value["nodes"][1]["inputs"][0]["link"], self::value("10"));
    assert_eq!(
        value["links"],
        self::value(r#"[[10, 1, 0, 3, 0, "MODEL"], [12, 3, 0, 4, 0, "MODEL"]]"#)
    );
}

#[test]
fn removes_last_lora_and_its_predecessor_link() {
    let mut value = doc(
        r#"{
            "nodes": [
                {"id": 1, "type": "CheckpointLoaderSimple", "outputs": [{"links": [10]}]},
                {"id": 2, "type": "LoraLoaderModelOnly", "inputs": [{"name": "model", "link": 10}], "outputs": [{"links": []}]}
            ],
            "links": [[10, 1, 0, 2, 0, "MODEL"]]
        }"#,
    );

    assert!(remove_lora(&mut value, "2"));
    let value = from_json(&value);
    assert_eq!(value["nodes"][0]["outputs"][0]["links"], self::value("[]"));
    assert_eq!(value["links"], self::value("[]"));
}

#[test]
fn removes_lora_from_api_prompt_and_relinks() {
    let mut value = doc(
        r#"{
            "1": {"class_type": "CheckpointLoaderSimple", "inputs": {"ckpt_name": "m.safetensors"}},
            "2": {"class_type": "LoraLoader", "inputs": {"model": ["1", 0], "lora_name": "a.safetensors"}},
            "3": {"class_type": "LoraLoader", "inputs": {"model": ["2", 0], "lora_name": "b.safetensors"}}
        }"#,
    );
    assert!(!remove_lora(&mut value, "9"));
    assert!(remove_lora(&mut value, "2"));
    let removed = from_json(&value);
    assert!(removed.get("2").is_none());
    assert_eq!(removed["3"]["inputs"]["model"], self::value(r#"["1", 0]"#));
}

#[test]
fn workflow_pane_edits_are_written_in_order() {
    let mut value = doc(
        r#"{"1": {"class_type": "TextEncodeAceStepAudio1.5", "inputs": {
            "bpm": 120, "keyscale": "C major", "seed": 1, "tags": "a", "lyrics": "b"}}}"#,
    );
    let edits: Vec<(String, String, Option<String>)> = [
        ("bpm", "128"),
        ("key", "D minor"),
        ("seed", "42"),
        ("prompt", "synth"),
        ("lyrics", "la"),
    ]
    .iter()
    .map(|(f, v)| (f.to_string(), v.to_string(), number_text(v)))
    .collect();
    apply_workflow_edits(&mut value, &edits);
    let mut expected = doc(
        r#"{"1": {"class_type": "TextEncodeAceStepAudio1.5", "inputs": {
            "bpm": 120, "keyscale": "C major", "seed": 1, "tags": "a", "lyrics": "b"}}}"#,
    );
    for (f, v, n) in &edits {
        update_metadata(&mut expected, f, v, n.as_deref());
    }
    assert_eq!(from_json(&value), from_json(&expected));
    assert_eq!(from_json(&value)["1"]["inputs"]["bpm"], self::value("128"));
}

#[test]
fn setting_a_lora_path_twice_is_setting_it_once() {
    let mut value = doc(
        r#"{"3": {"class_type": "LoraLoader", "inputs": {"lora_name": "a.safetensors", "strength_model": 0.5}}}"#,
    );
    assert!(set_lora_path(&mut value, "3", "b.safetensors"));
    let once = from_json(&value);
    assert!(!set_lora_path(&mut value, "3", "b.safetensors"));
    assert_eq!(from_json(&value), once);
    assert_eq!(once["3"]["inputs"]["lora_name"], self::value(r#""b.safetensors""#));
}

#[test]
fn writing_a_field_twice_moves_on_to_the_next_node_that_takes_it() {
    let mut value = doc(
        r#"{"1": {"class_type": "KSampler", "inputs": {"steps": 8}},
            "2": {"class_type": "KSampler", "inputs": {"steps": 9}}}"#,
    );
    assert!(update(&mut value, "ksampler_steps", "12"));
    assert_eq!(from_json(&value)["1"]["inputs"]["steps"], self::value("12"));
    assert_eq!(from_json(&value)["2"]["inputs"]["steps"], self::value("9"));
    assert!(update(&mut value, "ksampler_steps", "12"));
    assert_eq!(from_json(&value)["2"]["inputs"]["steps"], self::value("12"));
}

#[test]
fn a_metadata_write_changes_one_value_only() {
    let mut document = doc(
        r#"{"3": {"class_type": "KSampler", "inputs": {"seed": 1, "steps": 20, "cfg": 7}},
            "4": {"class_type": "KSampler", "inputs": {"steps": 20}}}"#,
    );
    assert!(update(&mut document, "ksampler_steps", "12"));
    assert_eq!(
        from_json(&document),
        value(
            r#"{"3": {"class_type": "KSampler", "inputs": {"seed": 1, "steps": 12, "cfg": 7}},
                "4": {"class_type": "KSampler", "inputs": {"steps": 20}}}"#
        )
    );
}
