use adb_studio::comfyui::graph::is_runnable_audio_workflow;
use adb_studio::comfyui::parser::{cached_parse_of, fitting_parse, workflow_cache_key};
use adb_studio::comfyui::parser::{canonical_json_hash, parse_value, parse_with_hash, workflow_cache_path};
use adb_studio::comfyui::prompt::workflow_to_api_prompt;
use adb_studio::comfyui::{display_lora_name, LoRAInfo};
use adb_studio::json::Json;
use serde_json::Value;

fn to_json(v: &Value) -> Json {
    match v {
        Value::Null => Json::Null,
        Value::Bool(b) => Json::Bool(*b),
        Value::Number(n) => Json::Number(n.to_string()),
        Value::String(s) => Json::Str(s.clone()),
        Value::Array(a) => Json::Array(a.iter().map(to_json).collect()),
        Value::Object(o) => Json::Object(o.iter().map(|(k, v)| (k.clone(), to_json(v))).collect()),
    }
}

fn from_json(j: &Json) -> Value {
    match j {
        Json::Null => Value::Null,
        Json::Bool(b) => Value::Bool(*b),
        Json::Number(t) => serde_json::from_str(t).unwrap(),
        Json::Str(s) => Value::String(s.clone()),
        Json::Array(a) => Value::Array(a.iter().map(from_json).collect()),
        Json::Object(o) => {
            Value::Object(o.iter().map(|(k, v)| (k.clone(), from_json(v))).collect())
        }
    }
}

fn value(text: &str) -> Value {
    serde_json::from_str(text).unwrap()
}

fn doc(text: &str) -> Json {
    to_json(&value(text))
}

#[test]
fn display_lora_name_strips_only_safetensors_suffix() {
    assert_eq!(display_lora_name("style.safetensors"), "style");
    assert_eq!(display_lora_name("style.ckpt"), "style.ckpt");
    assert_eq!(display_lora_name("safetensors"), "safetensors");
}

#[test]
fn parser_extracts_ace_step_metadata_and_loras() {
    let workflow = parse_value(&doc(
        r#"{
            "1": {"class_type": "TextEncodeAceStepAudio1.5", "inputs": {
                "bpm": 128, "key": "Bb minor", "prompt": "bright synthwave", "lyrics": "verse"
            }},
            "2": {"class_type": "CheckpointLoaderSimple", "inputs": {
                "ckpt_name": "model.safetensors"
            }},
            "3": {"class_type": "Load LoRA", "inputs": {
                "lora_name": "style.safetensors", "strength_model": 0.8
            }},
            "4": {"class_type": "KSampler", "inputs": {
                "model": ["3", 0]
            }}
        }"#,
    ));

    assert_eq!(workflow.bpm, "128");
    assert_eq!(workflow.duration, "");
    assert_eq!(workflow.key, "Bb minor");
    assert_eq!(workflow.model, "model.safetensors");
    assert_eq!(workflow.prompt, "bright synthwave");
    assert_eq!(workflow.lyrics, "verse");
    assert_eq!(
        workflow.loras,
        vec![LoRAInfo {
            node_id: "3".into(),
            filename: "style.safetensors".into(),
            custom_path: String::new(),
            strength: "0.8".into()
        }]
    );
}

#[test]
fn identifies_api_audio_generation_workflow() {
    assert!(is_runnable_audio_workflow(&doc(
        r#"{
            "1": {"class_type": "TextEncodeAceStepAudio1.5", "inputs": {}},
            "2": {"class_type": "KSampler", "inputs": {}}
        }"#
    )));
}

#[test]
fn converts_visual_workflow_to_api_prompt() {
    let prompt = from_json(
        &workflow_to_api_prompt(&doc(
            r#"{
            "nodes": [
                {"id": 1, "type": "Source", "inputs": [], "widgets_values": []},
                {"id": 2, "type": "KSampler", "inputs": [
                    {"name": "model", "link": 7},
                    {"name": "seed", "widget": {"name": "seed"}, "link": null}
                ], "widgets_values": [42]}
            ],
            "links": [[7, 1, 0, 2, 0, "MODEL"]]
        }"#,
        ))
        .unwrap(),
    );
    assert_eq!(prompt["2"]["class_type"], "KSampler");
    assert_eq!(prompt["2"]["inputs"]["model"], value(r#"["1", 0]"#));
    assert_eq!(prompt["2"]["inputs"]["seed"], 42);
}

#[test]
fn omits_frontend_nodes_and_inlines_primitive_values() {
    let prompt = from_json(
        &workflow_to_api_prompt(&doc(
            r#"{
            "nodes": [
                {"id": 1, "type": "PrimitiveNode", "widgets_values": [120],
                 "outputs": [{"links": [7]}]},
                {"id": 2, "type": "MarkdownNote", "widgets_values": ["note"]},
                {"id": 3, "type": "EmptyAceStep1.5LatentAudio", "inputs": [
                    {"name": "seconds", "link": 7}
                ]}
            ],
            "links": [[7, 1, 0, 3, 0, "FLOAT"]]
        }"#,
        ))
        .unwrap(),
    );
    assert!(prompt.get("1").is_none());
    assert!(prompt.get("2").is_none());
    assert_eq!(prompt["3"]["inputs"]["seconds"], 120);
}

#[test]
fn identifies_visual_audio_generation_workflow() {
    assert!(is_runnable_audio_workflow(&doc(
        r#"{
            "nodes": [
                {"id": 1, "type": "EmptyAceStep1.5LatentAudio", "mode": 0},
                {"id": 2, "type": "KSamplerAceStepAura", "mode": 0}
            ]
        }"#
    )));
}

#[test]
fn rejects_training_workflow_even_when_it_contains_acestep_nodes() {
    assert!(!is_runnable_audio_workflow(&doc(
        r#"{
            "nodes": [
                {"id": 1, "type": "FL_AceStep_PreprocessDataset", "mode": 0},
                {"id": 2, "type": "FL_AceStep_LoRATrainer", "mode": 0},
                {"id": 3, "type": "KSampler", "mode": 0}
            ]
        }"#
    )));
}

#[test]
fn parser_accepts_lyrics_from_a_separate_text_node() {
    let workflow = parse_value(&doc(
        r#"{
            "1": {"class_type": "TextEncodeAceStepAudio1.5", "inputs": {"bpm": 100}},
            "2": {"class_type": "ShowText", "inputs": {"lyrics": "la la la"}}
        }"#,
    ));
    assert_eq!(workflow.lyrics, "la la la");
}

#[test]
fn parser_extracts_metadata_from_visual_workflow_nodes() {
    let workflow = parse_value(&doc(
        r#"{
            "nodes": [
                {
                    "id": 1,
                    "type": "TextEncodeAceStepAudio1.5",
                    "inputs": [
                        {"name": "tags", "widget": {"name": "tags"}, "link": null},
                        {"name": "lyrics", "widget": {"name": "lyrics"}, "link": null},
                        {"name": "seed", "widget": {"name": "seed"}, "link": 1},
                        {"name": "bpm", "widget": {"name": "bpm"}, "link": null},
                        {"name": "keyscale", "widget": {"name": "keyscale"}, "link": null}
                    ],
                    "widgets_values": ["prompt", "lyrics", 31, 130, "E minor"]
                },
                {
                    "id": 2,
                    "type": "CheckpointLoaderSimple",
                    "inputs": [
                        {"name": "ckpt_name", "widget": {"name": "ckpt_name"}, "link": null}
                    ],
                    "widgets_values": ["model.safetensors"]
                },
                {
                    "id": 3,
                    "type": "LoraLoaderModelOnly",
                    "inputs": [
                        {"name": "model", "link": 2},
                        {"name": "lora_name", "widget": {"name": "lora_name"}, "link": null},
                        {"name": "strength_model", "widget": {"name": "strength_model"}, "link": null}
                    ],
                    "widgets_values": ["style.safetensors", 0.8],
                    "outputs": [{"name": "MODEL", "links": [10]}]
                },
                {
                    "id": 4,
                    "type": "KSampler",
                    "inputs": [{"name": "model", "link": 10}]
                }
            ],
            "links": [[10, 3, 0, 4, 0, "MODEL"]]
        }"#,
    ));

    assert_eq!(workflow.bpm, "130");
    assert_eq!(workflow.key, "E minor");
    assert_eq!(workflow.seed, "31");
    assert_eq!(workflow.prompt, "prompt");
    assert_eq!(workflow.lyrics, "lyrics");
    assert_eq!(workflow.model, "model.safetensors");
    assert_eq!(workflow.loras[0].filename, "style.safetensors");
    assert_eq!(workflow.loras[0].strength, "0.8");
}

#[test]
fn extracts_lora_from_descriptorless_model_only_node() {
    let workflow = parse_value(&doc(
        r#"{
            "nodes": [{
                "id": 106,
                "type": "LoraLoaderModelOnly",
                "inputs": [{"name": "model", "link": 291}],
                "widgets_values": ["/remote/models/lora9_rondoveneziano_500.safetensors", 1.2],
                "outputs": [{"name": "MODEL", "links": [292]}]
            }, {
                "id": 107,
                "type": "KSampler",
                "inputs": [{"name": "model", "link": 292}]
            }],
            "links": [[292, 106, 0, 107, 0, "MODEL"]]
        }"#,
    ));

    assert_eq!(workflow.loras[0].node_id, "106");
    assert_eq!(workflow.loras[0].filename, "lora9_rondoveneziano_500.safetensors");
    assert_eq!(workflow.loras[0].strength, "1.2");
}

#[test]
fn extracts_only_loras_on_the_chain_to_a_ksampler() {
    let workflow = parse_value(&doc(
        r#"{
            "1": {"class_type": "CheckpointLoaderSimple", "inputs": {
                "ckpt_name": "model.safetensors"
            }},
            "2": {"class_type": "Load LoRA", "inputs": {
                "model": ["1", 0], "lora_name": "connected.safetensors"
            }},
            "3": {"class_type": "Load LoRA", "inputs": {
                "model": ["1", 0], "lora_name": "bypassed.safetensors"
            }},
            "4": {"class_type": "KSampler", "inputs": {
                "model": ["2", 0]
            }}
        }"#,
    ));

    assert_eq!(
        workflow.loras.iter().map(|lora| lora.filename.as_str()).collect::<Vec<_>>(),
        vec!["connected.safetensors"]
    );
}

#[test]
fn excludes_bypassed_loras_but_keeps_enabled_upstream_loras() {
    let workflow = parse_value(&doc(
        r#"{
            "nodes": [
                {
                    "id": 1,
                    "type": "LoraLoaderModelOnly",
                    "inputs": [{"name": "model", "link": null}],
                    "widgets_values": ["enabled.safetensors", 1.0]
                },
                {
                    "id": 2,
                    "type": "LoraLoaderModelOnly",
                    "mode": 4,
                    "inputs": [{"name": "model", "link": 10}],
                    "widgets_values": ["bypassed.safetensors", 1.0],
                    "outputs": [{"name": "MODEL", "links": [11]}]
                },
                {
                    "id": 3,
                    "type": "KSampler",
                    "inputs": [{"name": "model", "link": 11}]
                }
            ],
            "links": [
                [10, 1, 0, 2, 0, "MODEL"],
                [11, 2, 0, 3, 0, "MODEL"]
            ]
        }"#,
    ));

    assert_eq!(
        workflow.loras.iter().map(|lora| lora.filename.as_str()).collect::<Vec<_>>(),
        vec!["enabled.safetensors"]
    );
}

#[test]
fn parser_extracts_model_from_unet_loader_visual_node() {
    let workflow = parse_value(&doc(
        r#"{
            "nodes": [{
                "type": "UNETLoader",
                "inputs": [{
                    "name": "unet_name",
                    "widget": {"name": "unet_name"},
                    "link": 55
                }],
                "properties": {
                    "models": [{"name": "minimax_music3_dit_fp16.safetensors"}]
                },
                "widgets_values": ["minimax_music3_dit_fp16.safetensors", "default"]
            }]
        }"#,
    ));

    assert_eq!(workflow.model, "minimax_music3_dit_fp16.safetensors");
}

#[test]
fn parser_skips_seed_control_value_before_bpm() {
    let workflow = parse_value(&doc(
        r#"{
            "nodes": [{
                "type": "TextEncodeAceStepAudio1.5",
                "inputs": [
                    {"name": "tags", "widget": {}},
                    {"name": "lyrics", "widget": {}},
                    {"name": "seed", "widget": {}},
                    {"name": "bpm", "widget": {}}
                ],
                "widgets_values": ["prompt", "lyrics", 31, "fixed", 130]
            }]
        }"#,
    ));

    assert_eq!(workflow.bpm, "130");
}

#[test]
fn parser_extracts_metadata_from_positional_acestep_export() {
    let workflow = parse_value(&doc(
        r#"{
            "nodes": [{
                "type": "TextEncodeAceStepAudio1.5",
                "inputs": [
                    {"name": "clip"},
                    {"name": "seed", "widget": {"name": "seed"}},
                    {"name": "duration", "widget": {"name": "duration"}}
                ],
                "widgets_values": [
                    "prompt text", "[Verse] lyrics", 32, "fixed", 125, 30,
                    "4", "en", "E minor", true, 2, 0.85, 0.9, 0, 0
                ]
            }]
        }"#,
    ));

    assert_eq!(workflow.bpm, "125");
    assert_eq!(workflow.duration, "30");
    assert_eq!(workflow.key, "E minor");
    assert_eq!(workflow.seed, "32");
    assert_eq!(workflow.prompt, "prompt text");
    assert_eq!(workflow.lyrics, "[Verse] lyrics");
}

#[test]
fn preserves_acestep_sampling_widget_order() {
    let prompt = from_json(
        &workflow_to_api_prompt(&doc(
            r#"{
            "nodes": [{
                "id": 1,
                "type": "TextEncodeAceStepAudio1.5",
                "inputs": [
                    {"name": "clip", "link": 2},
                    {"name": "tags", "widget": {}, "link": null},
                    {"name": "lyrics", "widget": {}, "link": null},
                    {"name": "seed", "widget": {}, "link": null},
                    {"name": "bpm", "widget": {}, "link": null},
                    {"name": "duration", "widget": {}, "link": null},
                    {"name": "timesignature", "widget": {}, "link": null},
                    {"name": "language", "widget": {}, "link": null},
                    {"name": "keyscale", "widget": {}, "link": null},
                    {"name": "generate_audio_codes", "widget": {}, "link": null},
                    {"name": "cfg_scale", "widget": {}, "link": null},
                    {"name": "temperature", "widget": {}, "link": null},
                    {"name": "top_p", "widget": {}, "link": null},
                    {"name": "top_k", "widget": {}, "link": null},
                    {"name": "min_p", "widget": {}, "link": null}
                ],
                "widgets_values": [
                    "tags", "lyrics", "", "fixed", 117, 240, "4", "en",
                    "E minor", true, 2, 0.85, 0.9, 0, 0
                ]
            }, {
                "id": 2,
                "type": "CLIPLoader",
                "widgets_values": []
            }],
            "links": [[2, 2, 0, 1, 0, "CLIP"]]
        }"#,
        ))
        .unwrap(),
    );
    let inputs = &prompt["1"]["inputs"];
    assert_eq!(inputs["cfg_scale"], value("2"));
    assert_eq!(inputs["temperature"], value("0.85"));
    assert_eq!(inputs["top_p"], value("0.9"));
    assert_eq!(inputs["top_k"], value("0"));
    assert_eq!(inputs["min_p"], value("0"));
}

#[test]
fn workflow_hash_is_the_sha256_of_the_compact_json() {
    let empty = to_json(&serde_json::from_str::<Value>("{}").unwrap());
    assert_eq!(
        canonical_json_hash(&empty),
        "44136fa355b3678a1146ad16f7e8649e94fb4fc21fe77e8310c060f61caaff8a"
    );
    let spaced = to_json(&serde_json::from_str::<Value>(r#"{ "a" : [ 1, "x" ] }"#).unwrap());
    assert_eq!(
        canonical_json_hash(&spaced),
        "5e49f471d8b615a8ae0ecf0a53dbe2f5f617abb2dfe6246974aa6e4bdeb89725"
    );
    let (workflow, hash) = parse_with_hash(&spaced);
    assert_eq!(workflow.bpm, "");
    assert_eq!(hash, canonical_json_hash(&spaced));
}

#[test]
fn workflow_cache_is_named_by_the_hash_of_the_relative_path() {
    assert_eq!(
        workflow_cache_path("/w", "songs/a.workflow.json"),
        "/w/.adbstudio/workflow-cache/b2340a689caf501a78ddac4b0bfd1bee5c8f68f55fddb8cc1509c811604aa844.json"
    );
}

#[test]
fn json_text_escapes_strings_as_serde_json_does() {
    let value = adb_studio::json::Json::Str("a\"b\\c\n\t\u{1}\u{1f}é".to_string());
    assert_eq!(
        adb_studio::json::json_text(&value),
        "\"a\\\"b\\\\c\\n\\t\\u0001\\u001fé\""
    );
}

#[test]
fn cached_parses_serve_only_the_unchanged_file() {
    assert_eq!(workflow_cache_key("/w", "/w/flows/a.json"), Ok("flows/a.json".to_string()));
    assert_eq!(
        workflow_cache_key("/w", "/x/a.json"),
        Err("workflow path is outside workspace: prefix not found".to_string())
    );
    let document = doc(r#"{"bpm": 120}"#);
    let entry = cached_parse_of(&document, "flows/a.json".to_string(), 10, 20);
    assert_eq!(entry.json_hash, canonical_json_hash(&document));
    assert_eq!(entry.workflow, parse_value(&document));
    let (workflow, hash) = fitting_parse(entry.clone(), "flows/a.json", 10, 20).unwrap();
    assert_eq!(workflow, parse_value(&document));
    assert_eq!(hash, canonical_json_hash(&document));
    assert!(fitting_parse(entry.clone(), "flows/a.json", 11, 20).is_none());
    assert!(fitting_parse(entry.clone(), "flows/a.json", 10, 21).is_none());
    assert!(fitting_parse(entry, "flows/b.json", 10, 20).is_none());
}

#[test]
fn a_converted_prompt_converts_to_itself() {
    let prompt = workflow_to_api_prompt(&doc(
        r#"{
        "nodes": [
            {"id": 1, "type": "Source", "inputs": [], "widgets_values": []},
            {"id": 2, "type": "KSampler", "inputs": [
                {"name": "model", "link": 7},
                {"name": "seed", "widget": {"name": "seed"}, "link": null}
            ], "widgets_values": [42]}
        ],
        "links": [[7, 1, 0, 2, 0, "MODEL"]]
    }"#,
    ))
    .unwrap();
    let again = workflow_to_api_prompt(&prompt).unwrap();
    assert_eq!(from_json(&again), from_json(&prompt));
}
