//! What a ComfyUI workflow says about the track it generated, and edits to it.
pub mod chain;
pub mod diff;
pub mod graph;
pub mod parser;
pub mod prompt;
pub mod updater;

use vstd::prelude::*;
use crate::json::{
    entries_get, entries_insert, entries_put, entries_find, entry_models, json_duplicate, Json,
    JsonModel,
};
use crate::text::{chars_of, slice_chars, string_of};

verus! {

/// A LoRA that the workflow applies.
#[derive(Clone, Debug, PartialEq)]
pub struct LoRAInfo {
    pub node_id: String,
    pub filename: String,
    pub custom_path: String,
    pub strength: String,
}

pub struct LoraModel {
    pub node_id: Seq<char>,
    pub filename: Seq<char>,
    pub custom_path: Seq<char>,
    pub strength: Seq<char>,
}

impl View for LoRAInfo {
    type V = LoraModel;

    open spec fn view(&self) -> LoraModel {
        LoraModel {
            node_id: self.node_id@,
            filename: self.filename@,
            custom_path: self.custom_path@,
            strength: self.strength@,
        }
    }
}

/// The track parameters read from a workflow.
#[derive(Clone, Debug, PartialEq)]
pub struct ComfyUIWorkflow {
    pub bpm: String,
    pub duration: String,
    pub key: String,
    pub seed: String,
    pub ksampler_cfg: String,
    pub ksampler_steps: String,
    pub reference_audio: String,
    pub reference_audio_hash: String,
    pub reference_audio_guess_attempted: bool,
    pub reference_audio_ambiguous: bool,
    pub model: String,
    pub prompt: String,
    pub lyrics: String,
    pub loras: Vec<LoRAInfo>,
}

pub struct WorkflowModel {
    pub bpm: Seq<char>,
    pub duration: Seq<char>,
    pub key: Seq<char>,
    pub seed: Seq<char>,
    pub ksampler_cfg: Seq<char>,
    pub ksampler_steps: Seq<char>,
    pub reference_audio: Seq<char>,
    pub reference_audio_hash: Seq<char>,
    pub reference_audio_guess_attempted: bool,
    pub reference_audio_ambiguous: bool,
    pub model: Seq<char>,
    pub prompt: Seq<char>,
    pub lyrics: Seq<char>,
    pub loras: Seq<LoraModel>,
}

impl View for ComfyUIWorkflow {
    type V = WorkflowModel;

    open spec fn view(&self) -> WorkflowModel {
        WorkflowModel {
            bpm: self.bpm@,
            duration: self.duration@,
            key: self.key@,
            seed: self.seed@,
            ksampler_cfg: self.ksampler_cfg@,
            ksampler_steps: self.ksampler_steps@,
            reference_audio: self.reference_audio@,
            reference_audio_hash: self.reference_audio_hash@,
            reference_audio_guess_attempted: self.reference_audio_guess_attempted,
            reference_audio_ambiguous: self.reference_audio_ambiguous,
            model: self.model@,
            prompt: self.prompt@,
            lyrics: self.lyrics@,
            loras: self.loras@.map_values(|l: LoRAInfo| l@),
        }
    }
}

/// The workflow with every field empty and no LoRA.
pub open spec fn empty_workflow() -> WorkflowModel {
    WorkflowModel {
        bpm: Seq::empty(),
        duration: Seq::empty(),
        key: Seq::empty(),
        seed: Seq::empty(),
        ksampler_cfg: Seq::empty(),
        ksampler_steps: Seq::empty(),
        reference_audio: Seq::empty(),
        reference_audio_hash: Seq::empty(),
        reference_audio_guess_attempted: false,
        reference_audio_ambiguous: false,
        model: Seq::empty(),
        prompt: Seq::empty(),
        lyrics: Seq::empty(),
        loras: Seq::empty(),
    }
}

impl Default for ComfyUIWorkflow {
    fn default() -> (r: Self)
        ensures
            r@ == empty_workflow(),
    {
        let r = ComfyUIWorkflow {
            bpm: String::new(),
            duration: String::new(),
            key: String::new(),
            seed: String::new(),
            ksampler_cfg: String::new(),
            ksampler_steps: String::new(),
            reference_audio: String::new(),
            reference_audio_hash: String::new(),
            reference_audio_guess_attempted: false,
            reference_audio_ambiguous: false,
            model: String::new(),
            prompt: String::new(),
            lyrics: String::new(),
            loras: Vec::new(),
        };
        assert(r@.loras =~= Seq::<LoraModel>::empty());
        r
    }
}

/// A parameter in which a track differs from the pinned track, and how.
#[derive(Clone, Debug, PartialEq)]
pub struct TrackDifference {
    pub label: String,
    pub value: String,
}

pub struct DifferenceModel {
    pub label: Seq<char>,
    pub value: Seq<char>,
}

impl View for TrackDifference {
    type V = DifferenceModel;

    open spec fn view(&self) -> DifferenceModel {
        DifferenceModel { label: self.label@, value: self.value@ }
    }
}

pub open spec fn ends_with_seq(s: Seq<char>, suffix: Seq<char>) -> bool {
    suffix.len() <= s.len() && s.subrange(s.len() - suffix.len(), s.len() as int) == suffix
}

/// The LoRA file name without a trailing `.safetensors`; any other name unchanged.
pub open spec fn display_lora_name_seq(filename: Seq<char>) -> Seq<char> {
    if ends_with_seq(filename, ".safetensors"@) {
        filename.subrange(0, filename.len() - ".safetensors"@.len())
    } else {
        filename
    }
}

pub fn display_lora_name(filename: &str) -> (r: String)
    ensures
        r@ == display_lora_name_seq(filename@),
{
    let v = chars_of(filename);
    let suffix = chars_of(".safetensors");
    if suffix.len() <= v.len() {
        let start = v.len() - suffix.len();
        let tail = slice_chars(&v, start, v.len());
        if crate::json::text_eq(string_of(tail.as_slice()).as_str(), ".safetensors") {
            let head = slice_chars(&v, 0, start);
            return string_of(head.as_slice());
        }
    }
    string_of(v.as_slice())
}

/// The workflow with the reference-audio bookkeeping stored in its `_adb_studio` member:
/// a document that is not an object, or whose `_adb_studio` member is not an object, is
/// left as it is.
pub open spec fn reference_audio_metadata_spec(
    v: JsonModel,
    hash: Seq<char>,
    guess_attempted: bool,
    ambiguous: bool,
) -> JsonModel {
    match v {
        JsonModel::Object(es) => {
            let meta = match entries_get(es, "_adb_studio"@) {
                Some(m) => m,
                None => JsonModel::Object(Seq::empty()),
            };
            match meta {
                JsonModel::Object(mes) => JsonModel::Object(
                    entries_insert(
                        es,
                        "_adb_studio"@,
                        JsonModel::Object(
                            entries_insert(
                                entries_insert(
                                    entries_insert(
                                        mes,
                                        "reference_audio_hash"@,
                                        JsonModel::Str(hash),
                                    ),
                                    "reference_audio_guess_attempted"@,
                                    JsonModel::Bool(guess_attempted),
                                ),
                                "reference_audio_ambiguous"@,
                                JsonModel::Bool(ambiguous),
                            ),
                        ),
                    ),
                ),
                _ => v,
            }
        },
        _ => v,
    }
}

/// Records in the workflow the hash of its reference audio and how that audio was found.
pub fn set_reference_audio_metadata(
    workflow: &mut Json,
    hash: &str,
    guess_attempted: bool,
    ambiguous: bool,
)
    ensures
        final(workflow).model() == reference_audio_metadata_spec(
            old(workflow).model(),
            hash@,
            guess_attempted,
            ambiguous,
        ),
{
    let replacement = match &*workflow {
        Json::Object(es) => {
            let meta = match entries_find(es, "_adb_studio") {
                Some(m) => json_duplicate(m),
                None => {
                    let empty: Vec<(String, Json)> = Vec::new();
                    assert(entry_models(empty@) =~= Seq::empty());
                    Json::Object(empty)
                },
            };
            match meta {
                Json::Object(mut mes) => {
                    entries_put(
                        &mut mes,
                        String::from_str("reference_audio_hash"),
                        Json::Str(String::from_str(hash)),
                    );
                    entries_put(
                        &mut mes,
                        String::from_str("reference_audio_guess_attempted"),
                        Json::Bool(guess_attempted),
                    );
                    entries_put(
                        &mut mes,
                        String::from_str("reference_audio_ambiguous"),
                        Json::Bool(ambiguous),
                    );
                    let mut top = clone_entries(es);
                    entries_put(&mut top, String::from_str("_adb_studio"), Json::Object(mes));
                    Some(Json::Object(top))
                },
                _ => None,
            }
        },
        _ => None,
    };
    if let Some(r) = replacement {
        *workflow = r;
    }
}

/// A copy of an object's members.
pub fn clone_entries(es: &Vec<(String, Json)>) -> (r: Vec<(String, Json)>)
    ensures
        entry_models(r@) == entry_models(es@),
{
    broadcast use crate::json::group_json_models;

    let mut out: Vec<(String, Json)> = Vec::new();
    let n = es.len();
    for i in 0..n
        invariant
            n == es.len(),
            out.len() == i,
            forall|k: int|
                0 <= k < i ==> out@[k].0@ == es@[k].0@ && out@[k].1.model() == es@[k].1.model(),
    {
        out.push((es[i].0.clone(), json_duplicate(&es[i].1)));
    }
    assert(entry_models(out@) =~= entry_models(es@));
    out
}

/// A copy of a list of texts.
pub fn clone_texts(v: &Vec<String>) -> (r: Vec<String>)
    ensures
        graph::texts(r@) == graph::texts(v@),
{
    let mut out: Vec<String> = Vec::new();
    let n = v.len();
    for i in 0..n
        invariant
            n == v.len(),
            out.len() == i,
            forall|k: int| 0 <= k < i ==> out@[k]@ == v@[k]@,
    {
        out.push(v[i].clone());
    }
    assert(graph::texts(out@) =~= graph::texts(v@));
    out
}

} // verus!
