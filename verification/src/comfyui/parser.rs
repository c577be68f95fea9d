//! Reading track parameters out of ComfyUI workflows, in API-prompt form (an object of
//! nodes keyed by id, each with a `class_type`) or in visual-graph form (a `nodes` array).
use vstd::prelude::*;
use crate::json::{
    entries_find, entries_get, entry_models, jget, lemma_entry_models_index,
    lemma_entry_models_len, lemma_models_index, lemma_models_len, models, oarr, oobj, opt_model,
    ostr, scalar_text, seq_at, text_eq, Json, JsonModel,
};
use crate::text::{
    ascii_lower, basename, basename_seq, contains_seq, remove_separators, str_contains,
    to_ascii_lowercase, without_separators, eq_ignore_ascii_case,
};
use super::{ComfyUIWorkflow, LoRAInfo, LoraModel, WorkflowModel};
use super::graph::{active_lora_ids, active_lora_spec, texts, texts_contain};
use super::prompt::{api_prompt_spec, workflow_to_api_prompt};
use crate::metadata::{sha256_hex, sha256_hex_of};
use vstd::utf8::encode_utf8;

verus! {

/// The text of an optional value; empty when there is none.
pub open spec fn text_of(o: Option<JsonModel>) -> Seq<char> {
    match o {
        Some(v) => scalar_text(v),
        None => Seq::empty(),
    }
}

pub open spec fn or_text(o: Option<Seq<char>>) -> Seq<char> {
    match o {
        Some(t) => t,
        None => Seq::empty(),
    }
}

/// `a.or_else(|| b)`.
pub open spec fn first_some(a: Option<JsonModel>, b: Option<JsonModel>) -> Option<JsonModel> {
    if a.is_some() {
        a
    } else {
        b
    }
}

/// The first of `keys` whose member is a string, and that string.
pub open spec fn find_string_spec(es: Seq<(Seq<char>, JsonModel)>, keys: Seq<&str>) -> Option<
    Seq<char>,
>
    decreases keys.len(),
{
    if keys.len() == 0 {
        None
    } else {
        match entries_get(es, keys[0]@) {
            Some(JsonModel::Str(s)) => Some(s),
            _ => find_string_spec(es, keys.drop_first()),
        }
    }
}

/// The text of the first of `keys` that names a member.
pub open spec fn find_scalar_spec(es: Seq<(Seq<char>, JsonModel)>, keys: Seq<&str>) -> Option<
    Seq<char>,
>
    decreases keys.len(),
{
    if keys.len() == 0 {
        None
    } else {
        match entries_get(es, keys[0]@) {
            Some(v) => Some(scalar_text(v)),
            None => find_scalar_spec(es, keys.drop_first()),
        }
    }
}

/// The first member whose value is a string, and that string.
pub open spec fn first_string_member(es: Seq<(Seq<char>, JsonModel)>) -> Option<Seq<char>>
    decreases es.len(),
{
    if es.len() == 0 {
        None
    } else if es[0].1 is Str {
        Some(scalar_text(es[0].1))
    } else {
        first_string_member(es.drop_first())
    }
}

pub fn find_string(es: &Vec<(String, Json)>, keys: &Vec<&str>) -> (r: Option<String>)
    ensures
        match r {
            Some(s) => find_string_spec(entry_models(es@), keys@) == Some(s@),
            None => find_string_spec(entry_models(es@), keys@).is_none(),
        },
{
    let n = keys.len();
    assert(keys@.skip(0) =~= keys@);
    for i in 0..n
        invariant
            n == keys.len(),
            find_string_spec(entry_models(es@), keys@) == find_string_spec(
                entry_models(es@),
                keys@.skip(i as int),
            ),
    {
        assert(keys@.skip(i as int).drop_first() =~= keys@.skip(i + 1));
        assert(keys@.skip(i as int)[0] == keys@[i as int]);
        match entries_find(es, keys[i]) {
            Some(v) => {
                match v {
                    Json::Str(s) => {
                        return Some(s.clone());
                    },
                    _ => {},
                }
            },
            None => {},
        }
    }
    None
}

pub fn find_scalar(es: &Vec<(String, Json)>, keys: &Vec<&str>) -> (r: Option<String>)
    ensures
        match r {
            Some(s) => find_scalar_spec(entry_models(es@), keys@) == Some(s@),
            None => find_scalar_spec(entry_models(es@), keys@).is_none(),
        },
{
    let n = keys.len();
    assert(keys@.skip(0) =~= keys@);
    for i in 0..n
        invariant
            n == keys.len(),
            find_scalar_spec(entry_models(es@), keys@) == find_scalar_spec(
                entry_models(es@),
                keys@.skip(i as int),
            ),
    {
        assert(keys@.skip(i as int).drop_first() =~= keys@.skip(i + 1));
        assert(keys@.skip(i as int)[0] == keys@[i as int]);
        match entries_find(es, keys[i]) {
            Some(v) => {
                return Some(v.scalar_text());
            },
            None => {},
        }
    }
    None
}

pub fn find_first_string_member(es: &Vec<(String, Json)>) -> (r: Option<String>)
    ensures
        match r {
            Some(s) => first_string_member(entry_models(es@)) == Some(s@),
            None => first_string_member(entry_models(es@)).is_none(),
        },
{
    let n = es.len();
    let ghost m = entry_models(es@);
    proof {
        lemma_entry_models_len(es@);
    }
    assert(m.skip(0) =~= m);
    for i in 0..n
        invariant
            n == es.len(),
            m == entry_models(es@),
            m.len() == n,
            first_string_member(m) == first_string_member(m.skip(i as int)),
    {
        proof {
            lemma_entry_models_index(es@, i as int);
        }
        assert(m.skip(i as int).drop_first() =~= m.skip(i + 1));
        assert(m.skip(i as int)[0] == m[i as int]);
        if es[i].1.is_string() {
            return Some(es[i].1.scalar_text());
        }
    }
    None
}

/// The value stored last under `key` in a list of (name, value) pairs, as a map that
/// each insertion overwrites would hold it.
pub open spec fn lookup_last(list: Seq<(Seq<char>, JsonModel)>, key: Seq<char>) -> Option<
    JsonModel,
>
    decreases list.len(),
{
    if list.len() == 0 {
        None
    } else if list.last().0 == key {
        Some(list.last().1)
    } else {
        lookup_last(list.drop_last(), key)
    }
}

/// The value under the first of `keys` that the list holds.
pub open spec fn values_first(list: Seq<(Seq<char>, JsonModel)>, keys: Seq<&str>) -> Option<
    JsonModel,
>
    decreases keys.len(),
{
    if keys.len() == 0 {
        None
    } else {
        match lookup_last(list, keys[0]@) {
            Some(v) => Some(v),
            None => values_first(list, keys.drop_first()),
        }
    }
}

pub fn lookup_last_exec<'a>(list: &'a Vec<(String, Json)>, key: &str) -> (r: Option<&'a Json>)
    ensures
        opt_model(r) == lookup_last(entry_models(list@), key@),
{
    let ghost m = entry_models(list@);
    proof {
        lemma_entry_models_len(list@);
    }
    let mut i = list.len();
    assert(m.take(i as int) =~= m);
    while i > 0
        invariant
            i <= list.len(),
            m == entry_models(list@),
            m.len() == list.len(),
            lookup_last(m, key@) == lookup_last(m.take(i as int), key@),
        decreases i,
    {
        proof {
            lemma_entry_models_index(list@, i - 1);
        }
        assert(m.take(i as int).drop_last() =~= m.take(i - 1));
        assert(m.take(i as int).last() == m[i - 1]);
        if text_eq(list[i - 1].0.as_str(), key) {
            return Some(&list[i - 1].1);
        }
        i = i - 1;
    }
    None
}

pub fn values_first_exec<'a>(list: &'a Vec<(String, Json)>, keys: &Vec<&str>) -> (r: Option<
    &'a Json,
>)
    ensures
        opt_model(r) == values_first(entry_models(list@), keys@),
{
    let n = keys.len();
    assert(keys@.skip(0) =~= keys@);
    for i in 0..n
        invariant
            n == keys.len(),
            values_first(entry_models(list@), keys@) == values_first(
                entry_models(list@),
                keys@.skip(i as int),
            ),
    {
        assert(keys@.skip(i as int).drop_first() =~= keys@.skip(i + 1));
        assert(keys@.skip(i as int)[0] == keys@[i as int]);
        match lookup_last_exec(list, keys[i]) {
            Some(v) => {
                return Some(v);
            },
            None => {},
        }
    }
    None
}

/// Whether the value of a widget after a `seed` widget is the seed's control mode,
/// which then takes a widget slot of its own.
pub open spec fn is_seed_control(v: Option<JsonModel>) -> bool {
    match v {
        Some(JsonModel::Str(t)) => t == "fixed"@ || t == "randomize"@,
        _ => false,
    }
}

/// The widget values of a visual node by lower-case input name: the inputs that are
/// widgets take the widget values in order, a `seed` followed by its control mode taking
/// two slots.
pub open spec fn visual_values(inputs: Seq<JsonModel>, wv: Seq<JsonModel>, idx: int) -> Seq<
    (Seq<char>, JsonModel),
>
    decreases inputs.len(),
{
    if inputs.len() == 0 {
        Seq::empty()
    } else {
        let rest = inputs.drop_first();
        match inputs[0] {
            JsonModel::Object(io) => match entries_get(io, "name"@) {
                Some(JsonModel::Str(name)) => if entries_get(io, "widget"@).is_none() {
                    visual_values(rest, wv, idx)
                } else {
                    let here = match seq_at(wv, idx) {
                        Some(v) => seq![(ascii_lower(name), v)],
                        None => Seq::empty(),
                    };
                    let next = if ascii_lower(name) == ascii_lower("seed"@) && is_seed_control(
                        seq_at(wv, idx + 1),
                    ) {
                        idx + 2
                    } else {
                        idx + 1
                    };
                    here + visual_values(rest, wv, next)
                },
                _ => visual_values(rest, wv, idx),
            },
            _ => visual_values(rest, wv, idx),
        }
    }
}

pub fn collect_visual_values(inputs: &Vec<Json>, wv: &Vec<Json>) -> (r: Vec<(String, Json)>)
    ensures
        entry_models(r@) == visual_values(models(inputs@), models(wv@), 0),
{
    let ghost ins = models(inputs@);
    let ghost w = models(wv@);
    proof {
        lemma_models_len(inputs@);
        lemma_models_len(wv@);
    }
    let mut out: Vec<(String, Json)> = Vec::new();
    let mut idx: u128 = 0;
    let n = inputs.len();
    assert(ins.skip(0) =~= ins);
    assert(entry_models(out@) =~= Seq::empty());
    for i in 0..n
        invariant
            n == inputs.len(),
            ins == models(inputs@),
            w == models(wv@),
            ins.len() == n,
            w.len() == wv.len(),
            idx <= 2 * i,
            visual_values(ins, w, 0) == entry_models(out@) + visual_values(
                ins.skip(i as int),
                w,
                idx as int,
            ),
    {
        proof {
            lemma_models_index(inputs@, i as int);
        }
        assert(ins.skip(i as int).drop_first() =~= ins.skip(i + 1));
        assert(ins.skip(i as int)[0] == ins[i as int]);
        let ghost before = out@;
        match &inputs[i] {
            Json::Object(io) => {
                match entries_find(io, "name") {
                    Some(Json::Str(name)) => {
                        if entries_find(io, "widget").is_some() {
                            let lower = to_ascii_lowercase(name.as_str());
                            if idx < wv.len() as u128 {
                                proof {
                                    lemma_models_index(wv@, idx as int);
                                }
                                out.push((lower, crate::json::json_duplicate(&wv[idx as usize])));
                                proof {
                                    lemma_entry_models_len(out@);
                                    lemma_entry_models_len(before);
                                    assert forall|k: int| 0 <= k < before.len() implies entry_models(out@)[k] == entry_models(before)[k] by {
                                        lemma_entry_models_index(out@, k);
                                        lemma_entry_models_index(before, k);
                                    }
                                    lemma_entry_models_index(out@, before.len() as int);
                                }
                                assert(entry_models(out@) =~= entry_models(before).push(
                                    (ascii_lower(name@), w[idx as int]),
                                ));
                            }
                            let is_seed = eq_ignore_ascii_case(name.as_str(), "seed");
                            let mut next = idx + 1;
                            if is_seed && next < wv.len() as u128 {
                                proof {
                                    lemma_models_index(wv@, next as int);
                                }
                                match &wv[next as usize] {
                                    Json::Str(t) => {
                                        if text_eq(t.as_str(), "fixed") || text_eq(t.as_str(), "randomize") {
                                            next = next + 1;
                                        }
                                    },
                                    _ => {},
                                }
                            }
                            assert(entry_models(out@) + visual_values(ins.skip(i + 1), w, next as int)
                                =~= entry_models(before) + visual_values(ins.skip(i as int), w, idx as int));
                            idx = next;
                        }
                    },
                    _ => {},
                }
            },
            _ => {},
        }
    }
    assert(ins.skip(n as int) =~= Seq::<JsonModel>::empty());
    assert(entry_models(out@) =~= entry_models(out@) + Seq::<(Seq<char>, JsonModel)>::empty());
    out
}

pub open spec fn tags_keys() -> Seq<&'static str> {
    seq!["tags", "prompt"]
}

pub open spec fn key_keys() -> Seq<&'static str> {
    seq!["keyscale", "key", "tonality"]
}

pub open spec fn model_keys() -> Seq<&'static str> {
    seq!["ckpt_name", "checkpoint", "checkpoint_name", "model_name", "unet_name"]
}

pub open spec fn lora_file_keys() -> Seq<&'static str> {
    seq!["lora_name", "filename", "file_name", "name"]
}

pub open spec fn strength_keys() -> Seq<&'static str> {
    seq!["strength_model", "strength", "weight"]
}

pub open spec fn audio_keys() -> Seq<&'static str> {
    seq!["audio", "audio_name", "filename", "file_name", "name"]
}

/// An ACE-Step text encoder node in visual form: the named widget values fill the
/// fields still empty; a node whose nine or more widget values carry no `bpm` or
/// `keyscale` name is read by position (prompt, lyrics, seed, -, bpm, duration, -, -, key),
/// the seed and the duration taken from it in any case.
pub open spec fn visual_ace_spec(
    wf: WorkflowModel,
    values: Seq<(Seq<char>, JsonModel)>,
    wv: Seq<JsonModel>,
) -> WorkflowModel {
    let positional = wv.len() >= 9 && lookup_last(values, "bpm"@).is_none() && lookup_last(
        values,
        "keyscale"@,
    ).is_none();
    let w1 = if wf.prompt.len() == 0 {
        WorkflowModel { prompt: text_of(values_first(values, tags_keys())), ..wf }
    } else {
        wf
    };
    let w2 = if w1.lyrics.len() == 0 {
        WorkflowModel { lyrics: text_of(lookup_last(values, "lyrics"@)), ..w1 }
    } else {
        w1
    };
    let w3 = if w2.bpm.len() == 0 {
        WorkflowModel { bpm: text_of(lookup_last(values, "bpm"@)), ..w2 }
    } else {
        w2
    };
    let w4 = if w3.duration.len() == 0 {
        WorkflowModel { duration: text_of(lookup_last(values, "duration"@)), ..w3 }
    } else {
        w3
    };
    let w5 = if w4.seed.len() == 0 {
        WorkflowModel { seed: text_of(lookup_last(values, "seed"@)), ..w4 }
    } else {
        w4
    };
    let w6 = if w5.key.len() == 0 {
        WorkflowModel { key: text_of(values_first(values, key_keys())), ..w5 }
    } else {
        w5
    };
    if positional {
        let p1 = if w6.prompt.len() == 0 {
            WorkflowModel { prompt: text_of(seq_at(wv, 0)), ..w6 }
        } else {
            w6
        };
        let p2 = if p1.lyrics.len() == 0 {
            WorkflowModel { lyrics: text_of(seq_at(wv, 1)), ..p1 }
        } else {
            p1
        };
        let p3 = WorkflowModel { seed: text_of(seq_at(wv, 2)), ..p2 };
        let p4 = if p3.bpm.len() == 0 {
            WorkflowModel { bpm: text_of(seq_at(wv, 4)), ..p3 }
        } else {
            p3
        };
        let p5 = WorkflowModel { duration: text_of(seq_at(wv, 5)), ..p4 };
        if p5.key.len() == 0 {
            WorkflowModel { key: text_of(seq_at(wv, 8)), ..p5 }
        } else {
            p5
        }
    } else {
        w6
    }
}

/// A sampler node in visual form: steps and CFG, by name or else by position.
pub open spec fn visual_ksampler_spec(
    wf: WorkflowModel,
    values: Seq<(Seq<char>, JsonModel)>,
    wv: Seq<JsonModel>,
) -> WorkflowModel {
    let w1 = if wf.ksampler_steps.len() == 0 {
        WorkflowModel {
            ksampler_steps: text_of(first_some(lookup_last(values, "steps"@), seq_at(wv, 2))),
            ..wf
        }
    } else {
        wf
    };
    if w1.ksampler_cfg.len() == 0 {
        WorkflowModel {
            ksampler_cfg: text_of(first_some(lookup_last(values, "cfg"@), seq_at(wv, 3))),
            ..w1
        }
    } else {
        w1
    }
}

/// The reference audio of an audio loader in visual form: the file name of its audio.
pub open spec fn visual_audio_value(values: Seq<(Seq<char>, JsonModel)>, wv: Seq<JsonModel>) -> Option<
    JsonModel,
> {
    first_some(
        first_some(
            first_some(lookup_last(values, "audio"@), lookup_last(values, "audio_name"@)),
            lookup_last(values, "filename"@),
        ),
        seq_at(wv, 0),
    )
}

pub open spec fn visual_audio_spec(
    wf: WorkflowModel,
    values: Seq<(Seq<char>, JsonModel)>,
    wv: Seq<JsonModel>,
) -> WorkflowModel {
    WorkflowModel {
        reference_audio: match visual_audio_value(values, wv) {
            Some(v) => basename_seq(scalar_text(v)),
            None => Seq::empty(),
        },
        ..wf
    }
}

/// The model named in the `properties.models[0].name` of a node.
pub open spec fn properties_model(o: Seq<(Seq<char>, JsonModel)>) -> Seq<char> {
    match oobj(entries_get(o, "properties"@)) {
        Some(p) => match oarr(entries_get(p, "models"@)) {
            Some(ms) => match oobj(seq_at(ms, 0)) {
                Some(m) => text_of(entries_get(m, "name"@)),
                None => Seq::empty(),
            },
            None => Seq::empty(),
        },
        None => Seq::empty(),
    }
}

pub open spec fn visual_model_spec(
    wf: WorkflowModel,
    values: Seq<(Seq<char>, JsonModel)>,
    o: Seq<(Seq<char>, JsonModel)>,
) -> WorkflowModel {
    let m = text_of(values_first(values, model_keys()));
    WorkflowModel {
        model: if m.len() == 0 {
            properties_model(o)
        } else {
            m
        },
        ..wf
    }
}

/// The file named by a LoRA loader in visual form.
pub open spec fn visual_lora_file(values: Seq<(Seq<char>, JsonModel)>, wv: Seq<JsonModel>) -> Option<
    Seq<char>,
> {
    match values_first(values, lora_file_keys()) {
        Some(v) => Some(scalar_text(v)),
        None => match seq_at(wv, 0) {
            Some(v) => Some(scalar_text(v)),
            None => None,
        },
    }
}

/// The LoRA entry for a file name: its base name, and the full name as the custom path
/// where the two differ.
pub open spec fn lora_entry(node_id: Seq<char>, file: Seq<char>, strength: Seq<char>) -> LoraModel {
    LoraModel {
        node_id,
        filename: basename_seq(file),
        custom_path: if file != basename_seq(file) {
            file
        } else {
            Seq::empty()
        },
        strength,
    }
}

pub open spec fn visual_lora_spec(
    wf: WorkflowModel,
    values: Seq<(Seq<char>, JsonModel)>,
    wv: Seq<JsonModel>,
    o: Seq<(Seq<char>, JsonModel)>,
) -> WorkflowModel {
    match visual_lora_file(values, wv) {
        Some(file) => {
            let strength = match values_first(values, strength_keys()) {
                Some(v) => scalar_text(v),
                None => text_of(seq_at(wv, 1)),
            };
            WorkflowModel {
                loras: wf.loras.push(lora_entry(text_of(entries_get(o, "id"@)), file, strength)),
                ..wf
            }
        },
        None => wf,
    }
}

pub open spec fn visual_widget_values(o: Seq<(Seq<char>, JsonModel)>) -> Seq<JsonModel> {
    match oarr(entries_get(o, "widgets_values"@)) {
        Some(a) => a,
        None => Seq::empty(),
    }
}

pub open spec fn visual_node_values(o: Seq<(Seq<char>, JsonModel)>) -> Seq<(Seq<char>, JsonModel)> {
    match oarr(entries_get(o, "inputs"@)) {
        Some(ins) => visual_values(ins, visual_widget_values(o), 0),
        None => Seq::empty(),
    }
}

/// `type`, a space and `properties["Node name for S&R"]`, in lower case.
pub open spec fn visual_node_kind(o: Seq<(Seq<char>, JsonModel)>) -> Seq<char> {
    let node_type = or_text(ostr(entries_get(o, "type"@)));
    let snr = match oobj(entries_get(o, "properties"@)) {
        Some(p) => text_of(entries_get(p, "Node name for S&R"@)),
        None => Seq::empty(),
    };
    ascii_lower(node_type + " "@ + snr)
}

/// What one node of a visual graph adds to the workflow.
pub open spec fn visual_node_spec(node: JsonModel, wf: WorkflowModel) -> WorkflowModel {
    match node {
        JsonModel::Object(o) => {
            let wv = visual_widget_values(o);
            let values = visual_node_values(o);
            let kind = visual_node_kind(o);
            let w1 = if contains_seq(kind, "textencodeacestep"@) || (contains_seq(kind, "acestep"@)
                && contains_seq(kind, "textencode"@)) {
                visual_ace_spec(wf, values, wv)
            } else {
                wf
            };
            let w2 = if contains_seq(kind, "ksampler"@) {
                visual_ksampler_spec(w1, values, wv)
            } else {
                w1
            };
            let w3 = if contains_seq(without_separators(kind), "loadaudio"@)
                && w2.reference_audio.len() == 0 {
                visual_audio_spec(w2, values, wv)
            } else {
                w2
            };
            let w4 = if w3.model.len() == 0 && (contains_seq(kind, "checkpointloader"@)
                || contains_seq(kind, "unetloader"@) || contains_seq(kind, "model loader"@)) {
                visual_model_spec(w3, values, o)
            } else {
                w3
            };
            if contains_seq(kind, "loraloader"@) || contains_seq(kind, "loadlora"@) {
                visual_lora_spec(w4, values, wv, o)
            } else {
                w4
            }
        },
        _ => wf,
    }
}

/// `Option<&Value>::map(scalar_text).unwrap_or_default()`.
pub fn text_or_default(v: Option<&Json>) -> (r: String)
    ensures
        r@ == text_of(opt_model(v)),
{
    match v {
        Some(x) => x.scalar_text(),
        None => String::new(),
    }
}

fn seq_get(items: &Vec<Json>, i: usize) -> (r: Option<&Json>)
    ensures
        opt_model(r) == seq_at(models(items@), i as int),
{
    proof {
        lemma_models_len(items@);
    }
    if i < items.len() {
        proof {
            lemma_models_index(items@, i as int);
        }
        Some(&items[i])
    } else {
        None
    }
}

fn or_else_json<'a>(a: Option<&'a Json>, b: Option<&'a Json>) -> (r: Option<&'a Json>)
    ensures
        opt_model(r) == first_some(opt_model(a), opt_model(b)),
{
    if a.is_some() {
        a
    } else {
        b
    }
}

fn visual_ace(workflow: &mut ComfyUIWorkflow, values: &Vec<(String, Json)>, wv: &Vec<Json>)
    ensures
        final(workflow)@ == visual_ace_spec(old(workflow)@, entry_models(values@), models(wv@)),
{
    proof {
        lemma_models_len(wv@);
    }
    let positional = wv.len() >= 9 && lookup_last_exec(values, "bpm").is_none()
        && lookup_last_exec(values, "keyscale").is_none();
    if workflow.prompt.as_str().is_empty() {
        let keys = vec!["tags", "prompt"];
        assert(keys@ =~= tags_keys());
        workflow.prompt = text_or_default(values_first_exec(values, &keys));
    }
    if workflow.lyrics.as_str().is_empty() {
        workflow.lyrics = text_or_default(lookup_last_exec(values, "lyrics"));
    }
    if workflow.bpm.as_str().is_empty() {
        workflow.bpm = text_or_default(lookup_last_exec(values, "bpm"));
    }
    if workflow.duration.as_str().is_empty() {
        workflow.duration = text_or_default(lookup_last_exec(values, "duration"));
    }
    if workflow.seed.as_str().is_empty() {
        workflow.seed = text_or_default(lookup_last_exec(values, "seed"));
    }
    if workflow.key.as_str().is_empty() {
        let keys = vec!["keyscale", "key", "tonality"];
        assert(keys@ =~= key_keys());
        workflow.key = text_or_default(values_first_exec(values, &keys));
    }
    if positional {
        if workflow.prompt.as_str().is_empty() {
            workflow.prompt = text_or_default(seq_get(wv, 0));
        }
        if workflow.lyrics.as_str().is_empty() {
            workflow.lyrics = text_or_default(seq_get(wv, 1));
        }
        workflow.seed = text_or_default(seq_get(wv, 2));
        if workflow.bpm.as_str().is_empty() {
            workflow.bpm = text_or_default(seq_get(wv, 4));
        }
        workflow.duration = text_or_default(seq_get(wv, 5));
        if workflow.key.as_str().is_empty() {
            workflow.key = text_or_default(seq_get(wv, 8));
        }
    }
}

fn visual_ksampler(workflow: &mut ComfyUIWorkflow, values: &Vec<(String, Json)>, wv: &Vec<Json>)
    ensures
        final(workflow)@ == visual_ksampler_spec(old(workflow)@, entry_models(values@), models(wv@)),
{
    if workflow.ksampler_steps.as_str().is_empty() {
        workflow.ksampler_steps = text_or_default(
            or_else_json(lookup_last_exec(values, "steps"), seq_get(wv, 2)),
        );
    }
    if workflow.ksampler_cfg.as_str().is_empty() {
        workflow.ksampler_cfg = text_or_default(
            or_else_json(lookup_last_exec(values, "cfg"), seq_get(wv, 3)),
        );
    }
}

fn visual_audio(workflow: &mut ComfyUIWorkflow, values: &Vec<(String, Json)>, wv: &Vec<Json>)
    ensures
        final(workflow)@ == visual_audio_spec(old(workflow)@, entry_models(values@), models(wv@)),
{
    let v = or_else_json(
        or_else_json(
            or_else_json(lookup_last_exec(values, "audio"), lookup_last_exec(values, "audio_name")),
            lookup_last_exec(values, "filename"),
        ),
        seq_get(wv, 0),
    );
    workflow.reference_audio = match v {
        Some(x) => basename(x.scalar_text().as_str()),
        None => String::new(),
    };
}

fn properties_model_exec(o: &Vec<(String, Json)>) -> (r: String)
    ensures
        r@ == properties_model(entry_models(o@)),
{
    match entries_find(o, "properties") {
        Some(Json::Object(p)) => match entries_find(p, "models") {
            Some(Json::Array(ms)) => match seq_get(ms, 0) {
                Some(Json::Object(m)) => text_or_default(entries_find(m, "name")),
                _ => String::new(),
            },
            _ => String::new(),
        },
        _ => String::new(),
    }
}

fn visual_model(
    workflow: &mut ComfyUIWorkflow,
    values: &Vec<(String, Json)>,
    o: &Vec<(String, Json)>,
)
    ensures
        final(workflow)@ == visual_model_spec(old(workflow)@, entry_models(values@), entry_models(o@)),
{
    let keys = vec!["ckpt_name", "checkpoint", "checkpoint_name", "model_name", "unet_name"];
    assert(keys@ =~= model_keys());
    let m = text_or_default(values_first_exec(values, &keys));
    if m.as_str().is_empty() {
        workflow.model = properties_model_exec(o);
    } else {
        workflow.model = m;
    }
}

/// The LoRA entry for a file name.
pub fn make_lora_entry(node_id: String, file: String, strength: String) -> (r: LoRAInfo)
    ensures
        r@ == lora_entry(node_id@, file@, strength@),
{
    let base = basename(file.as_str());
    let custom = if text_eq(file.as_str(), base.as_str()) {
        String::new()
    } else {
        file
    };
    LoRAInfo { node_id, filename: base, custom_path: custom, strength }
}

fn visual_lora(
    workflow: &mut ComfyUIWorkflow,
    values: &Vec<(String, Json)>,
    wv: &Vec<Json>,
    o: &Vec<(String, Json)>,
)
    ensures
        final(workflow)@ == visual_lora_spec(
            old(workflow)@,
            entry_models(values@),
            models(wv@),
            entry_models(o@),
        ),
{
    let keys = vec!["lora_name", "filename", "file_name", "name"];
    assert(keys@ =~= lora_file_keys());
    let file = match values_first_exec(values, &keys) {
        Some(v) => Some(v.scalar_text()),
        None => match seq_get(wv, 0) {
            Some(v) => Some(v.scalar_text()),
            None => None,
        },
    };
    if let Some(file) = file {
        let skeys = vec!["strength_model", "strength", "weight"];
        assert(skeys@ =~= strength_keys());
        let strength = match values_first_exec(values, &skeys) {
            Some(v) => v.scalar_text(),
            None => text_or_default(seq_get(wv, 1)),
        };
        let id = text_or_default(entries_find(o, "id"));
        let entry = make_lora_entry(id, file, strength);
        let ghost before = workflow@;
        workflow.loras.push(entry);
        assert(workflow@.loras =~= before.loras.push(entry@));
    }
}

fn visual_kind(o: &Vec<(String, Json)>) -> (r: String)
    ensures
        r@ == visual_node_kind(entry_models(o@)),
{
    let mut joined = match entries_find(o, "type") {
        Some(Json::Str(t)) => t.clone(),
        _ => String::new(),
    };
    let snr = match entries_find(o, "properties") {
        Some(Json::Object(p)) => text_or_default(entries_find(p, "Node name for S&R")),
        _ => String::new(),
    };
    joined.append(" ");
    joined.append(snr.as_str());
    to_ascii_lowercase(joined.as_str())
}

/// Reads one node of a visual graph into the workflow.
#[verifier::spinoff_prover]
#[verifier::rlimit(40)]
pub fn parse_visual_node(node: &Json, workflow: &mut ComfyUIWorkflow)
    ensures
        final(workflow)@ == visual_node_spec(node.model(), old(workflow)@),
{
    let o = match node {
        Json::Object(o) => o,
        _ => {
            return ;
        },
    };
    let empty: Vec<Json> = Vec::new();
    let wv: &Vec<Json> = match entries_find(o, "widgets_values") {
        Some(Json::Array(a)) => a,
        _ => &empty,
    };
    assert(models(empty@) =~= Seq::empty());
    let values: Vec<(String, Json)> = match entries_find(o, "inputs") {
        Some(Json::Array(ins)) => collect_visual_values(ins, wv),
        _ => {
            let v: Vec<(String, Json)> = Vec::new();
            assert(entry_models(v@) =~= Seq::empty());
            v
        },
    };
    let kind = visual_kind(o);
    if str_contains(kind.as_str(), "textencodeacestep") || (str_contains(kind.as_str(), "acestep")
        && str_contains(kind.as_str(), "textencode")) {
        visual_ace(workflow, &values, wv);
    }
    if str_contains(kind.as_str(), "ksampler") {
        visual_ksampler(workflow, &values, wv);
    }
    let compact = remove_separators(kind.as_str());
    if str_contains(compact.as_str(), "loadaudio") && workflow.reference_audio.as_str().is_empty() {
        visual_audio(workflow, &values, wv);
    }
    if workflow.model.as_str().is_empty() && (str_contains(kind.as_str(), "checkpointloader")
        || str_contains(kind.as_str(), "unetloader") || str_contains(kind.as_str(), "model loader")) {
        visual_model(workflow, &values, o);
    }
    if str_contains(kind.as_str(), "loraloader") || str_contains(kind.as_str(), "loadlora") {
        visual_lora(workflow, &values, wv, o);
    }
}

pub open spec fn opt_text_model(o: Option<&str>) -> Option<Seq<char>> {
    match o {
        Some(s) => Some(s@),
        None => None,
    }
}

/// The lower-case `class_type` of an API-form node; empty when it has none.
pub open spec fn class_lower(es: Seq<(Seq<char>, JsonModel)>) -> Seq<char> {
    ascii_lower(or_text(ostr(entries_get(es, "class_type"@))))
}

pub open spec fn is_ace_class(cl: Seq<char>) -> bool {
    contains_seq(cl, "textencodeacestep"@) || (contains_seq(cl, "acestep"@) && contains_seq(
        cl,
        "textencode"@,
    ))
}

pub open spec fn is_lora_class(cl: Seq<char>) -> bool {
    contains_seq(cl, "load lora"@) || contains_seq(cl, "loadlora"@) || contains_seq(
        cl,
        "loraloader"@,
    )
}

/// The `inputs` object of a node, or the node itself when it has none.
pub open spec fn inputs_or_self(es: Seq<(Seq<char>, JsonModel)>) -> Seq<(Seq<char>, JsonModel)> {
    match oobj(entries_get(es, "inputs"@)) {
        Some(i) => i,
        None => es,
    }
}

pub open spec fn api_lora_spec(
    wf: WorkflowModel,
    es: Seq<(Seq<char>, JsonModel)>,
    nid: Option<Seq<char>>,
) -> WorkflowModel {
    let inputs = inputs_or_self(es);
    match find_string_spec(inputs, lora_file_keys()) {
        Some(file) => WorkflowModel {
            loras: wf.loras.push(
                lora_entry(or_text(nid), file, or_text(find_scalar_spec(inputs, strength_keys()))),
            ),
            ..wf
        },
        None => wf,
    }
}

pub open spec fn api_ksampler_spec(wf: WorkflowModel, es: Seq<(Seq<char>, JsonModel)>) -> WorkflowModel {
    let inputs = inputs_or_self(es);
    let w1 = if wf.ksampler_cfg.len() == 0 {
        WorkflowModel { ksampler_cfg: or_text(find_scalar_spec(inputs, seq!["cfg"])), ..wf }
    } else {
        wf
    };
    if w1.ksampler_steps.len() == 0 {
        WorkflowModel { ksampler_steps: or_text(find_scalar_spec(inputs, seq!["steps"])), ..w1 }
    } else {
        w1
    }
}

pub open spec fn api_audio_spec(wf: WorkflowModel, es: Seq<(Seq<char>, JsonModel)>) -> WorkflowModel {
    let inputs = inputs_or_self(es);
    let found = match find_string_spec(inputs, audio_keys()) {
        Some(t) => Some(t),
        None => first_string_member(inputs),
    };
    WorkflowModel {
        reference_audio: match found {
            Some(t) => basename_seq(t),
            None => Seq::empty(),
        },
        ..wf
    }
}

/// One input of an ACE-Step text encoder in API form, matched by lower-case name.
pub open spec fn ace_member_spec(wf: WorkflowModel, key: Seq<char>, child: JsonModel) -> WorkflowModel {
    let kl = ascii_lower(key);
    if wf.bpm.len() == 0 && kl == "bpm"@ {
        WorkflowModel { bpm: scalar_text(child), ..wf }
    } else if wf.duration.len() == 0 && kl == "duration"@ {
        WorkflowModel { duration: scalar_text(child), ..wf }
    } else if wf.key.len() == 0 && (kl == "key"@ || kl == "tonality"@) {
        WorkflowModel { key: scalar_text(child), ..wf }
    } else if wf.seed.len() == 0 && kl == "seed"@ {
        WorkflowModel { seed: scalar_text(child), ..wf }
    } else if wf.prompt.len() == 0 && (contains_seq(kl, "prompt"@) || kl == "text"@) {
        WorkflowModel { prompt: scalar_text(child), ..wf }
    } else if wf.lyrics.len() == 0 && contains_seq(kl, "lyric"@) {
        WorkflowModel { lyrics: scalar_text(child), ..wf }
    } else {
        wf
    }
}

pub open spec fn ace_members_spec(es: Seq<(Seq<char>, JsonModel)>, wf: WorkflowModel) -> WorkflowModel
    decreases es.len(),
{
    if es.len() == 0 {
        wf
    } else {
        ace_members_spec(es.drop_first(), ace_member_spec(wf, es[0].0, es[0].1))
    }
}

pub open spec fn visual_nodes_spec(nodes: Seq<JsonModel>, wf: WorkflowModel) -> WorkflowModel
    decreases nodes.len(),
{
    if nodes.len() == 0 {
        wf
    } else {
        visual_nodes_spec(nodes.drop_first(), visual_node_spec(nodes[0], wf))
    }
}

/// What a node in API form says by itself, before its members are visited.
pub open spec fn api_node_spec(
    es: Seq<(Seq<char>, JsonModel)>,
    wf: WorkflowModel,
    nid: Option<Seq<char>>,
) -> WorkflowModel {
    let w0 = match oarr(entries_get(es, "nodes"@)) {
        Some(ns) => visual_nodes_spec(ns, wf),
        None => wf,
    };
    let cl = class_lower(es);
    let w1 = if is_lora_class(cl) {
        api_lora_spec(w0, es, nid)
    } else {
        w0
    };
    let w2 = if contains_seq(cl, "ksampler"@) {
        api_ksampler_spec(w1, es)
    } else {
        w1
    };
    let w3 = if contains_seq(without_separators(cl), "loadaudio"@) && w2.reference_audio.len()
        == 0 {
        api_audio_spec(w2, es)
    } else {
        w2
    };
    let w4 = if w3.model.len() == 0 {
        WorkflowModel { model: or_text(find_string_spec(inputs_or_self(es), model_keys())), ..w3 }
    } else {
        w3
    };
    if is_ace_class(cl) {
        match oobj(entries_get(es, "inputs"@)) {
            Some(inputs) => ace_members_spec(inputs, w4),
            None => w4,
        }
    } else {
        w4
    }
}

/// The whole traversal: visual nodes and API nodes fill the fields still empty, and a
/// string under a key that mentions lyrics, at any depth, is taken as the lyrics.
pub open spec fn visit_spec(
    v: JsonModel,
    wf: WorkflowModel,
    lyrics_context: bool,
    nid: Option<Seq<char>>,
) -> WorkflowModel
    decreases v,
{
    match v {
        JsonModel::Object(es) => visit_members(
            es,
            api_node_spec(es, wf, nid),
            lyrics_context,
            nid,
            is_ace_class(class_lower(es)),
        ),
        JsonModel::Array(items) => visit_items(items, wf, lyrics_context, nid),
        _ => wf,
    }
}

pub open spec fn visit_member_step(
    key: Seq<char>,
    child: JsonModel,
    wf: WorkflowModel,
    lyrics_context: bool,
    ace: bool,
) -> WorkflowModel {
    let child_lyrics = lyrics_context || contains_seq(ascii_lower(key), "lyric"@);
    let w1 = if ace {
        ace_member_spec(wf, key, child)
    } else {
        wf
    };
    if w1.lyrics.len() == 0 && child_lyrics && child is Str {
        WorkflowModel { lyrics: scalar_text(child), ..w1 }
    } else {
        w1
    }
}

pub open spec fn visit_members(
    es: Seq<(Seq<char>, JsonModel)>,
    wf: WorkflowModel,
    lyrics_context: bool,
    nid: Option<Seq<char>>,
    ace: bool,
) -> WorkflowModel
    decreases es,
{
    if es.len() == 0 {
        wf
    } else {
        let key = es[0].0;
        let child = es[0].1;
        let child_lyrics = lyrics_context || contains_seq(ascii_lower(key), "lyric"@);
        let w = visit_spec(
            child,
            visit_member_step(key, child, wf, lyrics_context, ace),
            child_lyrics,
            match nid {
                Some(n) => Some(n),
                None => Some(key),
            },
        );
        visit_members(es.drop_first(), w, lyrics_context, nid, ace)
    }
}

pub open spec fn visit_items(
    items: Seq<JsonModel>,
    wf: WorkflowModel,
    lyrics_context: bool,
    nid: Option<Seq<char>>,
) -> WorkflowModel
    decreases items,
{
    if items.len() == 0 {
        wf
    } else {
        visit_items(
            items.drop_first(),
            visit_spec(items[0], wf, lyrics_context, nid),
            lyrics_context,
            nid,
        )
    }
}

fn api_lora(workflow: &mut ComfyUIWorkflow, es: &Vec<(String, Json)>, nid: Option<&str>)
    ensures
        final(workflow)@ == api_lora_spec(old(workflow)@, entry_models(es@), opt_text_model(nid)),
{
    let inputs: &Vec<(String, Json)> = match entries_find(es, "inputs") {
        Some(Json::Object(i)) => i,
        _ => es,
    };
    let keys = vec!["lora_name", "filename", "file_name", "name"];
    assert(keys@ =~= lora_file_keys());
    if let Some(file) = find_string(inputs, &keys) {
        let skeys = vec!["strength_model", "strength", "weight"];
        assert(skeys@ =~= strength_keys());
        let strength = match find_scalar(inputs, &skeys) {
            Some(t) => t,
            None => String::new(),
        };
        let id = match nid {
            Some(n) => String::from_str(n),
            None => String::new(),
        };
        let entry = make_lora_entry(id, file, strength);
        let ghost before = workflow@;
        workflow.loras.push(entry);
        assert(workflow@.loras =~= before.loras.push(entry@));
    }
}

fn api_ksampler(workflow: &mut ComfyUIWorkflow, es: &Vec<(String, Json)>)
    ensures
        final(workflow)@ == api_ksampler_spec(old(workflow)@, entry_models(es@)),
{
    let inputs: &Vec<(String, Json)> = match entries_find(es, "inputs") {
        Some(Json::Object(i)) => i,
        _ => es,
    };
    if workflow.ksampler_cfg.as_str().is_empty() {
        let keys = vec!["cfg"];
        assert(keys@ =~= seq!["cfg"]);
        workflow.ksampler_cfg = match find_scalar(inputs, &keys) {
            Some(t) => t,
            None => String::new(),
        };
    }
    if workflow.ksampler_steps.as_str().is_empty() {
        let keys = vec!["steps"];
        assert(keys@ =~= seq!["steps"]);
        workflow.ksampler_steps = match find_scalar(inputs, &keys) {
            Some(t) => t,
            None => String::new(),
        };
    }
}

fn api_audio(workflow: &mut ComfyUIWorkflow, es: &Vec<(String, Json)>)
    ensures
        final(workflow)@ == api_audio_spec(old(workflow)@, entry_models(es@)),
{
    let inputs: &Vec<(String, Json)> = match entries_find(es, "inputs") {
        Some(Json::Object(i)) => i,
        _ => es,
    };
    let keys = vec!["audio", "audio_name", "filename", "file_name", "name"];
    assert(keys@ =~= audio_keys());
    let found = match find_string(inputs, &keys) {
        Some(t) => Some(t),
        None => find_first_string_member(inputs),
    };
    workflow.reference_audio = match found {
        Some(t) => basename(t.as_str()),
        None => String::new(),
    };
}

fn ace_member(workflow: &mut ComfyUIWorkflow, key: &str, child: &Json)
    ensures
        final(workflow)@ == ace_member_spec(old(workflow)@, key@, child.model()),
{
    let kl = to_ascii_lowercase(key);
    if workflow.bpm.as_str().is_empty() && text_eq(kl.as_str(), "bpm") {
        workflow.bpm = child.scalar_text();
    } else if workflow.duration.as_str().is_empty() && text_eq(kl.as_str(), "duration") {
        workflow.duration = child.scalar_text();
    } else if workflow.key.as_str().is_empty() && (text_eq(kl.as_str(), "key") || text_eq(
        kl.as_str(),
        "tonality",
    )) {
        workflow.key = child.scalar_text();
    } else if workflow.seed.as_str().is_empty() && text_eq(kl.as_str(), "seed") {
        workflow.seed = child.scalar_text();
    } else if workflow.prompt.as_str().is_empty() && (str_contains(kl.as_str(), "prompt") || text_eq(
        kl.as_str(),
        "text",
    )) {
        workflow.prompt = child.scalar_text();
    } else if workflow.lyrics.as_str().is_empty() && str_contains(kl.as_str(), "lyric") {
        workflow.lyrics = child.scalar_text();
    }
}

fn ace_members(workflow: &mut ComfyUIWorkflow, es: &Vec<(String, Json)>)
    ensures
        final(workflow)@ == ace_members_spec(entry_models(es@), old(workflow)@),
{
    let ghost m = entry_models(es@);
    proof {
        lemma_entry_models_len(es@);
    }
    assert(m.skip(0) =~= m);
    let n = es.len();
    for i in 0..n
        invariant
            n == es.len(),
            m == entry_models(es@),
            m.len() == n,
            ace_members_spec(m, old(workflow)@) == ace_members_spec(m.skip(i as int), workflow@),
    {
        proof {
            lemma_entry_models_index(es@, i as int);
        }
        assert(m.skip(i as int).drop_first() =~= m.skip(i + 1));
        assert(m.skip(i as int)[0] == m[i as int]);
        ace_member(workflow, es[i].0.as_str(), &es[i].1);
    }
    assert(m.skip(n as int) =~= Seq::<(Seq<char>, JsonModel)>::empty());
}

fn visual_nodes(workflow: &mut ComfyUIWorkflow, nodes: &Vec<Json>)
    ensures
        final(workflow)@ == visual_nodes_spec(models(nodes@), old(workflow)@),
{
    let ghost m = models(nodes@);
    proof {
        lemma_models_len(nodes@);
    }
    assert(m.skip(0) =~= m);
    let n = nodes.len();
    for i in 0..n
        invariant
            n == nodes.len(),
            m == models(nodes@),
            m.len() == n,
            visual_nodes_spec(m, old(workflow)@) == visual_nodes_spec(m.skip(i as int), workflow@),
    {
        proof {
            lemma_models_index(nodes@, i as int);
        }
        assert(m.skip(i as int).drop_first() =~= m.skip(i + 1));
        assert(m.skip(i as int)[0] == m[i as int]);
        parse_visual_node(&nodes[i], workflow);
    }
    assert(m.skip(n as int) =~= Seq::<JsonModel>::empty());
}

fn api_node(workflow: &mut ComfyUIWorkflow, es: &Vec<(String, Json)>, nid: Option<&str>)
    ensures
        final(workflow)@ == api_node_spec(entry_models(es@), old(workflow)@, opt_text_model(nid)),
{
    match entries_find(es, "nodes") {
        Some(Json::Array(ns)) => visual_nodes(workflow, ns),
        _ => {},
    }
    let class_type = match entries_find(es, "class_type") {
        Some(Json::Str(t)) => t.clone(),
        _ => String::new(),
    };
    let cl = to_ascii_lowercase(class_type.as_str());
    if str_contains(cl.as_str(), "load lora") || str_contains(cl.as_str(), "loadlora")
        || str_contains(cl.as_str(), "loraloader") {
        api_lora(workflow, es, nid);
    }
    if str_contains(cl.as_str(), "ksampler") {
        api_ksampler(workflow, es);
    }
    let compact = remove_separators(cl.as_str());
    if str_contains(compact.as_str(), "loadaudio") && workflow.reference_audio.as_str().is_empty() {
        api_audio(workflow, es);
    }
    if workflow.model.as_str().is_empty() {
        let inputs: &Vec<(String, Json)> = match entries_find(es, "inputs") {
            Some(Json::Object(i)) => i,
            _ => es,
        };
        let keys = vec!["ckpt_name", "checkpoint", "checkpoint_name", "model_name", "unet_name"];
        assert(keys@ =~= model_keys());
        workflow.model = match find_string(inputs, &keys) {
            Some(t) => t,
            None => String::new(),
        };
    }
    if str_contains(cl.as_str(), "textencodeacestep") || (str_contains(cl.as_str(), "acestep")
        && str_contains(cl.as_str(), "textencode")) {
        match entries_find(es, "inputs") {
            Some(Json::Object(inputs)) => ace_members(workflow, inputs),
            _ => {},
        }
    }
}

fn member_step(workflow: &mut ComfyUIWorkflow, key: &str, child: &Json, lyrics_context: bool, ace: bool)
    ensures
        final(workflow)@ == visit_member_step(key@, child.model(), old(workflow)@, lyrics_context, ace),
{
    let kl = to_ascii_lowercase(key);
    let child_lyrics = lyrics_context || str_contains(kl.as_str(), "lyric");
    if ace {
        ace_member(workflow, key, child);
    }
    if workflow.lyrics.as_str().is_empty() && child_lyrics && child.is_string() {
        workflow.lyrics = child.scalar_text();
    }
}

/// Walks a workflow document and fills the fields of `workflow` that are still empty.
pub fn visit(value: &Json, workflow: &mut ComfyUIWorkflow, lyrics_context: bool, nid: Option<&str>)
    ensures
        final(workflow)@ == visit_spec(value.model(), old(workflow)@, lyrics_context, opt_text_model(nid)),
    decreases crate::json::json_size(*value),
{
    match value {
        Json::Object(es) => {
            api_node(workflow, es, nid);
            let class_type = match entries_find(es, "class_type") {
                Some(Json::Str(t)) => t.clone(),
                _ => String::new(),
            };
            let cl = to_ascii_lowercase(class_type.as_str());
            let ace = str_contains(cl.as_str(), "textencodeacestep") || (str_contains(
                cl.as_str(),
                "acestep",
            ) && str_contains(cl.as_str(), "textencode"));
            let ghost m = entry_models(es@);
            let ghost start = workflow@;
            proof {
                lemma_entry_models_len(es@);
            }
            assert(m.skip(0) =~= m);
            let n = es.len();
            for i in 0..n
                invariant
                    n == es.len(),
                    m == entry_models(es@),
                    m.len() == n,
                    value == Json::Object(*es),
                    visit_members(m, start, lyrics_context, opt_text_model(nid), ace)
                        == visit_members(m.skip(i as int), workflow@, lyrics_context, opt_text_model(nid), ace),
            {
                proof {
                    lemma_entry_models_index(es@, i as int);
                    crate::json::lemma_object_child_smaller(*value, *es, i as int);
                }
                assert(m.skip(i as int).drop_first() =~= m.skip(i + 1));
                assert(m.skip(i as int)[0] == m[i as int]);
                let key: &str = es[i].0.as_str();
                let child: &Json = &es[i].1;
                member_step(workflow, key, child, lyrics_context, ace);
                let kl = to_ascii_lowercase(key);
                let child_lyrics = lyrics_context || str_contains(kl.as_str(), "lyric");
                let child_nid: Option<&str> = match nid {
                    Some(n) => Some(n),
                    None => Some(key),
                };
                visit(child, workflow, child_lyrics, child_nid);
            }
            assert(m.skip(n as int) =~= Seq::<(Seq<char>, JsonModel)>::empty());
        },
        Json::Array(items) => {
            let ghost m = models(items@);
            let ghost start = workflow@;
            proof {
                lemma_models_len(items@);
            }
            assert(m.skip(0) =~= m);
            let n = items.len();
            for i in 0..n
                invariant
                    n == items.len(),
                    m == models(items@),
                    m.len() == n,
                    value == Json::Array(*items),
                    visit_items(m, start, lyrics_context, opt_text_model(nid))
                        == visit_items(m.skip(i as int), workflow@, lyrics_context, opt_text_model(nid)),
            {
                proof {
                    lemma_models_index(items@, i as int);
                    crate::json::lemma_array_child_smaller(*value, *items, i as int);
                }
                assert(m.skip(i as int).drop_first() =~= m.skip(i + 1));
                assert(m.skip(i as int)[0] == m[i as int]);
                visit(&items[i], workflow, lyrics_context, nid);
            }
            assert(m.skip(n as int) =~= Seq::<JsonModel>::empty());
        },
        _ => {},
    }
}

/// The widget names of the node types whose widget order this library knows.
pub open spec fn widget_names_spec(node_type: Seq<char>) -> Seq<&'static str> {
    if node_type == "CheckpointLoaderSimple"@ {
        seq!["ckpt_name"]
    } else if node_type == "LoraLoaderModelOnly"@ {
        seq!["lora_name", "strength_model"]
    } else if node_type == "ModelSamplingAuraFlow"@ {
        seq!["shift"]
    } else if node_type == "EmptyAceStep1.5LatentAudio"@ {
        seq!["seconds", "batch_size"]
    } else if node_type == "KSampler"@ {
        seq!["seed", "control_after_generate", "steps", "cfg", "sampler_name", "scheduler", "denoise"]
    } else if node_type == "TextEncodeAceStepAudio1.5"@ {
        seq![
            "tags",
            "lyrics",
            "seed",
            "control_after_generate",
            "bpm",
            "duration",
            "timesignature",
            "language",
            "keyscale",
            "generate_audio_codes",
            "cfg_scale",
            "temperature",
            "top_p",
            "top_k",
            "min_p",
        ]
    } else if node_type == "ADBDMusicPlayer"@ || node_type == "ADBMusicPlayer"@ {
        seq!["filename_prefix", "format", "quality", "audio_format"]
    } else {
        seq![]
    }
}

pub fn visual_widget_names(node_type: &str) -> (r: Vec<&'static str>)
    ensures
        r@ == widget_names_spec(node_type@),
{
    if text_eq(node_type, "CheckpointLoaderSimple") {
        let r = vec!["ckpt_name"];
        assert(r@ =~= seq!["ckpt_name"]);
        r
    } else if text_eq(node_type, "LoraLoaderModelOnly") {
        let r = vec!["lora_name", "strength_model"];
        assert(r@ =~= seq!["lora_name", "strength_model"]);
        r
    } else if text_eq(node_type, "ModelSamplingAuraFlow") {
        let r = vec!["shift"];
        assert(r@ =~= seq!["shift"]);
        r
    } else if text_eq(node_type, "EmptyAceStep1.5LatentAudio") {
        let r = vec!["seconds", "batch_size"];
        assert(r@ =~= seq!["seconds", "batch_size"]);
        r
    } else if text_eq(node_type, "KSampler") {
        let r = vec!["seed", "control_after_generate", "steps", "cfg", "sampler_name", "scheduler", "denoise"];
        assert(r@ =~= seq!["seed", "control_after_generate", "steps", "cfg", "sampler_name", "scheduler", "denoise"]);
        r
    } else if text_eq(node_type, "TextEncodeAceStepAudio1.5") {
        let r = vec![
            "tags",
            "lyrics",
            "seed",
            "control_after_generate",
            "bpm",
            "duration",
            "timesignature",
            "language",
            "keyscale",
            "generate_audio_codes",
            "cfg_scale",
            "temperature",
            "top_p",
            "top_k",
            "min_p",
        ];
        assert(r@ =~= seq![
            "tags",
            "lyrics",
            "seed",
            "control_after_generate",
            "bpm",
            "duration",
            "timesignature",
            "language",
            "keyscale",
            "generate_audio_codes",
            "cfg_scale",
            "temperature",
            "top_p",
            "top_k",
            "min_p",
        ]);
        r
    } else if text_eq(node_type, "ADBDMusicPlayer") || text_eq(node_type, "ADBMusicPlayer") {
        let r = vec!["filename_prefix", "format", "quality", "audio_format"];
        assert(r@ =~= seq!["filename_prefix", "format", "quality", "audio_format"]);
        r
    } else {
        let r: Vec<&'static str> = Vec::new();
        assert(r@ =~= seq![]);
        r
    }
}


/// The node ids of a list of LoRAs.
pub open spec fn lora_ids(ls: Seq<LoraModel>) -> Seq<Seq<char>> {
    ls.map_values(|l: LoraModel| l.node_id)
}

/// The LoRAs that stay after parsing: those on the model chain of a sampler, each node
/// once, at its first place.
pub open spec fn kept_loras(ls: Seq<LoraModel>, v: JsonModel) -> Seq<LoraModel>
    decreases ls.len(),
{
    if ls.len() == 0 {
        Seq::empty()
    } else {
        let rest = kept_loras(ls.drop_last(), v);
        let l = ls.last();
        if active_lora_spec(v, l.node_id) && !lora_ids(ls.drop_last()).contains(l.node_id) {
            rest.push(l)
        } else {
            rest
        }
    }
}

/// The fields read from the document as it stands and, for a visual graph that converts,
/// from its API prompt after it.
pub open spec fn parse_fields(v: JsonModel) -> WorkflowModel {
    let w0 = visit_spec(v, super::empty_workflow(), false, None);
    if jget(v, "nodes"@).is_some() {
        match api_prompt_spec(v) {
            Ok(p) => visit_spec(p, w0, false, None),
            Err(_) => w0,
        }
    } else {
        w0
    }
}

/// What a workflow document says about its track.
pub open spec fn parse_spec(v: JsonModel) -> WorkflowModel {
    let w = parse_fields(v);
    WorkflowModel { loras: kept_loras(w.loras, v), ..w }
}

fn copy_lora(l: &LoRAInfo) -> (r: LoRAInfo)
    ensures
        r@ == l@,
{
    LoRAInfo {
        node_id: l.node_id.clone(),
        filename: l.filename.clone(),
        custom_path: l.custom_path.clone(),
        strength: l.strength.clone(),
    }
}

/// Reads the track parameters of a workflow document (see `parse_spec`).
pub fn parse_value(value: &Json) -> (r: ComfyUIWorkflow)
    ensures
        r@ == parse_spec(value.model()),
{
    let ghost v = value.model();
    let mut workflow = ComfyUIWorkflow::default();
    visit(value, &mut workflow, false, None);
    if value.get("nodes").is_some() {
        match workflow_to_api_prompt(value) {
            Ok(prompt) => visit(&prompt, &mut workflow, false, None),
            Err(_) => {},
        }
    }
    assert(workflow@ == parse_fields(v));
    let active = active_lora_ids(value);
    let mut seen: Vec<String> = Vec::new();
    let mut kept: Vec<LoRAInfo> = Vec::new();
    let ghost ls = workflow@.loras;
    let n = workflow.loras.len();
    assert(ls.take(0) =~= Seq::<LoraModel>::empty());
    assert(kept@.map_values(|l: LoRAInfo| l@) =~= Seq::<LoraModel>::empty());
    for i in 0..n
        invariant
            n == workflow.loras.len(),
            ls == workflow@.loras,
            ls.len() == n,
            forall|x: Seq<char>| #[trigger] texts(active@).contains(x) <==> active_lora_spec(v, x),
            kept@.map_values(|l: LoRAInfo| l@) == kept_loras(ls.take(i as int), v),
            forall|x: Seq<char>|
                #[trigger] texts(seen@).contains(x) <==> (active_lora_spec(v, x) && lora_ids(
                    ls.take(i as int),
                ).contains(x)),
    {
        let l = &workflow.loras[i];
        assert(ls[i as int] == l@);
        assert(ls.take(i + 1).drop_last() =~= ls.take(i as int));
        assert(ls.take(i + 1).last() == l@);
        let ghost before_kept = kept@.map_values(|l: LoRAInfo| l@);
        let ghost before_seen = texts(seen@);
        let ghost ids_before = lora_ids(ls.take(i as int));
        assert(lora_ids(ls.take(i + 1)) =~= ids_before.push(l.node_id@));
        let is_active = texts_contain(&active, l.node_id.as_str());
        if is_active && !texts_contain(&seen, l.node_id.as_str()) {
            assert(!ids_before.contains(l.node_id@));
            kept.push(copy_lora(l));
            assert(kept@.map_values(|l: LoRAInfo| l@) =~= before_kept.push(l@));
            seen.push(l.node_id.clone());
            assert(texts(seen@) =~= before_seen.push(l.node_id@));
        } else {
            if is_active {
                assert(ids_before.contains(l.node_id@));
            }
        }
        assert forall|x: Seq<char>|
            #[trigger] texts(seen@).contains(x) <==> (active_lora_spec(v, x) && lora_ids(
                ls.take(i + 1),
            ).contains(x)) by {
            if x == l.node_id@ {
                if active_lora_spec(v, x) {
                    assert(lora_ids(ls.take(i + 1))[i as int] == x);
                    assert(texts(seen@).contains(x)) by {
                        if !before_seen.contains(x) {
                            assert(texts(seen@)[before_seen.len() as int] == x);
                        } else {
                            let j = choose|j: int| 0 <= j < before_seen.len() && before_seen[j] == x;
                            assert(texts(seen@)[j] == x);
                        }
                    }
                }
            } else {
                assert(lora_ids(ls.take(i + 1)).contains(x) <==> ids_before.contains(x)) by {
                    if lora_ids(ls.take(i + 1)).contains(x) {
                        let ids_after = lora_ids(ls.take(i + 1));
                        let j = choose|j: int| 0 <= j < ids_after.len() && ids_after[j] == x;
                        assert(ids_before[j] == x);
                    }
                    if ids_before.contains(x) {
                        let j = choose|j: int| 0 <= j < ids_before.len() && ids_before[j] == x;
                        assert(lora_ids(ls.take(i + 1))[j] == x);
                    }
                }
                assert(texts(seen@).contains(x) <==> before_seen.contains(x)) by {
                    if texts(seen@).contains(x) {
                        let j = choose|j: int| 0 <= j < texts(seen@).len() && texts(seen@)[j] == x;
                        if j < before_seen.len() {
                            assert(before_seen[j] == x);
                        }
                    }
                    if before_seen.contains(x) {
                        let j = choose|j: int| 0 <= j < before_seen.len() && before_seen[j] == x;
                        assert(texts(seen@)[j] == x);
                    }
                }
            }
        }
    }
    assert(ls.take(n as int) =~= ls);
    workflow.loras = kept;
    workflow
}


/// The hash that identifies a workflow document: the SHA-256 of its compact JSON text.
pub fn canonical_json_hash(value: &Json) -> (r: String)
    ensures
        r@ == sha256_hex_of(encode_utf8(crate::json::json_text_spec(value.model()))),
        r@.len() == 64,
{
    let text = crate::json::json_text(value);
    sha256_hex(text.as_str().as_bytes())
}

/// A workflow document read: its track parameters and its hash.
pub fn parse_with_hash(value: &Json) -> (r: (ComfyUIWorkflow, String))
    ensures
        r.0@ == parse_spec(value.model()),
        r.1@ == sha256_hex_of(encode_utf8(crate::json::json_text_spec(value.model()))),
{
    (parse_value(value), canonical_json_hash(value))
}

/// Where the parse of the workflow at `relative_path` inside `folder` is cached:
/// `.adbstudio/workflow-cache/<SHA-256 of the relative path>.json`.
pub fn workflow_cache_path(folder: &str, relative_path: &str) -> (r: String)
    ensures
        r@ == crate::paths::push_path(
            crate::metadata::private_dir(folder@, "workflow-cache"@),
            sha256_hex_of(encode_utf8(relative_path@)) + ".json"@,
        ),
{
    let mut name = sha256_hex(relative_path.as_bytes());
    name.append(".json");
    let dir = crate::paths::join_path(folder, ".adbstudio");
    let dir = crate::paths::join_path(dir.as_str(), "workflow-cache");
    crate::paths::join_path(dir.as_str(), name.as_str())
}

/// A parse of a workflow file, kept while the file stays as it was: the file's key in the
/// cache, its size and modification time, the hash of its document and its parse.
#[derive(Clone, Debug)]
pub struct CachedWorkflow {
    pub relative_path: String,
    pub size: u64,
    pub modified_nanos: u128,
    pub json_hash: String,
    pub workflow: ComfyUIWorkflow,
}

/// The key of a workflow file in the parse cache: its path relative to the workspace,
/// with `/` between its parts (see `checksum_key_spec`); an error for a file outside the
/// workspace.
pub fn workflow_cache_key(folder: &str, path: &str) -> (r: Result<String, String>)
    ensures
        match r {
            Ok(k) => crate::metadata::checksum_key_spec(folder@, path@) == Some(k@),
            Err(e) => crate::metadata::checksum_key_spec(folder@, path@).is_none() && e@
                == "workflow path is outside workspace: prefix not found"@,
        },
{
    match crate::metadata::checksum_key(folder, path) {
        Some(k) => Ok(k),
        None => Err(String::from_str("workflow path is outside workspace: prefix not found")),
    }
}

/// The parse and hash that a cache entry holds, where it was made from the file as it is
/// now: the same key, size and modification time. `None` where the file changed.
pub fn fitting_parse(entry: CachedWorkflow, relative_path: &str, size: u64, modified_nanos: u128) -> (r:
    Option<(ComfyUIWorkflow, String)>)
    ensures
        match r {
            Some((w, h)) => entry.relative_path@ == relative_path@ && entry.size == size
                && entry.modified_nanos == modified_nanos && w == entry.workflow && h
                == entry.json_hash,
            None => !(entry.relative_path@ == relative_path@ && entry.size == size
                && entry.modified_nanos == modified_nanos),
        },
{
    if text_eq(entry.relative_path.as_str(), relative_path) && entry.size == size
        && entry.modified_nanos == modified_nanos {
        Some((entry.workflow, entry.json_hash))
    } else {
        None
    }
}

/// The cache entry for a workflow document read from the file with this key, size and
/// modification time: its parse and its hash (see `parse_with_hash`).
pub fn cached_parse_of(value: &Json, relative_path: String, size: u64, modified_nanos: u128) -> (r:
    CachedWorkflow)
    ensures
        r.relative_path == relative_path,
        r.size == size,
        r.modified_nanos == modified_nanos,
        r.workflow@ == parse_spec(value.model()),
        r.json_hash@ == sha256_hex_of(encode_utf8(crate::json::json_text_spec(value.model()))),
{
    let (workflow, json_hash) = parse_with_hash(value);
    CachedWorkflow { relative_path, size, modified_nanos, json_hash, workflow }
}

/// What an API sampler node gives the sampler fields: a field still empty takes the text
/// of the node's input of its own name (`cfg` for the CFG, `steps` for the steps), or
/// stays empty when the node has none; a field already read stays as it was. Every other
/// field of the parse stays as it was.
pub proof fn law_sampler_fields_come_from_their_inputs(
    wf: WorkflowModel,
    es: Seq<(Seq<char>, JsonModel)>,
)
    ensures
        ({
            let r = api_ksampler_spec(wf, es);
            let inputs = inputs_or_self(es);
            &&& wf.ksampler_cfg.len() == 0 ==> r.ksampler_cfg == match entries_get(inputs, "cfg"@) {
                Some(v) => scalar_text(v),
                None => Seq::empty(),
            }
            &&& wf.ksampler_steps.len() == 0 ==> r.ksampler_steps == match entries_get(
                inputs,
                "steps"@,
            ) {
                Some(v) => scalar_text(v),
                None => Seq::empty(),
            }
            &&& wf.ksampler_cfg.len() > 0 ==> r.ksampler_cfg == wf.ksampler_cfg
            &&& wf.ksampler_steps.len() > 0 ==> r.ksampler_steps == wf.ksampler_steps
            &&& r.bpm == wf.bpm && r.seed == wf.seed && r.key == wf.key && r.model == wf.model
            &&& r.prompt == wf.prompt && r.lyrics == wf.lyrics && r.loras == wf.loras
        }),
{
    let inputs = inputs_or_self(es);
    let cfg_keys: Seq<&str> = seq!["cfg"];
    let steps_keys: Seq<&str> = seq!["steps"];
    assert(cfg_keys.drop_first().len() == 0);
    assert(steps_keys.drop_first().len() == 0);
    assert(find_scalar_spec(inputs, cfg_keys) == match entries_get(inputs, "cfg"@) {
        Some(v) => Some(scalar_text(v)),
        None => find_scalar_spec(inputs, cfg_keys.drop_first()),
    });
    assert(find_scalar_spec(inputs, steps_keys) == match entries_get(inputs, "steps"@) {
        Some(v) => Some(scalar_text(v)),
        None => find_scalar_spec(inputs, steps_keys.drop_first()),
    });
}
} // verus!
