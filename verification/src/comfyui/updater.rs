//! Edits to a workflow document: its metadata fields and its chain of LoRA loaders.
use vstd::prelude::*;
use crate::json::{
    entries_get, entries_replace, entries_set, entries_with, entry_models, items_with,
    jarr, jget, json_duplicate, json_equal, json_text, json_text_spec, jstr, lemma_entry_models_index,
    lemma_entry_models_len, lemma_models_index, lemma_models_len, models, oarr, oobj, ostr,
    Json, JsonModel,
};
use vstd::set_lib::{lemma_int_range, lemma_len_subset, lemma_map_size, set_int_range};
use crate::text::{
    basename_seq, lemma_nat_text_injective, nat_text, u128_text, ascii_lower, contains_seq, eq_ignore_ascii_case, int_text, i64_text, parse_i64, parse_i64_seq,
    remove_separators, str_contains, to_ascii_lowercase, without_separators,
};
use super::parser::opt_text_model;
use super::graph::texts;
use crate::json::text_eq;

verus! {

/// Equality of texts up to ASCII case.
pub open spec fn eq_ic(a: Seq<char>, b: Seq<char>) -> bool {
    ascii_lower(a) == ascii_lower(b)
}

/// The value written in place of `target`: an integer or, failing that, the float
/// `number` where the target is a number; the text itself anywhere else.
pub open spec fn replacement_spec(
    target: JsonModel,
    new_value: Seq<char>,
    number: Option<Seq<char>>,
) -> Option<JsonModel> {
    match target {
        JsonModel::Number(_) => match parse_i64_seq(new_value) {
            Some(n) => Some(JsonModel::Number(int_text(n as int))),
            None => match number {
                Some(t) => Some(JsonModel::Number(t)),
                None => None,
            },
        },
        _ => Some(JsonModel::Str(new_value)),
    }
}

/// The new value of `target`, when writing `new_value` changes it.
pub open spec fn replace_spec(
    target: JsonModel,
    new_value: Seq<char>,
    number: Option<Seq<char>>,
) -> Option<JsonModel> {
    match replacement_spec(target, new_value, number) {
        Some(r) => if r == target {
            None
        } else {
            Some(r)
        },
        None => None,
    }
}

/// A key names one of the candidates, and either any candidate will do or the
/// requested field names that candidate too.
pub open spec fn any_candidate(
    key: Seq<char>,
    cands: Seq<Seq<char>>,
    any: bool,
    req: Seq<char>,
) -> bool {
    exists|i: int| 0 <= i < cands.len() && eq_ic(key, cands[i]) && (any || eq_ic(req, cands[i]))
}

/// The texts of a list of string slices.
pub open spec fn strs(v: Seq<&str>) -> Seq<Seq<char>> {
    v.map_values(|c: &str| c@)
}

/// The place of the first member whose key matches.
pub open spec fn first_key_match(
    es: Seq<(Seq<char>, JsonModel)>,
    cands: Seq<Seq<char>>,
    any: bool,
    req: Seq<char>,
) -> Option<int>
    decreases es.len(),
{
    if es.len() == 0 {
        None
    } else if any_candidate(es[0].0, cands, any, req) {
        Some(0)
    } else {
        match first_key_match(es.drop_first(), cands, any, req) {
            Some(k) => Some(k + 1),
            None => None,
        }
    }
}

pub open spec fn sampler_inputs() -> Seq<Seq<char>> {
    seq!["cfg"@, "steps"@]
}

pub open spec fn loader_inputs() -> Seq<Seq<char>> {
    seq!["ckpt_name"@, "unet_name"@, "model_name"@, "checkpoint"@, "checkpoint_name"@]
}

pub open spec fn audio_inputs() -> Seq<Seq<char>> {
    seq!["audio"@, "audio_name"@, "filename"@, "file_name"@, "name"@]
}

/// The input a field is stored under on a sampler.
pub open spec fn requested_field(field: Seq<char>) -> Seq<char> {
    if field == "ksampler_cfg"@ {
        "cfg"@
    } else if field == "ksampler_steps"@ {
        "steps"@
    } else {
        field
    }
}

pub open spec fn is_ace_text(t: Seq<char>) -> bool {
    contains_seq(t, "textencodeacestep"@) || (contains_seq(t, "acestep"@) && contains_seq(
        t,
        "textencode"@,
    ))
}

pub open spec fn is_loader_text(t: Seq<char>) -> bool {
    contains_seq(t, "checkpointloader"@) || contains_seq(t, "unetloader"@) || contains_seq(
        t,
        "model loader"@,
    )
}

pub open spec fn is_load_audio_text(t: Seq<char>) -> bool {
    contains_seq(without_separators(t), "loadaudio"@)
}

/// The candidates of a sampler, else of a model loader, else of an audio loader.
pub open spec fn node_candidates(sampler: bool, loader: bool) -> Seq<Seq<char>> {
    if sampler {
        sampler_inputs()
    } else if loader {
        loader_inputs()
    } else {
        audio_inputs()
    }
}

/// The lower-case text of a string member, or the empty text.
pub open spec fn member_lower(es: Seq<(Seq<char>, JsonModel)>, key: Seq<char>) -> Seq<char> {
    match ostr(entries_get(es, key)) {
        Some(t) => ascii_lower(t),
        None => Seq::empty(),
    }
}

/// The node with input `k` of its `inputs` object written, when that changes it.
pub open spec fn replace_input(
    es: Seq<(Seq<char>, JsonModel)>,
    ins: Seq<(Seq<char>, JsonModel)>,
    k: int,
    new_value: Seq<char>,
    number: Option<Seq<char>>,
) -> Option<Seq<(Seq<char>, JsonModel)>> {
    match replace_spec(ins[k].1, new_value, number) {
        Some(r) => Some(entries_set(es, "inputs"@, JsonModel::Object(ins.update(k, (ins[k].0, r))))),
        None => None,
    }
}

/// An API node of a sampler or loader: the first input that the field names.
/// `None`: the node has no such input; `Some(r)`: the edit ends with `r`.
pub open spec fn api_step(
    es: Seq<(Seq<char>, JsonModel)>,
    field: Seq<char>,
    new_value: Seq<char>,
    number: Option<Seq<char>>,
) -> Option<Option<Seq<(Seq<char>, JsonModel)>>> {
    let ct = member_lower(es, "class_type"@);
    let sampler = contains_seq(ct, "ksampler"@);
    let loader = is_loader_text(ct);
    let load_audio = is_load_audio_text(ct);
    if sampler || loader || load_audio {
        match oobj(entries_get(es, "inputs"@)) {
            Some(ins) => {
                let any = (field == "model"@ && loader) || (field == "reference_audio"@
                    && load_audio);
                match first_key_match(
                    ins,
                    node_candidates(sampler, loader),
                    any,
                    requested_field(field),
                ) {
                    Some(k) => Some(replace_input(es, ins, k, new_value, number)),
                    None => None,
                }
            },
            None => None,
        }
    } else {
        None
    }
}

/// An API text encoder: the input named as the field (or `tonality` for `key`), else a
/// member of the node named so.
pub open spec fn ace_step(
    es: Seq<(Seq<char>, JsonModel)>,
    field: Seq<char>,
    new_value: Seq<char>,
    number: Option<Seq<char>>,
) -> Option<Option<Seq<(Seq<char>, JsonModel)>>> {
    if is_ace_text(member_lower(es, "class_type"@)) {
        let from_inputs = match oobj(entries_get(es, "inputs"@)) {
            Some(ins) => match first_key_match(ins, seq![field], true, field) {
                Some(k) => Some(replace_input(es, ins, k, new_value, number)),
                None => if field == "key"@ {
                    match first_key_match(ins, seq!["tonality"@], true, field) {
                        Some(k) => Some(replace_input(es, ins, k, new_value, number)),
                        None => None,
                    }
                } else {
                    None
                },
            },
            None => None,
        };
        match from_inputs {
            Some(r) => Some(r),
            None => match first_key_match(es, seq![field], true, field) {
                Some(k) => Some(
                    match replace_spec(es[k].1, new_value, number) {
                        Some(r) => Some(es.update(k, (es[k].0, r))),
                        None => None,
                    },
                ),
                None => None,
            },
        }
    } else {
        None
    }
}

/// The lower-case names of the inputs that have a string name, in order.
pub open spec fn input_names(inputs: Seq<JsonModel>) -> Seq<Seq<char>>
    decreases inputs.len(),
{
    if inputs.len() == 0 {
        Seq::empty()
    } else {
        let rest = input_names(inputs.drop_last());
        match ostr(jget(inputs.last(), "name"@)) {
            Some(n) => rest.push(ascii_lower(n)),
            None => rest,
        }
    }
}

/// The lower-case node type and the JSON text of its `Node name for S&R` property.
pub open spec fn node_kind(es: Seq<(Seq<char>, JsonModel)>) -> Seq<char> {
    let name = match oobj(entries_get(es, "properties"@)) {
        Some(p) => match entries_get(p, "Node name for S&R"@) {
            Some(x) => ascii_lower(json_text_spec(x)),
            None => Seq::empty(),
        },
        None => Seq::empty(),
    };
    member_lower(es, "type"@) + " "@ + name
}

/// The first input name that the field designates among the candidates.
pub open spec fn visual_target(
    keys: Seq<Seq<char>>,
    names: Seq<Seq<char>>,
    any: bool,
    req: Seq<char>,
) -> Option<int>
    decreases keys.len(),
{
    if keys.len() == 0 {
        None
    } else if (any && names.contains(keys[0])) || (names.contains(req) && keys[0] == req) {
        Some(0)
    } else {
        match visual_target(keys.drop_first(), names, any, req) {
            Some(k) => Some(k + 1),
            None => None,
        }
    }
}

/// One more widget value after a seed widget: its control mode.
pub open spec fn seed_gap(name: Seq<char>) -> int {
    if eq_ic(name, "seed"@) {
        1
    } else {
        0
    }
}

/// The widget value that belongs to the first widget input named `target`.
pub open spec fn input_widget_slot(inputs: Seq<JsonModel>, target: Seq<char>) -> Option<int>
    decreases inputs.len(),
{
    if inputs.len() == 0 {
        None
    } else {
        let rest = input_widget_slot(inputs.drop_first(), target);
        match ostr(jget(inputs[0], "name"@)) {
            Some(name) => if jget(inputs[0], "widget"@).is_some() {
                if eq_ic(name, target) {
                    Some(0)
                } else {
                    match rest {
                        Some(w) => Some(w + 1 + seed_gap(name)),
                        None => None,
                    }
                }
            } else {
                rest
            },
            None => rest,
        }
    }
}

pub open spec fn widgets(es: Seq<(Seq<char>, JsonModel)>) -> Option<Seq<JsonModel>> {
    oarr(entries_get(es, "widgets_values"@))
}

/// Writing widget value `w`: `None` when the node has no such value, else the outcome.
pub open spec fn widget_edit(
    es: Seq<(Seq<char>, JsonModel)>,
    slot: Option<int>,
    new_value: Seq<char>,
    number: Option<Seq<char>>,
) -> Option<Option<Seq<(Seq<char>, JsonModel)>>> {
    match slot {
        Some(w) => match widgets(es) {
            Some(wv) => if 0 <= w < wv.len() {
                Some(
                    match replace_spec(wv[w], new_value, number) {
                        Some(r) => Some(
                            entries_set(es, "widgets_values"@, JsonModel::Array(wv.update(w, r))),
                        ),
                        None => None,
                    },
                )
            } else {
                None
            },
            None => None,
        },
        None => None,
    }
}

/// Where a positional ACE-Step export keeps each field.
pub open spec fn positional_slot(field: Seq<char>) -> Option<int> {
    if field == "prompt"@ {
        Some(0)
    } else if field == "lyrics"@ {
        Some(1)
    } else if field == "seed"@ {
        Some(2)
    } else if field == "bpm"@ {
        Some(4)
    } else if field == "duration"@ {
        Some(5)
    } else if field == "key"@ {
        Some(8)
    } else {
        None
    }
}

/// An input name that holds the field.
pub open spec fn key_hit(key: Seq<char>, field: Seq<char>) -> bool {
    key == field || (field == "key"@ && (key == "keyscale"@ || key == "tonality"@))
}

/// The widget value of the first input name that holds the field, counting a seed's
/// control mode.
pub open spec fn widget_slot(keys: Seq<Seq<char>>, field: Seq<char>) -> Option<int>
    decreases keys.len(),
{
    if keys.len() == 0 {
        None
    } else if key_hit(keys[0], field) {
        Some(0)
    } else {
        match widget_slot(keys.drop_first(), field) {
            Some(w) => Some(w + 1 + if keys[0] == "seed"@ {
                1int
            } else {
                0int
            }),
            None => None,
        }
    }
}

/// A visual node: the widget value that the field maps to.
pub open spec fn visual_step(
    es: Seq<(Seq<char>, JsonModel)>,
    field: Seq<char>,
    new_value: Seq<char>,
    number: Option<Seq<char>>,
) -> Option<Seq<(Seq<char>, JsonModel)>> {
    match oarr(entries_get(es, "inputs"@)) {
        None => None,
        Some(inputs) => {
            let keys = input_names(inputs);
            let node_type = member_lower(es, "type"@);
            let kind = node_kind(es);
            let ace = contains_seq(kind, "textencodeacestep"@) || (contains_seq(
                node_type,
                "acestep"@,
            ) && contains_seq(node_type, "textencode"@));
            let sampler = contains_seq(kind, "ksampler"@);
            let loader = is_loader_text(kind);
            let load_audio = is_load_audio_text(kind);
            let first = if sampler || loader || load_audio {
                let any = (field == "model"@ && loader) || (field == "reference_audio"@
                    && load_audio);
                match visual_target(
                    keys,
                    node_candidates(sampler, loader),
                    any,
                    requested_field(field),
                ) {
                    Some(t) => {
                        let slot = match input_widget_slot(inputs, keys[t]) {
                            Some(w) => Some(w),
                            None => if loader || load_audio {
                                Some(0int)
                            } else {
                                None
                            },
                        };
                        widget_edit(es, slot, new_value, number)
                    },
                    None => None,
                }
            } else {
                None
            };
            match first {
                Some(r) => r,
                None => if ace {
                    let positional = match widgets(es) {
                        Some(wv) => wv.len() >= 9 && !keys.contains("bpm"@) && !keys.contains(
                            "keyscale"@,
                        ),
                        None => false,
                    };
                    let second = if positional {
                        widget_edit(es, positional_slot(field), new_value, number)
                    } else {
                        None
                    };
                    match second {
                        Some(r) => r,
                        None => match widget_edit(es, widget_slot(keys, field), new_value, number) {
                            Some(r) => r,
                            None => None,
                        },
                    }
                } else {
                    None
                },
            }
        },
    }
}

/// The edit of one object node: the first rule that applies decides.
pub open spec fn update_object_spec(
    es: Seq<(Seq<char>, JsonModel)>,
    field: Seq<char>,
    new_value: Seq<char>,
    number: Option<Seq<char>>,
) -> Option<Seq<(Seq<char>, JsonModel)>> {
    match api_step(es, field, new_value, number) {
        Some(r) => r,
        None => match ace_step(es, field, new_value, number) {
            Some(r) => r,
            None => visual_step(es, field, new_value, number),
        },
    }
}

/// Writing a metadata field into a workflow: the first node, in document order, that
/// takes the new value and changes. `None` when none does.
pub open spec fn update_spec(
    v: JsonModel,
    field: Seq<char>,
    new_value: Seq<char>,
    number: Option<Seq<char>>,
) -> Option<JsonModel>
    decreases v,
{
    match v {
        JsonModel::Object(es) => match update_object_spec(es, field, new_value, number) {
            Some(n) => Some(JsonModel::Object(n)),
            None => match update_members(es, field, new_value, number) {
                Some(n) => Some(JsonModel::Object(n)),
                None => None,
            },
        },
        JsonModel::Array(items) => match update_items(items, field, new_value, number) {
            Some(n) => Some(JsonModel::Array(n)),
            None => None,
        },
        _ => None,
    }
}

pub open spec fn update_members(
    es: Seq<(Seq<char>, JsonModel)>,
    field: Seq<char>,
    new_value: Seq<char>,
    number: Option<Seq<char>>,
) -> Option<Seq<(Seq<char>, JsonModel)>>
    decreases es,
{
    if es.len() == 0 {
        None
    } else {
        match update_spec(es[0].1, field, new_value, number) {
            Some(c) => Some(es.update(0, (es[0].0, c))),
            None => match update_members(es.drop_first(), field, new_value, number) {
                Some(r) => Some(seq![es[0]] + r),
                None => None,
            },
        }
    }
}

pub open spec fn update_items(
    items: Seq<JsonModel>,
    field: Seq<char>,
    new_value: Seq<char>,
    number: Option<Seq<char>>,
) -> Option<Seq<JsonModel>>
    decreases items,
{
    if items.len() == 0 {
        None
    } else {
        match update_spec(items[0], field, new_value, number) {
            Some(c) => Some(items.update(0, c)),
            None => match update_items(items.drop_first(), field, new_value, number) {
                Some(r) => Some(seq![items[0]] + r),
                None => None,
            },
        }
    }
}

pub open spec fn json_opt(o: Option<Json>) -> Option<JsonModel> {
    match o {
        Some(j) => Some(j.model()),
        None => None,
    }
}

pub open spec fn entries_opt(o: Option<Vec<(String, Json)>>) -> Option<Seq<(Seq<char>, JsonModel)>> {
    match o {
        Some(v) => Some(entry_models(v@)),
        None => None,
    }
}

pub open spec fn entries_opt2(o: Option<Option<Vec<(String, Json)>>>) -> Option<
    Option<Seq<(Seq<char>, JsonModel)>>,
> {
    match o {
        Some(x) => Some(entries_opt(x)),
        None => None,
    }
}

/// The new value of `target`, when writing `new_value` changes it (see `replace_spec`).
/// `number` is the JSON text of `new_value` read as a float, if it reads as one.
pub fn replace_value(target: &Json, new_value: &str, number: Option<&str>) -> (r: Option<Json>)
    ensures
        json_opt(r) == replace_spec(target.model(), new_value@, opt_text_model(number)),
{
    let replacement = match target {
        Json::Number(_) => match parse_i64(new_value) {
            Some(n) => Json::Number(i64_text(n)),
            None => match number {
                Some(t) => Json::Number(String::from_str(t)),
                None => {
                    return None;
                },
            },
        },
        _ => Json::Str(String::from_str(new_value)),
    };
    if json_equal(&replacement, target) {
        None
    } else {
        Some(replacement)
    }
}

fn any_candidate_exec(key: &str, cands: &Vec<&str>, any: bool, req: &str) -> (r: bool)
    ensures
        r == any_candidate(key@, strs(cands@), any, req@),
{
    let n = cands.len();
    for i in 0..n
        invariant
            n == cands.len(),
            forall|j: int|
                0 <= j < i ==> !(eq_ic(key@, cands@[j]@) && (any || eq_ic(req@, cands@[j]@))),
    {
        if eq_ignore_ascii_case(key, cands[i]) && (any || eq_ignore_ascii_case(req, cands[i])) {
            assert(strs(cands@)[i as int] == cands@[i as int]@);
            return true;
        }
    }
    assert(!any_candidate(key@, strs(cands@), any, req@)) by {
        if any_candidate(key@, strs(cands@), any, req@) {
            let j = choose|j: int|
                0 <= j < strs(cands@).len() && eq_ic(key@, strs(cands@)[j]) && (any || eq_ic(
                    req@,
                    strs(cands@)[j],
                ));
            assert(strs(cands@)[j] == cands@[j]@);
        }
    }
    false
}

fn first_key_match_exec(es: &Vec<(String, Json)>, cands: &Vec<&str>, any: bool, req: &str) -> (r:
    Option<usize>)
    ensures
        match r {
            Some(k) => first_key_match(entry_models(es@), strs(cands@), any, req@) == Some(k as int)
                && k < es.len(),
            None => first_key_match(entry_models(es@), strs(cands@), any, req@).is_none(),
        },
{
    let ghost m = entry_models(es@);
    proof {
        lemma_entry_models_len(es@);
    }
    assert(m.skip(0) =~= m);
    let n = es.len();
    for i in 0..n
        invariant
            n == es.len(),
            m == entry_models(es@),
            m.len() == n,
            first_key_match(m, strs(cands@), any, req@) == match first_key_match(
                m.skip(i as int),
                strs(cands@),
                any,
                req@,
            ) {
                Some(k) => Some(k + i),
                None => None,
            },
    {
        proof {
            lemma_entry_models_index(es@, i as int);
        }
        assert(m.skip(i as int)[0] == m[i as int]);
        assert(m.skip(i as int).drop_first() =~= m.skip(i + 1));
        if any_candidate_exec(es[i].0.as_str(), cands, any, req) {
            return Some(i);
        }
    }
    assert(m.skip(n as int).len() == 0);
    None
}

fn member_lower_exec(es: &Vec<(String, Json)>, key: &str) -> (r: String)
    ensures
        r@ == member_lower(entry_models(es@), key@),
{
    match crate::json::entries_find(es, key) {
        Some(Json::Str(t)) => to_ascii_lowercase(t.as_str()),
        _ => {
            let e = String::new();
            assert(e@ =~= Seq::<char>::empty());
            e
        },
    }
}

fn replace_input_exec(
    es: &Vec<(String, Json)>,
    ins: &Vec<(String, Json)>,
    k: usize,
    new_value: &str,
    number: Option<&str>,
) -> (r: Option<Vec<(String, Json)>>)
    requires
        k < ins.len(),
    ensures
        entries_opt(r) == replace_input(
            entry_models(es@),
            entry_models(ins@),
            k as int,
            new_value@,
            opt_text_model(number),
        ),
{
    proof {
        lemma_entry_models_index(ins@, k as int);
        lemma_entry_models_len(ins@);
    }
    match replace_value(&ins[k].1, new_value, number) {
        Some(r) => {
            let new_ins = entries_with(ins, k, r);
            let mut out = super::clone_entries(es);
            entries_replace(&mut out, "inputs", Json::Object(new_ins));
            Some(out)
        },
        None => None,
    }
}

fn requested_field_exec(field: &str) -> (r: &str)
    ensures
        r@ == requested_field(field@),
{
    if text_eq(field, "ksampler_cfg") {
        "cfg"
    } else if text_eq(field, "ksampler_steps") {
        "steps"
    } else {
        field
    }
}

fn node_candidates_exec(sampler: bool, loader: bool) -> (r: Vec<&'static str>)
    ensures
        strs(r@) == node_candidates(sampler, loader),
{
    if sampler {
        let v = vec!["cfg", "steps"];
        assert(strs(v@) =~= sampler_inputs());
        v
    } else if loader {
        let v = vec!["ckpt_name", "unet_name", "model_name", "checkpoint", "checkpoint_name"];
        assert(strs(v@) =~= loader_inputs());
        v
    } else {
        let v = vec!["audio", "audio_name", "filename", "file_name", "name"];
        assert(strs(v@) =~= audio_inputs());
        v
    }
}

fn is_loader_exec(t: &str) -> (r: bool)
    ensures
        r == is_loader_text(t@),
{
    str_contains(t, "checkpointloader") || str_contains(t, "unetloader") || str_contains(
        t,
        "model loader",
    )
}

fn is_load_audio_exec(t: &str) -> (r: bool)
    ensures
        r == is_load_audio_text(t@),
{
    let c = remove_separators(t);
    str_contains(c.as_str(), "loadaudio")
}

fn is_ace_exec(t: &str) -> (r: bool)
    ensures
        r == is_ace_text(t@),
{
    str_contains(t, "textencodeacestep") || (str_contains(t, "acestep") && str_contains(
        t,
        "textencode",
    ))
}

fn api_step_exec(es: &Vec<(String, Json)>, field: &str, new_value: &str, number: Option<&str>) -> (r:
    Option<Option<Vec<(String, Json)>>>)
    ensures
        entries_opt2(r) == api_step(entry_models(es@), field@, new_value@, opt_text_model(number)),
{
    let ct = member_lower_exec(es, "class_type");
    let sampler = str_contains(ct.as_str(), "ksampler");
    let loader = is_loader_exec(ct.as_str());
    let load_audio = is_load_audio_exec(ct.as_str());
    if sampler || loader || load_audio {
        match crate::json::entries_find(es, "inputs") {
            Some(Json::Object(ins)) => {
                let any = (text_eq(field, "model") && loader) || (text_eq(field, "reference_audio")
                    && load_audio);
                let cands = node_candidates_exec(sampler, loader);
                match first_key_match_exec(ins, &cands, any, requested_field_exec(field)) {
                    Some(k) => Some(replace_input_exec(es, ins, k, new_value, number)),
                    None => None,
                }
            },
            _ => None,
        }
    } else {
        None
    }
}

fn ace_step_exec(es: &Vec<(String, Json)>, field: &str, new_value: &str, number: Option<&str>) -> (r:
    Option<Option<Vec<(String, Json)>>>)
    ensures
        entries_opt2(r) == ace_step(entry_models(es@), field@, new_value@, opt_text_model(number)),
{
    let ct = member_lower_exec(es, "class_type");
    if !is_ace_exec(ct.as_str()) {
        return None;
    }
    let by_field = vec![field];
    assert(strs(by_field@) =~= seq![field@]);
    match crate::json::entries_find(es, "inputs") {
        Some(Json::Object(ins)) => {
            match first_key_match_exec(ins, &by_field, true, field) {
                Some(k) => {
                    return Some(replace_input_exec(es, ins, k, new_value, number));
                },
                None => {},
            }
            if text_eq(field, "key") {
                let tonality = vec!["tonality"];
                assert(strs(tonality@) =~= seq!["tonality"@]);
                match first_key_match_exec(ins, &tonality, true, field) {
                    Some(k) => {
                        return Some(replace_input_exec(es, ins, k, new_value, number));
                    },
                    None => {},
                }
            }
        },
        _ => {},
    }
    proof {
        lemma_entry_models_len(es@);
    }
    match first_key_match_exec(es, &by_field, true, field) {
        Some(k) => {
            proof {
                lemma_entry_models_index(es@, k as int);
            }
            match replace_value(&es[k].1, new_value, number) {
                Some(r) => Some(Some(entries_with(es, k, r))),
                None => Some(None),
            }
        },
        None => None,
    }
}

fn input_names_exec(inputs: &Vec<Json>) -> (r: Vec<String>)
    ensures
        texts(r@) == input_names(models(inputs@)),
{
    let ghost m = models(inputs@);
    proof {
        lemma_models_len(inputs@);
    }
    let mut out: Vec<String> = Vec::new();
    assert(texts(out@) =~= Seq::<Seq<char>>::empty());
    let n = inputs.len();
    for i in 0..n
        invariant
            n == inputs.len(),
            m == models(inputs@),
            m.len() == n,
            texts(out@) == input_names(m.take(i as int)),
    {
        proof {
            lemma_models_index(inputs@, i as int);
        }
        assert(m.take(i + 1).drop_last() =~= m.take(i as int));
        let ghost before = out@;
        match inputs[i].get("name") {
            Some(Json::Str(name)) => {
                out.push(to_ascii_lowercase(name.as_str()));
                assert(texts(out@) =~= texts(before).push(ascii_lower(name@)));
            },
            _ => {},
        }
    }
    assert(m.take(n as int) =~= m);
    out
}

fn node_kind_exec(es: &Vec<(String, Json)>) -> (r: String)
    ensures
        r@ == node_kind(entry_models(es@)),
{
    let name = match crate::json::entries_find(es, "properties") {
        Some(Json::Object(p)) => match crate::json::entries_find(p, "Node name for S&R") {
            Some(x) => {
                let t = json_text(x);
                to_ascii_lowercase(t.as_str())
            },
            None => {
                let e = String::new();
                assert(e@ =~= Seq::<char>::empty());
                e
            },
        },
        _ => {
            let e = String::new();
            assert(e@ =~= Seq::<char>::empty());
            e
        },
    };
    let mut kind = member_lower_exec(es, "type");
    kind.append(" ");
    kind.append(name.as_str());
    kind
}

fn texts_has(v: &Vec<&str>, s: &str) -> (r: bool)
    ensures
        r == strs(v@).contains(s@),
{
    let n = v.len();
    for i in 0..n
        invariant
            n == v.len(),
            forall|k: int| 0 <= k < i ==> v@[k]@ != s@,
    {
        if text_eq(v[i], s) {
            assert(strs(v@)[i as int] == s@);
            return true;
        }
    }
    assert(!strs(v@).contains(s@)) by {
        if strs(v@).contains(s@) {
            let k = choose|k: int| 0 <= k < strs(v@).len() && strs(v@)[k] == s@;
            assert(v@[k]@ == s@);
        }
    }
    false
}

fn visual_target_exec(keys: &Vec<String>, names: &Vec<&str>, any: bool, req: &str) -> (r: Option<
    usize,
>)
    ensures
        match r {
            Some(k) => visual_target(texts(keys@), strs(names@), any, req@) == Some(k as int) && k
                < keys.len(),
            None => visual_target(texts(keys@), strs(names@), any, req@).is_none(),
        },
{
    let ghost m = texts(keys@);
    assert(m.skip(0) =~= m);
    let req_named = texts_has(names, req);
    let n = keys.len();
    for i in 0..n
        invariant
            n == keys.len(),
            m == texts(keys@),
            req_named == strs(names@).contains(req@),
            visual_target(m, strs(names@), any, req@) == match visual_target(
                m.skip(i as int),
                strs(names@),
                any,
                req@,
            ) {
                Some(k) => Some(k + i),
                None => None,
            },
    {
        assert(m.skip(i as int)[0] == m[i as int]);
        assert(m.skip(i as int).drop_first() =~= m.skip(i + 1));
        let key = keys[i].as_str();
        if (any && texts_has(names, key)) || (req_named && text_eq(key, req)) {
            return Some(i);
        }
    }
    assert(m.skip(n as int).len() == 0);
    None
}

fn input_widget_slot_exec(inputs: &Vec<Json>, target: &str) -> (r: Option<u128>)
    ensures
        match r {
            Some(w) => input_widget_slot(models(inputs@), target@) == Some(w as int),
            None => input_widget_slot(models(inputs@), target@).is_none(),
        },
{
    let ghost m = models(inputs@);
    proof {
        lemma_models_len(inputs@);
    }
    assert(m.skip(0) =~= m);
    let n = inputs.len();
    let mut w: u128 = 0;
    for i in 0..n
        invariant
            n == inputs.len(),
            m == models(inputs@),
            m.len() == n,
            w <= 2 * i,
            input_widget_slot(m, target@) == match input_widget_slot(m.skip(i as int), target@) {
                Some(x) => Some(x + w),
                None => None,
            },
    {
        proof {
            lemma_models_index(inputs@, i as int);
        }
        assert(m.skip(i as int)[0] == m[i as int]);
        assert(m.skip(i as int).drop_first() =~= m.skip(i + 1));
        match inputs[i].get("name") {
            Some(Json::Str(name)) => {
                if inputs[i].get("widget").is_some() {
                    if eq_ignore_ascii_case(name.as_str(), target) {
                        return Some(w);
                    }
                    w = w + 1;
                    if eq_ignore_ascii_case(name.as_str(), "seed") {
                        w = w + 1;
                    }
                }
            },
            _ => {},
        }
    }
    assert(m.skip(n as int).len() == 0);
    None
}

fn widget_edit_exec(
    es: &Vec<(String, Json)>,
    slot: Option<u128>,
    new_value: &str,
    number: Option<&str>,
) -> (r: Option<Option<Vec<(String, Json)>>>)
    ensures
        entries_opt2(r) == widget_edit(
            entry_models(es@),
            match slot {
                Some(w) => Some(w as int),
                None => None,
            },
            new_value@,
            opt_text_model(number),
        ),
{
    let w = match slot {
        Some(w) => w,
        None => {
            return None;
        },
    };
    match crate::json::entries_find(es, "widgets_values") {
        Some(Json::Array(wv)) => {
            proof {
                lemma_models_len(wv@);
            }
            if w < wv.len() as u128 {
                let w = w as usize;
                proof {
                    lemma_models_index(wv@, w as int);
                }
                match replace_value(&wv[w], new_value, number) {
                    Some(r) => {
                        let nv = items_with(wv, w, r);
                        let mut out = super::clone_entries(es);
                        entries_replace(&mut out, "widgets_values", Json::Array(nv));
                        Some(Some(out))
                    },
                    None => Some(None),
                }
            } else {
                None
            }
        },
        _ => None,
    }
}

fn positional_slot_exec(field: &str) -> (r: Option<u128>)
    ensures
        match r {
            Some(w) => positional_slot(field@) == Some(w as int),
            None => positional_slot(field@).is_none(),
        },
{
    if text_eq(field, "prompt") {
        Some(0)
    } else if text_eq(field, "lyrics") {
        Some(1)
    } else if text_eq(field, "seed") {
        Some(2)
    } else if text_eq(field, "bpm") {
        Some(4)
    } else if text_eq(field, "duration") {
        Some(5)
    } else if text_eq(field, "key") {
        Some(8)
    } else {
        None
    }
}

fn widget_slot_exec(keys: &Vec<String>, field: &str) -> (r: Option<u128>)
    ensures
        match r {
            Some(w) => widget_slot(texts(keys@), field@) == Some(w as int),
            None => widget_slot(texts(keys@), field@).is_none(),
        },
{
    let ghost m = texts(keys@);
    assert(m.skip(0) =~= m);
    let is_key = text_eq(field, "key");
    let n = keys.len();
    let mut w: u128 = 0;
    for i in 0..n
        invariant
            n == keys.len(),
            m == texts(keys@),
            is_key == (field@ == "key"@),
            w <= 2 * i,
            widget_slot(m, field@) == match widget_slot(m.skip(i as int), field@) {
                Some(x) => Some(x + w),
                None => None,
            },
    {
        assert(m.skip(i as int)[0] == m[i as int]);
        assert(m.skip(i as int).drop_first() =~= m.skip(i + 1));
        let key = keys[i].as_str();
        if text_eq(key, field) || (is_key && (text_eq(key, "keyscale") || text_eq(key, "tonality"))) {
            return Some(w);
        }
        w = w + 1;
        if text_eq(key, "seed") {
            w = w + 1;
        }
    }
    assert(m.skip(n as int).len() == 0);
    None
}

fn has_text(v: &Vec<String>, s: &str) -> (r: bool)
    ensures
        r == texts(v@).contains(s@),
{
    super::graph::texts_contain(v, s)
}

fn visual_step_exec(es: &Vec<(String, Json)>, field: &str, new_value: &str, number: Option<&str>) -> (r:
    Option<Vec<(String, Json)>>)
    ensures
        entries_opt(r) == visual_step(entry_models(es@), field@, new_value@, opt_text_model(number)),
{
    let inputs = match crate::json::entries_find(es, "inputs") {
        Some(Json::Array(inputs)) => inputs,
        _ => {
            return None;
        },
    };
    let keys = input_names_exec(inputs);
    let node_type = member_lower_exec(es, "type");
    let kind = node_kind_exec(es);
    let ace = str_contains(kind.as_str(), "textencodeacestep") || (str_contains(
        node_type.as_str(),
        "acestep",
    ) && str_contains(node_type.as_str(), "textencode"));
    let sampler = str_contains(kind.as_str(), "ksampler");
    let loader = is_loader_exec(kind.as_str());
    let load_audio = is_load_audio_exec(kind.as_str());
    if sampler || loader || load_audio {
        let any = (text_eq(field, "model") && loader) || (text_eq(field, "reference_audio")
            && load_audio);
        let cands = node_candidates_exec(sampler, loader);
        match visual_target_exec(&keys, &cands, any, requested_field_exec(field)) {
            Some(t) => {
                assert(texts(keys@)[t as int] == keys@[t as int]@);
                let slot = match input_widget_slot_exec(inputs, keys[t].as_str()) {
                    Some(w) => Some(w),
                    None => if loader || load_audio {
                        Some(0u128)
                    } else {
                        None
                    },
                };
                match widget_edit_exec(es, slot, new_value, number) {
                    Some(r) => {
                        return r;
                    },
                    None => {},
                }
            },
            None => {},
        }
    }
    if !ace {
        return None;
    }
    let positional = match crate::json::entries_find(es, "widgets_values") {
        Some(Json::Array(wv)) => {
            proof {
                lemma_models_len(wv@);
            }
            wv.len() >= 9 && !has_text(&keys, "bpm") && !has_text(&keys, "keyscale")
        },
        _ => false,
    };
    if positional {
        match widget_edit_exec(es, positional_slot_exec(field), new_value, number) {
            Some(r) => {
                return r;
            },
            None => {},
        }
    }
    match widget_edit_exec(es, widget_slot_exec(&keys, field), new_value, number) {
        Some(r) => r,
        None => None,
    }
}

fn update_object_exec(es: &Vec<(String, Json)>, field: &str, new_value: &str, number: Option<&str>) -> (r:
    Option<Vec<(String, Json)>>)
    ensures
        entries_opt(r) == update_object_spec(
            entry_models(es@),
            field@,
            new_value@,
            opt_text_model(number),
        ),
{
    match api_step_exec(es, field, new_value, number) {
        Some(r) => r,
        None => match ace_step_exec(es, field, new_value, number) {
            Some(r) => r,
            None => visual_step_exec(es, field, new_value, number),
        },
    }
}

/// The document after writing a metadata field into it (see `update_spec`); `None`
/// when no node takes the value.
pub fn updated_document(value: &Json, field: &str, new_value: &str, number: Option<&str>) -> (r:
    Option<Json>)
    ensures
        json_opt(r) == update_spec(value.model(), field@, new_value@, opt_text_model(number)),
    decreases crate::json::json_size(*value),
{
    match value {
        Json::Object(es) => {
            match update_object_exec(es, field, new_value, number) {
                Some(n) => {
                    return Some(Json::Object(n));
                },
                None => {},
            }
            let ghost m = entry_models(es@);
            proof {
                lemma_entry_models_len(es@);
            }
            assert(m.skip(0) =~= m);
            let n = es.len();
            for i in 0..n
                invariant
                    n == es.len(),
                    m == entry_models(es@),
                    m.len() == n,
                    value == Json::Object(*es),
                    update_object_spec(m, field@, new_value@, opt_text_model(number)).is_none(),
                    update_members(m, field@, new_value@, opt_text_model(number)) == match update_members(
                        m.skip(i as int),
                        field@,
                        new_value@,
                        opt_text_model(number),
                    ) {
                        Some(t) => Some(m.take(i as int) + t),
                        None => None,
                    },
            {
                proof {
                    lemma_entry_models_index(es@, i as int);
                    crate::json::lemma_object_child_smaller(*value, *es, i as int);
                }
                assert(m.skip(i as int)[0] == m[i as int]);
                assert(m.skip(i as int).drop_first() =~= m.skip(i + 1));
                match updated_document(&es[i].1, field, new_value, number) {
                    Some(c) => {
                        let ghost cm = c.model();
                        assert(m.take(i as int) + m.skip(i as int).update(0, (m[i as int].0, cm))
                            =~= m.update(i as int, (m[i as int].0, cm)));
                        return Some(Json::Object(entries_with(es, i, c)));
                    },
                    None => {},
                }
                assert(m.take(i + 1) =~= m.take(i as int).push(m[i as int]));
                assert forall|t: Seq<(Seq<char>, JsonModel)>| true implies m.take(i as int) + (seq![
                    m[i as int],
                ] + t) =~= m.take(i + 1) + t by {}
            }
            assert(m.skip(n as int).len() == 0);
            None
        },
        Json::Array(items) => {
            let ghost m = models(items@);
            proof {
                lemma_models_len(items@);
            }
            assert(m.skip(0) =~= m);
            let n = items.len();
            for i in 0..n
                invariant
                    n == items.len(),
                    m == models(items@),
                    m.len() == n,
                    value == Json::Array(*items),
                    update_items(m, field@, new_value@, opt_text_model(number)) == match update_items(
                        m.skip(i as int),
                        field@,
                        new_value@,
                        opt_text_model(number),
                    ) {
                        Some(t) => Some(m.take(i as int) + t),
                        None => None,
                    },
            {
                proof {
                    lemma_models_index(items@, i as int);
                    crate::json::lemma_array_child_smaller(*value, *items, i as int);
                }
                assert(m.skip(i as int)[0] == m[i as int]);
                assert(m.skip(i as int).drop_first() =~= m.skip(i + 1));
                match updated_document(&items[i], field, new_value, number) {
                    Some(c) => {
                        let ghost cm = c.model();
                        assert(m.take(i as int) + m.skip(i as int).update(0, cm) =~= m.update(
                            i as int,
                            cm,
                        ));
                        return Some(Json::Array(items_with(items, i, c)));
                    },
                    None => {},
                }
                assert(m.take(i + 1) =~= m.take(i as int).push(m[i as int]));
                assert forall|t: Seq<JsonModel>| true implies m.take(i as int) + (seq![m[i as int]] + t)
                    =~= m.take(i + 1) + t by {}
            }
            assert(m.skip(n as int).len() == 0);
            None
        },
        _ => None,
    }
}

/// Writes a metadata field into a workflow document: the first node that takes the value
/// and changes is changed, and `true` says that one did. `number` is the JSON text of
/// `new_value` read as a 64-bit float, where it reads as one.
pub fn update_metadata(value: &mut Json, field: &str, new_value: &str, number: Option<&str>) -> (r:
    bool)
    ensures
        r == update_spec(old(value).model(), field@, new_value@, opt_text_model(number)).is_some(),
        final(value).model() == match update_spec(
            old(value).model(),
            field@,
            new_value@,
            opt_text_model(number),
        ) {
            Some(n) => n,
            None => old(value).model(),
        },
{
    match updated_document(value, field, new_value, number) {
        Some(n) => {
            *value = n;
            true
        },
        None => false,
    }
}

/// The id of a node as text: an integer id printed, or a string id.
pub open spec fn node_id_text(v: JsonModel) -> Option<Seq<char>> {
    match jget(v, "id"@) {
        Some(x) => match crate::json::ji64(x) {
            Some(n) => Some(int_text(n as int)),
            None => jstr(x),
        },
        None => None,
    }
}

/// The place of the node with id `id`, as a path of member and element positions: the
/// document itself when it has that id; an API node is not searched further; a member
/// named by the id that is an object; else the first child, in order, that holds it.
pub open spec fn find_path(v: JsonModel, id: Seq<char>) -> Option<Seq<int>>
    decreases v,
{
    if node_id_text(v) == Some(id) {
        Some(Seq::empty())
    } else {
        match v {
            JsonModel::Object(es) => if entries_get(es, "class_type"@).is_some() {
                None
            } else {
                match crate::json::entries_index(es, id) {
                    Some(k) => if 0 <= k < es.len() && es[k].1 is Object {
                        Some(seq![k])
                    } else {
                        find_in_members(es, id, 0)
                    },
                    None => find_in_members(es, id, 0),
                }
            },
            JsonModel::Array(items) => find_in_items(items, id, 0),
            _ => None,
        }
    }
}

pub open spec fn find_in_members(es: Seq<(Seq<char>, JsonModel)>, id: Seq<char>, at: int) -> Option<
    Seq<int>,
>
    decreases es,
{
    if es.len() == 0 {
        None
    } else {
        match find_path(es[0].1, id) {
            Some(p) => Some(seq![at] + p),
            None => find_in_members(es.drop_first(), id, at + 1),
        }
    }
}

pub open spec fn find_in_items(items: Seq<JsonModel>, id: Seq<char>, at: int) -> Option<Seq<int>>
    decreases items,
{
    if items.len() == 0 {
        None
    } else {
        match find_path(items[0], id) {
            Some(p) => Some(seq![at] + p),
            None => find_in_items(items.drop_first(), id, at + 1),
        }
    }
}

/// The value at a path.
pub open spec fn at_path(v: JsonModel, p: Seq<int>) -> Option<JsonModel>
    decreases p.len(),
{
    if p.len() == 0 {
        Some(v)
    } else {
        match v {
            JsonModel::Object(es) => if 0 <= p[0] < es.len() {
                at_path(es[p[0]].1, p.drop_first())
            } else {
                None
            },
            JsonModel::Array(items) => if 0 <= p[0] < items.len() {
                at_path(items[p[0]], p.drop_first())
            } else {
                None
            },
            _ => None,
        }
    }
}

/// The document with the value at a path replaced.
pub open spec fn put_path(v: JsonModel, p: Seq<int>, n: JsonModel) -> JsonModel
    decreases p.len(),
{
    if p.len() == 0 {
        n
    } else {
        match v {
            JsonModel::Object(es) => if 0 <= p[0] < es.len() {
                JsonModel::Object(es.update(p[0], (es[p[0]].0, put_path(es[p[0]].1, p.drop_first(), n))))
            } else {
                v
            },
            JsonModel::Array(items) => if 0 <= p[0] < items.len() {
                JsonModel::Array(items.update(p[0], put_path(items[p[0]], p.drop_first(), n)))
            } else {
                v
            },
            _ => v,
        }
    }
}

pub open spec fn path_model(p: Option<Vec<usize>>) -> Option<Seq<int>> {
    match p {
        Some(v) => Some(ints(v@)),
        None => None,
    }
}

fn node_id_exec(v: &Json) -> (r: Option<String>)
    ensures
        match r {
            Some(t) => node_id_text(v.model()) == Some(t@),
            None => node_id_text(v.model()).is_none(),
        },
{
    match v.get("id") {
        Some(x) => match x.as_i64() {
            Some(n) => Some(i64_text(n)),
            None => match x {
                Json::Str(t) => Some(t.clone()),
                _ => None,
            },
        },
        None => None,
    }
}

fn prefixed(at: usize, p: Vec<usize>) -> (r: Vec<usize>)
    ensures
        r@.map_values(|i: usize| i as int) == seq![at as int] + p@.map_values(|i: usize| i as int),
{
    let mut out: Vec<usize> = vec![at];
    let n = p.len();
    for i in 0..n
        invariant
            n == p.len(),
            out@ == seq![at] + p@.take(i as int),
    {
        assert(p@.take(i + 1) =~= p@.take(i as int).push(p@[i as int]));
        out.push(p[i]);
        assert(out@ =~= seq![at] + p@.take(i + 1));
    }
    assert(p@.take(n as int) =~= p@);
    assert(out@ == seq![at] + p@);
    assert(out@.map_values(|i: usize| i as int) =~= seq![at as int] + p@.map_values(|i: usize| i as int));
    out
}

/// The path of the node with id `id` (see `find_path`).
pub fn find_node_path(value: &Json, id: &str) -> (r: Option<Vec<usize>>)
    ensures
        path_model(r) == find_path(value.model(), id@),
    decreases crate::json::json_size(*value),
{
    match node_id_exec(value) {
        Some(t) => {
            if text_eq(t.as_str(), id) {
                let p: Vec<usize> = Vec::new();
                assert(p@.map_values(|i: usize| i as int) =~= Seq::<int>::empty());
                return Some(p);
            }
        },
        None => {},
    }
    match value {
        Json::Object(es) => {
            if crate::json::entries_find(es, "class_type").is_some() {
                return None;
            }
            proof {
                lemma_entry_models_len(es@);
            }
            match crate::json::entries_position(es, id) {
                Some(k) => {
                    proof {
                        crate::json::lemma_entries_index_bound(entry_models(es@), id@);
                        lemma_entry_models_index(es@, k as int);
                    }
                    if es[k].1.is_object() {
                        let p = vec![k];
                        assert(p@.map_values(|i: usize| i as int) =~= seq![k as int]);
                        return Some(p);
                    }
                },
                None => {},
            }
            let ghost m = entry_models(es@);
            assert(m.skip(0) =~= m);
            assert(find_path(value.model(), id@) == find_in_members(m, id@, 0));
            let n = es.len();
            for i in 0..n
                invariant
                    n == es.len(),
                    m == entry_models(es@),
                    m.len() == n,
                    value == Json::Object(*es),
                    find_path(value.model(), id@) == find_in_members(m, id@, 0),
                    find_in_members(m, id@, 0) == find_in_members(m.skip(i as int), id@, i as int),
            {
                proof {
                    lemma_entry_models_index(es@, i as int);
                    crate::json::lemma_object_child_smaller(*value, *es, i as int);
                }
                assert(m.skip(i as int)[0] == m[i as int]);
                assert(m.skip(i as int).drop_first() =~= m.skip(i + 1));
                match find_node_path(&es[i].1, id) {
                    Some(p) => {
                        return Some(prefixed(i, p));
                    },
                    None => {},
                }
            }
            assert(m.skip(n as int).len() == 0);
            None
        },
        Json::Array(items) => {
            let ghost m = models(items@);
            proof {
                lemma_models_len(items@);
            }
            assert(m.skip(0) =~= m);
            assert(find_path(value.model(), id@) == find_in_items(m, id@, 0));
            let n = items.len();
            for i in 0..n
                invariant
                    n == items.len(),
                    m == models(items@),
                    m.len() == n,
                    value == Json::Array(*items),
                    find_path(value.model(), id@) == find_in_items(m, id@, 0),
                    find_in_items(m, id@, 0) == find_in_items(m.skip(i as int), id@, i as int),
            {
                proof {
                    lemma_models_index(items@, i as int);
                    crate::json::lemma_array_child_smaller(*value, *items, i as int);
                }
                assert(m.skip(i as int)[0] == m[i as int]);
                assert(m.skip(i as int).drop_first() =~= m.skip(i + 1));
                match find_node_path(&items[i], id) {
                    Some(p) => {
                        return Some(prefixed(i, p));
                    },
                    None => {},
                }
            }
            assert(m.skip(n as int).len() == 0);
            None
        },
        _ => None,
    }
}

pub open spec fn ints(p: Seq<usize>) -> Seq<int> {
    p.map_values(|i: usize| i as int)
}

/// The value at the path from position `from` on.
pub fn node_at<'a>(value: &'a Json, path: &Vec<usize>, from: usize) -> (r: Option<&'a Json>)
    requires
        from <= path.len(),
    ensures
        crate::json::opt_model(r) == at_path(value.model(), ints(path@).skip(from as int)),
    decreases path.len() - from,
{
    let ghost p = ints(path@).skip(from as int);
    if from == path.len() {
        assert(p.len() == 0);
        return Some(value);
    }
    assert(p[0] == path@[from as int] as int);
    assert(p.drop_first() =~= ints(path@).skip(from + 1));
    let k = path[from];
    match value {
        Json::Object(es) => {
            proof {
                lemma_entry_models_len(es@);
            }
            if k < es.len() {
                proof {
                    lemma_entry_models_index(es@, k as int);
                }
                node_at(&es[k].1, path, from + 1)
            } else {
                None
            }
        },
        Json::Array(items) => {
            proof {
                lemma_models_len(items@);
            }
            if k < items.len() {
                proof {
                    lemma_models_index(items@, k as int);
                }
                node_at(&items[k], path, from + 1)
            } else {
                None
            }
        },
        _ => None,
    }
}

/// A copy of the document with the value at the path (from position `from` on) replaced.
pub fn with_path(value: &Json, path: &Vec<usize>, from: usize, n: Json) -> (r: Json)
    requires
        from <= path.len(),
    ensures
        r.model() == put_path(value.model(), ints(path@).skip(from as int), n.model()),
    decreases path.len() - from,
{
    let ghost p = ints(path@).skip(from as int);
    if from == path.len() {
        assert(p.len() == 0);
        return n;
    }
    assert(p[0] == path@[from as int] as int);
    assert(p.drop_first() =~= ints(path@).skip(from + 1));
    let k = path[from];
    match value {
        Json::Object(es) => {
            proof {
                lemma_entry_models_len(es@);
            }
            if k < es.len() {
                proof {
                    lemma_entry_models_index(es@, k as int);
                }
                let c = with_path(&es[k].1, path, from + 1, n);
                Json::Object(entries_with(es, k, c))
            } else {
                json_duplicate(value)
            }
        },
        Json::Array(items) => {
            proof {
                lemma_models_len(items@);
            }
            if k < items.len() {
                proof {
                    lemma_models_index(items@, k as int);
                }
                let c = with_path(&items[k], path, from + 1, n);
                Json::Array(items_with(items, k, c))
            } else {
                json_duplicate(value)
            }
        },
        _ => json_duplicate(value),
    }
}

pub open spec fn lora_file_inputs() -> Seq<Seq<char>> {
    seq!["lora_name"@, "filename"@, "file_name"@, "name"@]
}

pub open spec fn lora_weight_inputs() -> Seq<Seq<char>> {
    seq!["strength_model"@, "strength"@, "weight"@]
}

/// A LoRA node with `replacement` written into widget value `w` when it has a widget
/// list, else into its first input named by a candidate; `None` when nothing changes.
pub open spec fn lora_node_edit(
    node: JsonModel,
    w: int,
    cands: Seq<Seq<char>>,
    replacement: JsonModel,
) -> Option<JsonModel> {
    match node {
        JsonModel::Object(es) => match entries_get(es, "widgets_values"@) {
            Some(JsonModel::Array(wv)) => if 0 <= w < wv.len() && wv[w] != replacement {
                Some(
                    JsonModel::Object(
                        entries_set(es, "widgets_values"@, JsonModel::Array(wv.update(w, replacement))),
                    ),
                )
            } else {
                None
            },
            _ => match oobj(entries_get(es, "inputs"@)) {
                Some(ins) => match first_key_match(ins, cands, true, Seq::empty()) {
                    Some(k) => if ins[k].1 == replacement {
                        None
                    } else {
                        Some(
                            JsonModel::Object(
                                entries_set(
                                    es,
                                    "inputs"@,
                                    JsonModel::Object(ins.update(k, (ins[k].0, replacement))),
                                ),
                            ),
                        )
                    },
                    None => None,
                },
                None => None,
            },
        },
        _ => None,
    }
}

/// The document with the node of id `id` edited, when it has that node and the edit
/// changes it.
pub open spec fn node_edit_spec(
    v: JsonModel,
    id: Seq<char>,
    w: int,
    cands: Seq<Seq<char>>,
    replacement: JsonModel,
) -> Option<JsonModel> {
    match find_path(v, id) {
        Some(p) => match at_path(v, p) {
            Some(node) => match lora_node_edit(node, w, cands, replacement) {
                Some(nn) => Some(put_path(v, p, nn)),
                None => None,
            },
            None => None,
        },
        None => None,
    }
}

fn lora_node_edit_exec(node: &Json, w: usize, cands: &Vec<&str>, replacement: Json) -> (r: Option<
    Json,
>)
    ensures
        json_opt(r) == lora_node_edit(node.model(), w as int, strs(cands@), replacement.model()),
{
    let es = match node {
        Json::Object(es) => es,
        _ => {
            return None;
        },
    };
    match crate::json::entries_find(es, "widgets_values") {
        Some(Json::Array(wv)) => {
            proof {
                lemma_models_len(wv@);
            }
            if w < wv.len() {
                proof {
                    lemma_models_index(wv@, w as int);
                }
                if json_equal(&wv[w], &replacement) {
                    return None;
                }
                let nv = items_with(wv, w, replacement);
                let mut out = super::clone_entries(es);
                entries_replace(&mut out, "widgets_values", Json::Array(nv));
                return Some(Json::Object(out));
            }
            return None;
        },
        _ => {},
    }
    match crate::json::entries_find(es, "inputs") {
        Some(Json::Object(ins)) => {
            let e = String::new();
            assert(e@ =~= Seq::<char>::empty());
            match first_key_match_exec(ins, cands, true, e.as_str()) {
                Some(k) => {
                    proof {
                        lemma_entry_models_index(ins@, k as int);
                    }
                    if json_equal(&ins[k].1, &replacement) {
                        return None;
                    }
                    let ni = entries_with(ins, k, replacement);
                    let mut out = super::clone_entries(es);
                    entries_replace(&mut out, "inputs", Json::Object(ni));
                    Some(Json::Object(out))
                },
                None => None,
            }
        },
        _ => None,
    }
}

fn node_edit_exec(value: &Json, id: &str, w: usize, cands: &Vec<&str>, replacement: Json) -> (r:
    Option<Json>)
    ensures
        json_opt(r) == node_edit_spec(value.model(), id@, w as int, strs(cands@), replacement.model()),
{
    let path = match find_node_path(value, id) {
        Some(p) => p,
        None => {
            return None;
        },
    };
    assert(ints(path@).skip(0) =~= ints(path@));
    let node = match node_at(value, &path, 0) {
        Some(n) => n,
        None => {
            return None;
        },
    };
    match lora_node_edit_exec(node, w, cands, replacement) {
        Some(nn) => Some(with_path(value, &path, 0, nn)),
        None => None,
    }
}

/// Points the LoRA node `node_id` at another file: the first widget value of a visual
/// node, else its file-name input. `true` when the node changed.
pub fn set_lora_path(value: &mut Json, node_id: &str, path: &str) -> (r: bool)
    ensures
        r == node_edit_spec(
            old(value).model(),
            node_id@,
            0,
            lora_file_inputs(),
            JsonModel::Str(path@),
        ).is_some(),
        final(value).model() == match node_edit_spec(
            old(value).model(),
            node_id@,
            0,
            lora_file_inputs(),
            JsonModel::Str(path@),
        ) {
            Some(n) => n,
            None => old(value).model(),
        },
{
    let cands = vec!["lora_name", "filename", "file_name", "name"];
    assert(strs(cands@) =~= lora_file_inputs());
    match node_edit_exec(value, node_id, 0, &cands, Json::Str(String::from_str(path))) {
        Some(n) => {
            *value = n;
            true
        },
        None => false,
    }
}

/// Sets the strength of the LoRA node `node_id`: the second widget value of a visual
/// node, else its strength input. `strength_number` is the JSON text of the strength
/// read as a 64-bit float, `None` when it does not read as a finite one; then nothing
/// changes. `true` when the node changed.
pub fn set_lora_strength(value: &mut Json, node_id: &str, strength_number: Option<&str>) -> (r: bool)
    ensures
        r == match strength_number {
            Some(t) => node_edit_spec(
                old(value).model(),
                node_id@,
                1,
                lora_weight_inputs(),
                JsonModel::Number(t@),
            ).is_some(),
            None => false,
        },
        final(value).model() == match strength_number {
            Some(t) => match node_edit_spec(
                old(value).model(),
                node_id@,
                1,
                lora_weight_inputs(),
                JsonModel::Number(t@),
            ) {
                Some(n) => n,
                None => old(value).model(),
            },
            None => old(value).model(),
        },
{
    let t = match strength_number {
        Some(t) => t,
        None => {
            return false;
        },
    };
    let cands = vec!["strength_model", "strength", "weight"];
    assert(strs(cands@) =~= lora_weight_inputs());
    match node_edit_exec(value, node_id, 1, &cands, Json::Number(String::from_str(t))) {
        Some(n) => {
            *value = n;
            true
        },
        None => false,
    }
}

/// A LoRA loader by its type: `loraloader` or `loadlora` in the lower-case type.
pub open spec fn is_lora_type(node: JsonModel) -> bool {
    match super::graph::node_type_text(node) {
        Some(t) => contains_seq(ascii_lower(t), "loraloader"@) || contains_seq(
            ascii_lower(t),
            "loadlora"@,
        ),
        None => false,
    }
}

pub open spec fn visual_lora_ids(ns: Seq<JsonModel>) -> Seq<Seq<char>>
    decreases ns.len(),
{
    if ns.len() == 0 {
        Seq::empty()
    } else {
        let rest = visual_lora_ids(ns.drop_last());
        if is_lora_type(ns.last()) && node_id_text(ns.last()).is_some() {
            rest.push(node_id_text(ns.last()).unwrap())
        } else {
            rest
        }
    }
}

pub open spec fn api_lora_ids(es: Seq<(Seq<char>, JsonModel)>) -> Seq<Seq<char>>
    decreases es.len(),
{
    if es.len() == 0 {
        Seq::empty()
    } else {
        let rest = api_lora_ids(es.drop_last());
        if is_lora_type(es.last().1) {
            rest.push(es.last().0)
        } else {
            rest
        }
    }
}

/// The ids of the LoRA loaders of a workflow, in document order.
pub open spec fn lora_node_ids(v: JsonModel) -> Seq<Seq<char>> {
    match v {
        JsonModel::Object(es) => match oarr(entries_get(es, "nodes"@)) {
            Some(ns) => visual_lora_ids(ns),
            None => api_lora_ids(es),
        },
        _ => Seq::empty(),
    }
}

/// The node id at the head of an `[id, output]` reference.
pub open spec fn reference_id_spec(v: JsonModel) -> Option<Seq<char>> {
    match jarr(v) {
        Some(a) => if a.len() > 0 {
            match jstr(a[0]) {
                Some(s) => Some(s),
                None => match crate::json::ji64(a[0]) {
                    Some(n) => Some(int_text(n as int)),
                    None => None,
                },
            }
        } else {
            None
        },
        None => None,
    }
}

pub open spec fn first_model_ref(ins: Seq<(Seq<char>, JsonModel)>) -> Option<Seq<char>>
    decreases ins.len(),
{
    if ins.len() == 0 {
        None
    } else if super::graph::is_model_input_name(ins[0].0) && reference_id_spec(ins[0].1).is_some() {
        reference_id_spec(ins[0].1)
    } else {
        first_model_ref(ins.drop_first())
    }
}

/// The node that feeds the model input of an API node.
pub open spec fn model_reference_spec(node: JsonModel) -> Option<Seq<char>> {
    match oobj(jget(node, "inputs"@)) {
        Some(ins) => first_model_ref(ins),
        None => None,
    }
}

pub open spec fn first_model_slot(ins: Seq<(Seq<char>, JsonModel)>) -> Option<int>
    decreases ins.len(),
{
    if ins.len() == 0 {
        None
    } else if super::graph::is_model_input_name(ins[0].0) && ins[0].1 is Array {
        Some(0)
    } else {
        match first_model_slot(ins.drop_first()) {
            Some(k) => Some(k + 1),
            None => None,
        }
    }
}

/// `[id, 0]`.
pub open spec fn reference_to(id: Seq<char>) -> JsonModel {
    JsonModel::Array(seq![JsonModel::Str(id), JsonModel::Number("0"@)])
}

/// An API node with its model input pointed at `id`; `None` when it has no model input
/// that holds a reference.
pub open spec fn set_model_ref_spec(node: JsonModel, id: Seq<char>) -> Option<JsonModel> {
    match node {
        JsonModel::Object(es) => match oobj(entries_get(es, "inputs"@)) {
            Some(ins) => match first_model_slot(ins) {
                Some(k) => Some(
                    JsonModel::Object(
                        entries_set(
                            es,
                            "inputs"@,
                            JsonModel::Object(ins.update(k, (ins[k].0, reference_to(id)))),
                        ),
                    ),
                ),
                None => None,
            },
            None => None,
        },
        _ => None,
    }
}

/// The node of id `id` in the document.
pub open spec fn node_of(v: JsonModel, id: Seq<char>) -> Option<JsonModel> {
    match find_path(v, id) {
        Some(p) => at_path(v, p),
        None => None,
    }
}

fn is_lora_type_exec(node: &Json) -> (r: bool)
    ensures
        r == is_lora_type(node.model()),
{
    match super::graph::node_type_exec(node) {
        Some(t) => {
            let l = to_ascii_lowercase(t.as_str());
            str_contains(l.as_str(), "loraloader") || str_contains(l.as_str(), "loadlora")
        },
        None => false,
    }
}

/// The ids of the LoRA loaders of a workflow (see `lora_node_ids`).
pub fn node_ids(value: &Json) -> (r: Vec<String>)
    ensures
        texts(r@) == lora_node_ids(value.model()),
{
    let mut out: Vec<String> = Vec::new();
    assert(texts(out@) =~= Seq::<Seq<char>>::empty());
    let es = match value {
        Json::Object(es) => es,
        _ => {
            return out;
        },
    };
    match crate::json::entries_find(es, "nodes") {
        Some(Json::Array(ns)) => {
            let ghost m = models(ns@);
            proof {
                lemma_models_len(ns@);
            }
            let n = ns.len();
            for i in 0..n
                invariant
                    n == ns.len(),
                    m == models(ns@),
                    m.len() == n,
                    texts(out@) == visual_lora_ids(m.take(i as int)),
            {
                proof {
                    lemma_models_index(ns@, i as int);
                }
                assert(m.take(i + 1).drop_last() =~= m.take(i as int));
                let ghost before = out@;
                if is_lora_type_exec(&ns[i]) {
                    match node_id_exec(&ns[i]) {
                        Some(id) => {
                            out.push(id);
                            assert(texts(out@) =~= texts(before).push(
                                node_id_text(m[i as int]).unwrap(),
                            ));
                        },
                        None => {},
                    }
                }
            }
            assert(m.take(n as int) =~= m);
            out
        },
        _ => {
            let ghost m = entry_models(es@);
            proof {
                lemma_entry_models_len(es@);
            }
            let n = es.len();
            for i in 0..n
                invariant
                    n == es.len(),
                    m == entry_models(es@),
                    m.len() == n,
                    texts(out@) == api_lora_ids(m.take(i as int)),
            {
                proof {
                    lemma_entry_models_index(es@, i as int);
                }
                assert(m.take(i + 1).drop_last() =~= m.take(i as int));
                let ghost before = out@;
                if is_lora_type_exec(&es[i].1) {
                    out.push(es[i].0.clone());
                    assert(texts(out@) =~= texts(before).push(m[i as int].0));
                }
            }
            assert(m.take(n as int) =~= m);
            out
        },
    }
}

fn reference_id_exec(v: &Json) -> (r: Option<String>)
    ensures
        match r {
            Some(t) => reference_id_spec(v.model()) == Some(t@),
            None => reference_id_spec(v.model()).is_none(),
        },
{
    match v {
        Json::Array(a) => {
            proof {
                lemma_models_len(a@);
            }
            if a.len() == 0 {
                return None;
            }
            proof {
                lemma_models_index(a@, 0);
            }
            match &a[0] {
                Json::Str(s) => Some(s.clone()),
                x => match x.as_i64() {
                    Some(n) => Some(i64_text(n)),
                    None => None,
                },
            }
        },
        _ => None,
    }
}

fn model_reference_exec(node: &Json) -> (r: Option<String>)
    ensures
        match r {
            Some(t) => model_reference_spec(node.model()) == Some(t@),
            None => model_reference_spec(node.model()).is_none(),
        },
{
    let ins = match node.get("inputs") {
        Some(Json::Object(ins)) => ins,
        _ => {
            return None;
        },
    };
    let ghost m = entry_models(ins@);
    proof {
        lemma_entry_models_len(ins@);
    }
    assert(m.skip(0) =~= m);
    let n = ins.len();
    for i in 0..n
        invariant
            n == ins.len(),
            m == entry_models(ins@),
            m.len() == n,
            model_reference_spec(node.model()) == first_model_ref(m),
            first_model_ref(m) == first_model_ref(m.skip(i as int)),
    {
        proof {
            lemma_entry_models_index(ins@, i as int);
        }
        assert(m.skip(i as int)[0] == m[i as int]);
        assert(m.skip(i as int).drop_first() =~= m.skip(i + 1));
        if super::graph::is_model_input_name_exec(ins[i].0.as_str()) {
            match reference_id_exec(&ins[i].1) {
                Some(t) => {
                    return Some(t);
                },
                None => {},
            }
        }
    }
    assert(m.skip(n as int).len() == 0);
    None
}

fn set_model_ref_exec(node: &Json, id: &str) -> (r: Option<Json>)
    ensures
        json_opt(r) == set_model_ref_spec(node.model(), id@),
{
    let es = match node {
        Json::Object(es) => es,
        _ => {
            return None;
        },
    };
    let ins = match crate::json::entries_find(es, "inputs") {
        Some(Json::Object(ins)) => ins,
        _ => {
            return None;
        },
    };
    let ghost m = entry_models(ins@);
    proof {
        lemma_entry_models_len(ins@);
    }
    assert(m.skip(0) =~= m);
    let n = ins.len();
    for i in 0..n
        invariant
            n == ins.len(),
            m == entry_models(ins@),
            m.len() == n,
            first_model_slot(m) == match first_model_slot(m.skip(i as int)) {
                Some(k) => Some(k + i),
                None => None,
            },
            node.model() == JsonModel::Object(entry_models(es@)),
            oobj(entries_get(entry_models(es@), "inputs"@)) == Some(m),
    {
        proof {
            lemma_entry_models_index(ins@, i as int);
        }
        assert(m.skip(i as int)[0] == m[i as int]);
        assert(m.skip(i as int).drop_first() =~= m.skip(i + 1));
        if super::graph::is_model_input_name_exec(ins[i].0.as_str()) && ins[i].1.is_array() {
            let first = Json::Str(String::from_str(id));
            let zero = Json::Number(String::from_str("0"));
            let parts = vec![first, zero];
            proof {
                lemma_models_len(parts@);
                lemma_models_index(parts@, 0);
                lemma_models_index(parts@, 1);
            }
            assert(models(parts@) =~= seq![JsonModel::Str(id@), JsonModel::Number("0"@)]);
            let reference = Json::Array(parts);
            let ni = entries_with(ins, i, reference);
            let mut out = super::clone_entries(es);
            entries_replace(&mut out, "inputs", Json::Object(ni));
            return Some(Json::Object(out));
        }
    }
    assert(m.skip(n as int).len() == 0);
    None
}

/// The first model reference, among the nodes of `ids` in order, that is not one of
/// `current`: the node that feeds the LoRA chain.
pub open spec fn first_outside(v: JsonModel, ids: Seq<Seq<char>>, current: Seq<Seq<char>>) -> Option<
    Seq<char>,
>
    decreases ids.len(),
{
    if ids.len() == 0 {
        None
    } else {
        let here = match node_of(v, ids[0]) {
            Some(n) => match model_reference_spec(n) {
                Some(r) => if !current.contains(r) {
                    Some(r)
                } else {
                    None
                },
                None => None,
            },
            None => None,
        };
        if here.is_some() {
            here
        } else {
            first_outside(v, ids.drop_first(), current)
        }
    }
}

/// Points the model input of each node of `ordered`, from position `i` on, at the node
/// before it, the first at `head`. Stops with `false` at a node it cannot find.
pub open spec fn relink(v: JsonModel, ordered: Seq<Seq<char>>, head: Seq<char>, i: int) -> (
    bool,
    JsonModel,
)
    decreases ordered.len() - i,
{
    if i < 0 || i >= ordered.len() {
        (true, v)
    } else {
        let pred = if i == 0 {
            head
        } else {
            ordered[i - 1]
        };
        match find_path(v, ordered[i]) {
            Some(p) => match at_path(v, p) {
                Some(node) => relink(
                    match set_model_ref_spec(node, pred) {
                        Some(nn) => put_path(v, p, nn),
                        None => v,
                    },
                    ordered,
                    head,
                    i + 1,
                ),
                None => (false, v),
            },
            None => (false, v),
        }
    }
}

/// Every id names a LoRA loader of the document.
pub open spec fn all_lora_nodes(v: JsonModel, ids: Seq<Seq<char>>) -> bool {
    forall|k: int|
        0 <= k < ids.len() ==> match #[trigger] node_of(v, ids[k]) {
            Some(n) => is_lora_type(n),
            None => false,
        }
}

/// Reordering the LoRA chain: `ordered` must hold the LoRA ids of the document, as many
/// as there are; the chain then runs from the node that fed it through `ordered` in turn.
/// The flag says whether it was done; a document that is refused is unchanged.
pub open spec fn reorder_spec(v: JsonModel, ordered: Seq<Seq<char>>) -> (bool, JsonModel) {
    let current = lora_node_ids(v);
    if ordered.len() != current.len() || exists|i: int|
        0 <= i < ordered.len() && !current.contains(#[trigger] ordered[i]) {
        (false, v)
    } else {
        match first_outside(v, current, current) {
            None => (false, v),
            Some(head) => if all_lora_nodes(v, current) {
                relink(v, ordered, head, 0)
            } else {
                (false, v)
            },
        }
    }
}

fn node_of_exec<'a>(value: &'a Json, id: &str) -> (r: Option<&'a Json>)
    ensures
        crate::json::opt_model(r) == node_of(value.model(), id@),
{
    match find_node_path(value, id) {
        Some(p) => {
            assert(ints(p@).skip(0) =~= ints(p@));
            node_at(value, &p, 0)
        },
        None => None,
    }
}

fn first_outside_exec(value: &Json, ids: &Vec<String>, current: &Vec<String>) -> (r: Option<String>)
    ensures
        match r {
            Some(h) => first_outside(value.model(), texts(ids@), texts(current@)) == Some(h@),
            None => first_outside(value.model(), texts(ids@), texts(current@)).is_none(),
        },
{
    let ghost m = texts(ids@);
    let ghost cur = texts(current@);
    assert(m.skip(0) =~= m);
    let n = ids.len();
    for i in 0..n
        invariant
            n == ids.len(),
            m == texts(ids@),
            cur == texts(current@),
            first_outside(value.model(), m, cur) == first_outside(value.model(), m.skip(i as int), cur),
    {
        assert(m.skip(i as int)[0] == m[i as int]);
        assert(m.skip(i as int).drop_first() =~= m.skip(i + 1));
        match node_of_exec(value, ids[i].as_str()) {
            Some(node) => match model_reference_exec(node) {
                Some(r) => {
                    if !super::graph::texts_contain(current, r.as_str()) {
                        return Some(r);
                    }
                },
                None => {},
            },
            None => {},
        }
    }
    assert(m.skip(n as int).len() == 0);
    None
}

fn all_lora_exec(value: &Json, ids: &Vec<String>) -> (r: bool)
    ensures
        r == all_lora_nodes(value.model(), texts(ids@)),
{
    let ghost m = texts(ids@);
    let n = ids.len();
    for i in 0..n
        invariant
            n == ids.len(),
            m == texts(ids@),
            forall|k: int| 0 <= k < i ==> match #[trigger] node_of(value.model(), m[k]) {
                Some(n) => is_lora_type(n),
                None => false,
            },
    {
        assert(m[i as int] == ids@[i as int]@);
        match node_of_exec(value, ids[i].as_str()) {
            Some(node) => {
                if !is_lora_type_exec(node) {
                    return false;
                }
            },
            None => {
                return false;
            },
        }
    }
    true
}

fn all_listed(ordered: &Vec<String>, current: &Vec<String>) -> (r: bool)
    ensures
        r == !(exists|i: int|
            0 <= i < ordered.len() && !texts(current@).contains(#[trigger] texts(ordered@)[i])),
{
    let n = ordered.len();
    for i in 0..n
        invariant
            n == ordered.len(),
            forall|k: int| 0 <= k < i ==> texts(current@).contains(#[trigger] texts(ordered@)[k]),
    {
        if !super::graph::texts_contain(current, ordered[i].as_str()) {
            assert(!texts(current@).contains(texts(ordered@)[i as int]));
            return false;
        }
    }
    true
}

fn relink_exec(value: &mut Json, ordered: &Vec<String>, head: &str) -> (r: bool)
    ensures
        (r, final(value).model()) == relink(old(value).model(), texts(ordered@), head@, 0),
{
    let ghost v0 = value.model();
    let ghost ord = texts(ordered@);
    let n = ordered.len();
    let mut i: usize = 0;
    let mut ok = true;
    while ok && i < n
        invariant
            n == ordered.len(),
            ord == texts(ordered@),
            i <= n,
            ok ==> relink(v0, ord, head@, 0) == relink(value.model(), ord, head@, i as int),
            !ok ==> relink(v0, ord, head@, 0) == (false, value.model()),
        decreases n - i, if ok { 1int } else { 0int },
    {
        let pred: &str = if i == 0 {
            head
        } else {
            ordered[i - 1].as_str()
        };
        assert(pred@ == if i == 0 {
            head@
        } else {
            ord[i - 1]
        });
        match find_node_path(value, ordered[i].as_str()) {
            Some(path) => {
                assert(ints(path@).skip(0) =~= ints(path@));
                let replacement = match node_at(value, &path, 0) {
                    Some(node) => Some(set_model_ref_exec(node, pred)),
                    None => None,
                };
                match replacement {
                    Some(Some(nn)) => {
                        let next = with_path(value, &path, 0, nn);
                        *value = next;
                        i = i + 1;
                    },
                    Some(None) => {
                        i = i + 1;
                    },
                    None => {
                        ok = false;
                    },
                }
            },
            None => {
                ok = false;
            },
        }
    }
    ok
}

/// Reorders the LoRA chain (see `reorder_spec`); `true` when it was done.
pub fn reorder_loras(value: &mut Json, ordered_ids: &Vec<String>) -> (r: bool)
    ensures
        (r, final(value).model()) == reorder_spec(old(value).model(), texts(ordered_ids@)),
{
    let current = node_ids(value);
    if ordered_ids.len() != current.len() {
        return false;
    }
    if !all_listed(ordered_ids, &current) {
        return false;
    }
    let head = match first_outside_exec(value, &current, &current) {
        Some(h) => h,
        None => {
            return false;
        },
    };
    if !all_lora_exec(value, &current) {
        return false;
    }
    relink_exec(value, ordered_ids, head.as_str())
}

/// The first LoRA of `ids`, other than `id`, whose model input is fed by `id`.
pub open spec fn successor_of(v: JsonModel, ids: Seq<Seq<char>>, id: Seq<char>) -> Option<Seq<char>>
    decreases ids.len(),
{
    if ids.len() == 0 {
        None
    } else if ids[0] != id && match node_of(v, ids[0]) {
        Some(n) => model_reference_spec(n) == Some(id),
        None => false,
    } {
        Some(ids[0])
    } else {
        successor_of(v, ids.drop_first(), id)
    }
}

/// The ids other than `id`, in order.
pub open spec fn without_id(ids: Seq<Seq<char>>, id: Seq<char>) -> Seq<Seq<char>>
    decreases ids.len(),
{
    if ids.len() == 0 {
        ids
    } else if ids.last() == id {
        without_id(ids.drop_last(), id)
    } else {
        without_id(ids.drop_last(), id).push(ids.last())
    }
}

/// Taking a LoRA out of an API prompt: its member goes, the LoRA it fed takes its model
/// input, and the remaining chain is reordered as it stands. Refused, with nothing
/// changed, when `id` is no LoRA of the prompt.
pub open spec fn remove_api_spec(v: JsonModel, id: Seq<char>) -> (bool, JsonModel) {
    let ids = lora_node_ids(v);
    if !ids.contains(id) {
        (false, v)
    } else {
        let pred = match node_of(v, id) {
            Some(n) => model_reference_spec(n),
            None => None,
        };
        let succ = successor_of(v, ids, id);
        match v {
            JsonModel::Object(es) => {
                let v1 = JsonModel::Object(crate::json::entries_remove(es, id));
                let rest = without_id(ids, id);
                if rest.len() == 0 {
                    (true, v1)
                } else {
                    let v2 = match (pred, succ) {
                        (Some(p), Some(sc)) => match find_path(v1, sc) {
                            Some(path) => match at_path(v1, path) {
                                Some(node) => match set_model_ref_spec(node, p) {
                                    Some(nn) => put_path(v1, path, nn),
                                    None => v1,
                                },
                                None => v1,
                            },
                            None => v1,
                        },
                        _ => v1,
                    };
                    reorder_spec(v2, rest)
                }
            },
            _ => (false, v),
        }
    }
}

/// Taking the LoRA `id` out of a workflow: of a visual graph's chain (see
/// `chain::remove_visual_spec`), or of an API prompt (see `remove_api_spec`).
pub open spec fn remove_lora_spec(v: JsonModel, id: Seq<char>) -> (bool, JsonModel) {
    if jget(v, "nodes"@).is_some() {
        match super::chain::remove_visual_spec(v, id) {
            Some(n) => (true, n),
            None => (false, v),
        }
    } else {
        remove_api_spec(v, id)
    }
}

fn successor_exec(value: &Json, ids: &Vec<String>, id: &str) -> (r: Option<String>)
    ensures
        match r {
            Some(s) => successor_of(value.model(), texts(ids@), id@) == Some(s@),
            None => successor_of(value.model(), texts(ids@), id@).is_none(),
        },
{
    let ghost m = texts(ids@);
    assert(m.skip(0) =~= m);
    let n = ids.len();
    for i in 0..n
        invariant
            n == ids.len(),
            m == texts(ids@),
            successor_of(value.model(), m, id@) == successor_of(value.model(), m.skip(i as int), id@),
    {
        assert(m.skip(i as int)[0] == ids@[i as int]@);
        assert(m.skip(i as int).drop_first() =~= m.skip(i + 1));
        if !text_eq(ids[i].as_str(), id) {
            match node_of_exec(value, ids[i].as_str()) {
                Some(node) => match model_reference_exec(node) {
                    Some(r) => {
                        if text_eq(r.as_str(), id) {
                            return Some(ids[i].clone());
                        }
                    },
                    None => {},
                },
                None => {},
            }
        }
    }
    assert(m.skip(n as int).len() == 0);
    None
}

fn without_id_exec(ids: &Vec<String>, id: &str) -> (r: Vec<String>)
    ensures
        texts(r@) == without_id(texts(ids@), id@),
{
    let ghost m = texts(ids@);
    let mut out: Vec<String> = Vec::new();
    assert(texts(out@) =~= without_id(m.take(0), id@));
    let n = ids.len();
    for i in 0..n
        invariant
            n == ids.len(),
            m == texts(ids@),
            texts(out@) == without_id(m.take(i as int), id@),
    {
        assert(m.take(i + 1).drop_last() =~= m.take(i as int));
        assert(m.take(i + 1).last() == ids@[i as int]@);
        let ghost before = out@;
        if !text_eq(ids[i].as_str(), id) {
            out.push(ids[i].clone());
            assert(texts(out@) =~= texts(before).push(ids@[i as int]@));
        }
    }
    assert(m.take(n as int) =~= m);
    out
}

fn remove_api_lora(value: &mut Json, node_id: &str) -> (r: bool)
    ensures
        (r, final(value).model()) == remove_api_spec(old(value).model(), node_id@),
{
    let ghost v0 = value.model();
    let ids = node_ids(value);
    if !super::graph::texts_contain(&ids, node_id) {
        return false;
    }
    let pred = match node_of_exec(value, node_id) {
        Some(node) => model_reference_exec(node),
        None => None,
    };
    let succ = successor_exec(value, &ids, node_id);
    let es = match &*value {
        Json::Object(es) => es,
        _ => {
            return false;
        },
    };
    let mut rest_entries = super::clone_entries(es);
    crate::json::entries_delete(&mut rest_entries, node_id);
    let v1 = Json::Object(rest_entries);
    let rest = without_id_exec(&ids, node_id);
    if rest.len() == 0 {
        *value = v1;
        return true;
    }
    let v2 = match (pred, succ) {
        (Some(p), Some(sc)) => match find_node_path(&v1, sc.as_str()) {
            Some(path) => {
                assert(ints(path@).skip(0) =~= ints(path@));
                let replacement = match node_at(&v1, &path, 0) {
                    Some(node) => set_model_ref_exec(node, p.as_str()),
                    None => None,
                };
                match replacement {
                    Some(nn) => with_path(&v1, &path, 0, nn),
                    None => v1,
                }
            },
            None => v1,
        },
        _ => v1,
    };
    *value = v2;
    reorder_loras(value, &rest)
}

/// Takes the LoRA `node_id` out of a workflow (see `remove_lora_spec`); `true` when it
/// was taken out.
pub fn remove_lora(value: &mut Json, node_id: &str) -> (r: bool)
    requires
        jget(old(value).model(), "nodes"@).is_some() ==> !super::chain::removal_panics(
            old(value).model(),
            node_id@,
        ),
    ensures
        (r, final(value).model()) == remove_lora_spec(old(value).model(), node_id@),
{
    if value.get("nodes").is_some() {
        match super::chain::remove_visual_lora(value, node_id) {
            Some(n) => {
                *value = n;
                true
            },
            None => false,
        }
    } else {
        remove_api_lora(value, node_id)
    }
}


/// The keys of an object's members, in order.
pub open spec fn member_keys(es: Seq<(Seq<char>, JsonModel)>) -> Seq<Seq<char>> {
    es.map_values(|e: (Seq<char>, JsonModel)| e.0)
}

/// An object whose members include the keys `1` to `n` has at least `n` members.
proof fn lemma_numbered_keys_bound(es: Seq<(Seq<char>, JsonModel)>, n: nat)
    requires
        forall|k: nat| 1 <= k <= n ==> entries_get(es, #[trigger] nat_text(k)).is_some(),
    ensures
        n <= es.len(),
{
    let keys = member_keys(es);
    let ks = keys.to_set();
    keys.lemma_cardinality_of_set();
    let x = set_int_range(1, n as int + 1);
    lemma_int_range(1, n as int + 1);
    let f = |k: int| nat_text(k as nat);
    assert forall|a: int, b: int| x.contains(a) && x.contains(b) && #[trigger] f(a) == #[trigger] f(
        b,
    ) implies a == b by {
        lemma_nat_text_injective(a as nat, b as nat);
    }
    lemma_map_size(x, x.map(f), f);
    assert forall|t: Seq<char>| x.map(f).contains(t) implies ks.contains(t) by {
        let k = choose|k: int| x.contains(k) && f(k) == t;
        assert(entries_get(es, nat_text(k as nat)).is_some());
        crate::json::lemma_entries_index(es, t, JsonModel::Null);
        let i = crate::json::entries_index(es, t).unwrap();
        assert(keys[i] == t);
    }
    lemma_len_subset(x.map(f), ks);
}

/// `n` is the smallest positive number whose text is no key of the object.
pub open spec fn is_fresh_key(es: Seq<(Seq<char>, JsonModel)>, n: nat) -> bool {
    &&& n >= 1
    &&& entries_get(es, nat_text(n)).is_none()
    &&& forall|k: nat| 1 <= k < n ==> entries_get(es, #[trigger] nat_text(k)).is_some()
}

/// The smallest positive number whose text is no key of the object.
pub open spec fn fresh_key(es: Seq<(Seq<char>, JsonModel)>) -> nat {
    choose|n: nat| is_fresh_key(es, n)
}

proof fn lemma_fresh_key(es: Seq<(Seq<char>, JsonModel)>, n: nat)
    requires
        is_fresh_key(es, n),
    ensures
        fresh_key(es) == n,
{
    let m = fresh_key(es);
    assert(is_fresh_key(es, m));
    if m < n {
        assert(entries_get(es, nat_text(m)).is_some());
    } else if n < m {
        assert(entries_get(es, nat_text(n)).is_some());
    }
}

proof fn lemma_fresh_from(es: Seq<(Seq<char>, JsonModel)>, n: nat)
    requires
        1 <= n <= es.len() + 1,
        forall|k: nat| 1 <= k < n ==> entries_get(es, #[trigger] nat_text(k)).is_some(),
    ensures
        is_fresh_key(es, fresh_key(es)),
        fresh_key(es) <= es.len() + 1,
    decreases es.len() + 1 - n,
{
    if entries_get(es, nat_text(n)).is_none() {
        lemma_fresh_key(es, n);
    } else {
        lemma_numbered_keys_bound(es, n);
        lemma_fresh_from(es, n + 1);
    }
}

/// Every object has a number free for a new member: the smallest positive number whose
/// text is no key exists, and it is at most one more than the number of members.
pub proof fn law_fresh_key_exists(es: Seq<(Seq<char>, JsonModel)>)
    ensures
        is_fresh_key(es, fresh_key(es)),
        fresh_key(es) <= es.len() + 1,
{
    lemma_fresh_from(es, 1);
}

/// The text of the smallest positive number that is no key of the object.
fn free_key(es: &Vec<(String, Json)>) -> (r: String)
    ensures
        r@ == nat_text(fresh_key(entry_models(es@))),
{
    let ghost m = entry_models(es@);
    proof {
        lemma_entry_models_len(es@);
    }
    let mut n: u128 = 1;
    loop
        invariant
            1 <= n <= es.len() + 1,
            m == entry_models(es@),
            m.len() == es.len(),
            forall|k: nat| 1 <= k < n ==> entries_get(m, #[trigger] nat_text(k)).is_some(),
        decreases es.len() + 1 - n,
    {
        let t = u128_text(n);
        if !crate::json::entries_contains(es, t.as_str()) {
            proof {
                lemma_fresh_key(m, n as nat);
            }
            return t;
        }
        proof {
            lemma_numbered_keys_bound(m, n as nat);
        }
        n = n + 1;
    }
}

/// `json!(1.0)`.
pub open spec fn unit_strength() -> JsonModel {
    JsonModel::Number("1.0"@)
}

/// A node with its first input named `key` (in any case) given `value`; `None` when it
/// has no input object or no such input.
pub open spec fn set_input_spec(node: JsonModel, key: Seq<char>, value: JsonModel) -> Option<
    JsonModel,
> {
    match node {
        JsonModel::Object(es) => match oobj(entries_get(es, "inputs"@)) {
            Some(ins) => match first_key_match(ins, seq![key], true, Seq::empty()) {
                Some(k) => Some(
                    JsonModel::Object(
                        entries_set(
                            es,
                            "inputs"@,
                            JsonModel::Object(ins.update(k, (ins[k].0, value))),
                        ),
                    ),
                ),
                None => None,
            },
            None => None,
        },
        _ => None,
    }
}

fn set_input_exec(node: &Json, key: &str, value: Json) -> (r: Option<Json>)
    ensures
        json_opt(r) == set_input_spec(node.model(), key@, value.model()),
{
    let es = match node {
        Json::Object(es) => es,
        _ => {
            return None;
        },
    };
    match crate::json::entries_find(es, "inputs") {
        Some(Json::Object(ins)) => {
            let cands = vec![key];
            assert(strs(cands@) =~= seq![key@]);
            let e = String::new();
            assert(e@ =~= Seq::<char>::empty());
            match first_key_match_exec(ins, &cands, true, e.as_str()) {
                Some(k) => {
                    proof {
                        lemma_entry_models_index(ins@, k as int);
                    }
                    let ni = entries_with(ins, k, value);
                    let mut out = super::clone_entries(es);
                    entries_replace(&mut out, "inputs", Json::Object(ni));
                    Some(Json::Object(out))
                },
                None => None,
            }
        },
        _ => None,
    }
}

/// The new LoRA node of an API prompt: the template with its `lora_name` input set to
/// the file name and its `strength_model` input, else its `strength` input, set to 1.0.
/// `None` when it has no `lora_name` input.
pub open spec fn api_lora_node(template: JsonModel, file: Seq<char>) -> Option<JsonModel> {
    match set_input_spec(template, "lora_name"@, JsonModel::Str(file)) {
        Some(n1) => Some(
            match set_input_spec(n1, "strength_model"@, unit_strength()) {
                Some(n2) => n2,
                None => match set_input_spec(n1, "strength"@, unit_strength()) {
                    Some(n2) => n2,
                    None => n1,
                },
            },
        ),
        None => None,
    }
}

/// Adding a LoRA to an API prompt, after the LoRAs `ids`, from the node `template`:
/// the new node takes the smallest positive number that is no member's key, goes in
/// under that key, and the chain is reordered with it last. The id comes back when the
/// reordering was done; the document keeps the new member either way. Nothing changes
/// when the template has no `lora_name` input.
pub open spec fn add_api_spec(
    v: JsonModel,
    ids: Seq<Seq<char>>,
    template: JsonModel,
    file: Seq<char>,
) -> (Option<Seq<char>>, JsonModel) {
    match v {
        JsonModel::Object(es) => {
            let id = nat_text(fresh_key(es));
            match api_lora_node(template, file) {
                Some(node) => {
                    let (done, nv) = reorder_spec(
                        JsonModel::Object(crate::json::entries_insert(es, id, node)),
                        ids.push(id),
                    );
                    (
                        if done {
                            Some(id)
                        } else {
                            None
                        },
                        nv,
                    )
                },
                None => (None, v),
            }
        },
        _ => (None, v),
    }
}

fn api_lora_node_exec(template: &Json, file: &str) -> (r: Option<Json>)
    ensures
        json_opt(r) == api_lora_node(template.model(), file@),
{
    let n1 = match set_input_exec(template, "lora_name", Json::Str(String::from_str(file))) {
        Some(n) => n,
        None => {
            return None;
        },
    };
    match set_input_exec(&n1, "strength_model", Json::Number(String::from_str("1.0"))) {
        Some(n2) => Some(n2),
        None => match set_input_exec(&n1, "strength", Json::Number(String::from_str("1.0"))) {
            Some(n2) => Some(n2),
            None => Some(n1),
        },
    }
}

fn add_api_lora(value: &mut Json, ids: &Vec<String>, template: &Json, file: &str) -> (r: Option<
    String,
>)
    ensures
        (crate::file_system::opt_text(r), final(value).model()) == add_api_spec(
            old(value).model(),
            texts(ids@),
            template.model(),
            file@,
        ),
{
    let es = match &*value {
        Json::Object(es) => es,
        _ => {
            return None;
        },
    };
    let id = free_key(es);
    let node = match api_lora_node_exec(template, file) {
        Some(n) => n,
        None => {
            return None;
        },
    };
    let mut out = super::clone_entries(es);
    crate::json::entries_put(&mut out, id.clone(), node);
    *value = Json::Object(out);
    let mut ordered = super::clone_texts(ids);
    ordered.push(id.clone());
    assert(texts(ordered@) =~= texts(ids@).push(id@));
    if reorder_loras(value, &ordered) {
        Some(id)
    } else {
        None
    }
}

/// Adding a LoRA loader for `filename` (its part after the last `/` or `\`) at the end
/// of a workflow's LoRA chain, made from the last LoRA loader: into the model chain of a
/// visual graph (see `chain::insert_visual_spec`, where `pos` is the new node's position
/// when it gets one), or into an API prompt (see `add_api_spec`). Nothing changes, and no
/// id comes back, when the workflow has no LoRA loader or its node cannot be found.
pub open spec fn add_lora_spec(
    v: JsonModel,
    filename: Seq<char>,
    pos: Option<(Seq<char>, Seq<char>)>,
) -> (Option<Seq<char>>, JsonModel) {
    let ids = lora_node_ids(v);
    if ids.len() == 0 {
        (None, v)
    } else {
        match node_of(v, ids.last()) {
            None => (None, v),
            Some(template) => if jget(v, "nodes"@).is_some() {
                let (r, nv) = super::chain::insert_visual_spec(
                    v,
                    ids.last(),
                    template,
                    basename_seq(filename),
                    pos,
                );
                (
                    match r {
                        Some(n) => Some(int_text(n)),
                        None => None,
                    },
                    nv,
                )
            } else {
                add_api_spec(v, ids, template, basename_seq(filename))
            },
        }
    }
}

/// Whether adding the LoRA would overflow an id or write into an empty link list, which
/// the addition does not allow (see `chain::insertion_panics`).
pub open spec fn add_lora_panics(
    v: JsonModel,
    filename: Seq<char>,
    pos: Option<(Seq<char>, Seq<char>)>,
) -> bool {
    let ids = lora_node_ids(v);
    ids.len() > 0 && jget(v, "nodes"@).is_some() && match node_of(v, ids.last()) {
        Some(template) => super::chain::insertion_panics(
            v,
            ids.last(),
            template,
            basename_seq(filename),
            pos,
        ),
        None => false,
    }
}

/// Adds a LoRA loader for `filename` at the end of the LoRA chain (see `add_lora_spec`)
/// and returns its id. `position`, for a visual graph, is the new node's position (the
/// texts of two numbers): that of the node it follows, moved by 10 on each axis, when
/// that node has one (see `anchor_position`).
pub fn add_lora(value: &mut Json, filename: &str, position: Option<(String, String)>) -> (r: Option<
    String,
>)
    requires
        !add_lora_panics(old(value).model(), filename@, super::chain::pos_model(position)),
    ensures
        (crate::file_system::opt_text(r), final(value).model()) == add_lora_spec(
            old(value).model(),
            filename@,
            super::chain::pos_model(position),
        ),
{
    let ids = node_ids(value);
    if ids.len() == 0 {
        return None;
    }
    let last = ids[ids.len() - 1].clone();
    assert(texts(ids@).last() == last@);
    let template = match node_of_exec(value, last.as_str()) {
        Some(t) => json_duplicate(t),
        None => {
            return None;
        },
    };
    let file = crate::text::basename(filename);
    if value.get("nodes").is_some() {
        let (r, nv) = super::chain::insert_visual_lora(
            value,
            last.as_str(),
            &template,
            file.as_str(),
            &position,
        );
        *value = nv;
        match r {
            Some(n) => Some(i64_text(n)),
            None => None,
        }
    } else {
        add_api_lora(value, &ids, &template, file.as_str())
    }
}

/// The position of the node a new LoRA would follow in a visual graph: the texts of the
/// first two entries of its `pos`, when both are numbers. The node is the one whose id is
/// the number that the last LoRA id reads as.
pub open spec fn anchor_position_spec(v: JsonModel) -> Option<(Seq<char>, Seq<char>)> {
    let ids = lora_node_ids(v);
    if ids.len() == 0 {
        None
    } else {
        match oarr(jget(v, "nodes"@)) {
            Some(ns) => match parse_i64_seq(ids.last()) {
                Some(lid) => match super::chain::first_node_with_id(ns, lid) {
                    Some(k) => match oarr(jget(ns[k], "pos"@)) {
                        Some(p) => if p.len() >= 2 {
                            match (p[0], p[1]) {
                                (JsonModel::Number(x), JsonModel::Number(y)) => Some((x, y)),
                                _ => None,
                            }
                        } else {
                            None
                        },
                        None => None,
                    },
                    None => None,
                },
                None => None,
            },
            None => None,
        }
    }
}

/// The position of the node a new LoRA would follow (see `anchor_position_spec`).
pub fn anchor_position(value: &Json) -> (r: Option<(String, String)>)
    ensures
        super::chain::pos_model(r) == anchor_position_spec(value.model()),
{
    let ids = node_ids(value);
    if ids.len() == 0 {
        return None;
    }
    let last = &ids[ids.len() - 1];
    assert(texts(ids@).last() == last@);
    let ns = match value.get("nodes") {
        Some(Json::Array(ns)) => ns,
        _ => {
            return None;
        },
    };
    let lid = match parse_i64(last.as_str()) {
        Some(x) => x,
        None => {
            return None;
        },
    };
    let k = match super::chain::first_node_with_id_exec(ns, lid) {
        Some(k) => k,
        None => {
            return None;
        },
    };
    proof {
        lemma_models_index(ns@, k as int);
    }
    match ns[k].get("pos") {
        Some(Json::Array(p)) => {
            proof {
                lemma_models_len(p@);
            }
            if p.len() < 2 {
                return None;
            }
            proof {
                lemma_models_index(p@, 0);
                lemma_models_index(p@, 1);
            }
            match (&p[0], &p[1]) {
                (Json::Number(x), Json::Number(y)) => Some((x.clone(), y.clone())),
                _ => None,
            }
        },
        _ => None,
    }
}

/// The document after one metadata update (see `update_spec`): unchanged when nothing
/// took the value.
pub open spec fn updated_or_same(
    v: JsonModel,
    field: Seq<char>,
    new_value: Seq<char>,
    number: Option<Seq<char>>,
) -> JsonModel {
    match update_spec(v, field, new_value, number) {
        Some(n) => n,
        None => v,
    }
}

/// A field edit: the field, its new text, and that text's JSON number when it reads as one.
pub open spec fn edit_model(e: (String, String, Option<String>)) -> (
    Seq<char>,
    Seq<char>,
    Option<Seq<char>>,
) {
    (
        e.0@,
        e.1@,
        match e.2 {
            Some(t) => Some(t@),
            None => None,
        },
    )
}

/// The document after the edits, applied in order.
pub open spec fn apply_edits_spec(
    v: JsonModel,
    edits: Seq<(Seq<char>, Seq<char>, Option<Seq<char>>)>,
) -> JsonModel
    decreases edits.len(),
{
    if edits.len() == 0 {
        v
    } else {
        let e = edits.last();
        updated_or_same(apply_edits_spec(v, edits.drop_last()), e.0, e.1, e.2)
    }
}

/// Writes the track parameters edited in the workflow pane into the workflow, one field
/// after the other (see `apply_edits_spec`).
pub fn apply_workflow_edits(value: &mut Json, edits: &Vec<(String, String, Option<String>)>)
    ensures
        final(value).model() == apply_edits_spec(
            old(value).model(),
            edits@.map_values(|e: (String, String, Option<String>)| edit_model(e)),
        ),
{
    let ghost v0 = value.model();
    let ghost es = edits@.map_values(|e: (String, String, Option<String>)| edit_model(e));
    let n = edits.len();
    assert(es.take(0) =~= Seq::<(Seq<char>, Seq<char>, Option<Seq<char>>)>::empty());
    for i in 0..n
        invariant
            n == edits.len(),
            es == edits@.map_values(|e: (String, String, Option<String>)| edit_model(e)),
            value.model() == apply_edits_spec(v0, es.take(i as int)),
    {
        assert(es.take(i + 1).drop_last() =~= es.take(i as int));
        assert(es.take(i + 1).last() == edit_model(edits@[i as int]));
        let e = &edits[i];
        let number = match &e.2 {
            Some(t) => Some(t.as_str()),
            None => None,
        };
        update_metadata(value, e.0.as_str(), e.1.as_str(), number);
    }
    assert(es.take(n as int) =~= es);
}

/// Whether adding the LoRA would overflow an id or write into an empty link list (see
/// `add_lora_panics`).
pub fn add_lora_would_panic(value: &Json, filename: &str, position: &Option<(String, String)>) -> (r:
    bool)
    ensures
        r == add_lora_panics(value.model(), filename@, super::chain::pos_model(*position)),
{
    let ids = node_ids(value);
    if ids.len() == 0 {
        return false;
    }
    if value.get("nodes").is_none() {
        return false;
    }
    let last = &ids[ids.len() - 1];
    assert(texts(ids@).last() == last@);
    match node_of_exec(value, last.as_str()) {
        Some(template) => {
            let file = crate::text::basename(filename);
            super::chain::insertion_would_panic(value, last.as_str(), template, file.as_str(), position)
        },
        None => false,
    }
}

/// Whether taking the LoRA out of a visual graph would write past the end of a link (see
/// `remove_lora`).
pub fn remove_lora_would_panic(value: &Json, node_id: &str) -> (r: bool)
    ensures
        r == (jget(value.model(), "nodes"@).is_some() && super::chain::removal_panics(
            value.model(),
            node_id@,
        )),
{
    value.get("nodes").is_some() && super::chain::removal_would_panic(value, node_id)
}

/// Whether a value is an object, an array or neither.
pub open spec fn kind_of(v: JsonModel) -> int {
    match v {
        JsonModel::Object(_) => 0,
        JsonModel::Array(_) => 1,
        _ => 2,
    }
}

/// Two nodes that a search by id cannot tell apart: the second is an object, and both have
/// the same id and both have or lack a `class_type`.
pub open spec fn same_identity(a: JsonModel, b: JsonModel) -> bool {
    &&& b is Object
    &&& node_id_text(a) == node_id_text(b)
    &&& jget(a, "class_type"@).is_some() == jget(b, "class_type"@).is_some()
}

proof fn lemma_at_put(v: JsonModel, p: Seq<int>, n: JsonModel)
    requires
        at_path(v, p).is_some(),
    ensures
        at_path(put_path(v, p, n), p) == Some(n),
        p.len() > 0 ==> kind_of(put_path(v, p, n)) == kind_of(v),
    decreases p.len(),
{
    if p.len() > 0 {
        match v {
            JsonModel::Object(es) => {
                lemma_at_put(es[p[0]].1, p.drop_first(), n);
            },
            JsonModel::Array(items) => {
                lemma_at_put(items[p[0]], p.drop_first(), n);
            },
            _ => {},
        }
    }
}

/// Replacing a member's value, the key kept, changes no key's place and only the value
/// of the key whose first member it is.
proof fn lemma_same_keys(es: Seq<(Seq<char>, JsonModel)>, i: int, x: JsonModel, key: Seq<char>)
    requires
        0 <= i < es.len(),
    ensures
        crate::json::entries_index(es.update(i, (es[i].0, x)), key) == crate::json::entries_index(
            es,
            key,
        ),
        entries_get(es.update(i, (es[i].0, x)), key) == if crate::json::entries_index(es, key) == Some(i) {
            Some(x)
        } else {
            entries_get(es, key)
        },
    decreases es.len(),
{
    let t = es.update(i, (es[i].0, x));
    let goal = if crate::json::entries_index(es, key) == Some(i) {
        Some(x)
    } else {
        entries_get(es, key)
    };
    assert(t.len() == es.len());
    assert(t[0].0 == es[0].0);
    if es[0].0 == key {
        assert(crate::json::entries_index(es, key) == Some(0int));
        assert(crate::json::entries_index(t, key) == Some(0int));
        assert(entries_get(t, key) == Some(t[0].1));
        assert(entries_get(es, key) == Some(es[0].1));
        if i == 0 {
            assert(t[0].1 == x);
            assert(entries_get(t, key) == goal);
        } else {
            assert(t[0] == es[0]);
            assert(entries_get(t, key) == goal);
        }
    } else {
        assert(entries_get(t, key) == entries_get(t.drop_first(), key));
        assert(entries_get(es, key) == entries_get(es.drop_first(), key));
        if i == 0 {
            assert(t.drop_first() =~= es.drop_first());
            crate::json::lemma_entries_index(es.drop_first(), key, x);
            match crate::json::entries_index(es.drop_first(), key) {
                Some(k) => {
                    assert(crate::json::entries_index(es, key) == Some(k + 1));
                    assert(crate::json::entries_index(t, key) == Some(k + 1));
                },
                None => {
                    assert(crate::json::entries_index(es, key).is_none());
                    assert(crate::json::entries_index(t, key).is_none());
                },
            }
            assert(entries_get(t, key) == goal);
        } else {
            assert(t.drop_first() =~= es.drop_first().update(i - 1, (es[i].0, x)));
            assert(es.drop_first()[i - 1] == es[i]);
            lemma_same_keys(es.drop_first(), i - 1, x, key);
            match crate::json::entries_index(es.drop_first(), key) {
                Some(k) => {
                    assert(crate::json::entries_index(es, key) == Some(k + 1));
                    assert(crate::json::entries_index(t, key) == Some(k + 1));
                    if k + 1 == i {
                        assert(entries_get(t.drop_first(), key) == Some(x));
                    } else {
                        assert(entries_get(t.drop_first(), key) == entries_get(es.drop_first(), key));
                    }
                },
                None => {
                    assert(crate::json::entries_index(es, key).is_none());
                    assert(crate::json::entries_index(t, key).is_none());
                    assert(entries_get(t.drop_first(), key) == entries_get(es.drop_first(), key));
                },
            }
            assert(entries_get(t, key) == goal);
        }
    }
}

proof fn lemma_members_found(es: Seq<(Seq<char>, JsonModel)>, id: Seq<char>, at: int)
    ensures
        match find_in_members(es, id, at) {
            Some(q) => exists|i: int|
                0 <= i < es.len() && q.len() > 0 && q[0] == at + i && #[trigger] find_path(es[i].1, id)
                    == Some(q.drop_first()) && forall|j: int|
                    0 <= j < i ==> find_path(#[trigger] es[j].1, id).is_none(),
            None => true,
        },
    decreases es.len(),
{
    if es.len() > 0 {
        match find_path(es[0].1, id) {
            Some(p) => {
                let q = seq![at] + p;
                assert(q.drop_first() =~= p);
                assert(find_path(es[0].1, id) == Some(q.drop_first()));
            },
            None => {
                lemma_members_found(es.drop_first(), id, at + 1);
                match find_in_members(es.drop_first(), id, at + 1) {
                    Some(q) => {
                        let i = choose|i: int|
                            0 <= i < es.drop_first().len() && q.len() > 0 && q[0] == at + 1 + i
                                && #[trigger] find_path(es.drop_first()[i].1, id) == Some(
                                q.drop_first(),
                            ) && forall|j: int|
                                0 <= j < i ==> find_path(#[trigger] es.drop_first()[j].1, id).is_none();
                        assert(es.drop_first()[i] == es[i + 1]);
                        assert forall|j: int| 0 <= j < i + 1 implies find_path(
                            #[trigger] es[j].1,
                            id,
                        ).is_none() by {
                            if j > 0 {
                                assert(es.drop_first()[j - 1] == es[j]);
                            }
                        }
                        assert(find_path(es[i + 1].1, id) == Some(q.drop_first()));
                    },
                    None => {},
                }
            },
        }
    }
}

proof fn lemma_members_found_at(es: Seq<(Seq<char>, JsonModel)>, id: Seq<char>, at: int, i: int, p: Seq<int>)
    requires
        0 <= i < es.len(),
        find_path(es[i].1, id) == Some(p),
        forall|j: int| 0 <= j < i ==> find_path(#[trigger] es[j].1, id).is_none(),
    ensures
        find_in_members(es, id, at) == Some(seq![at + i] + p),
    decreases es.len(),
{
    if i > 0 {
        assert forall|j: int| 0 <= j < i - 1 implies find_path(
            #[trigger] es.drop_first()[j].1,
            id,
        ).is_none() by {
            assert(es.drop_first()[j] == es[j + 1]);
        }
        assert(es.drop_first()[i - 1] == es[i]);
        assert(find_path(es[0].1, id).is_none());
        lemma_members_found_at(es.drop_first(), id, at + 1, i - 1, p);
    }
}

proof fn lemma_items_found(items: Seq<JsonModel>, id: Seq<char>, at: int)
    ensures
        match find_in_items(items, id, at) {
            Some(q) => exists|i: int|
                0 <= i < items.len() && q.len() > 0 && q[0] == at + i && #[trigger] find_path(
                    items[i],
                    id,
                ) == Some(q.drop_first()) && forall|j: int|
                    0 <= j < i ==> find_path(#[trigger] items[j], id).is_none(),
            None => true,
        },
    decreases items.len(),
{
    if items.len() > 0 {
        match find_path(items[0], id) {
            Some(p) => {
                let q = seq![at] + p;
                assert(q.drop_first() =~= p);
                assert(find_path(items[0], id) == Some(q.drop_first()));
            },
            None => {
                lemma_items_found(items.drop_first(), id, at + 1);
                match find_in_items(items.drop_first(), id, at + 1) {
                    Some(q) => {
                        let i = choose|i: int|
                            0 <= i < items.drop_first().len() && q.len() > 0 && q[0] == at + 1 + i
                                && #[trigger] find_path(items.drop_first()[i], id) == Some(
                                q.drop_first(),
                            ) && forall|j: int|
                                0 <= j < i ==> find_path(#[trigger] items.drop_first()[j], id).is_none();
                        assert(items.drop_first()[i] == items[i + 1]);
                        assert forall|j: int| 0 <= j < i + 1 implies find_path(
                            #[trigger] items[j],
                            id,
                        ).is_none() by {
                            if j > 0 {
                                assert(items.drop_first()[j - 1] == items[j]);
                            }
                        }
                        assert(find_path(items[i + 1], id) == Some(q.drop_first()));
                    },
                    None => {},
                }
            },
        }
    }
}

proof fn lemma_items_found_at(items: Seq<JsonModel>, id: Seq<char>, at: int, i: int, p: Seq<int>)
    requires
        0 <= i < items.len(),
        find_path(items[i], id) == Some(p),
        forall|j: int| 0 <= j < i ==> find_path(#[trigger] items[j], id).is_none(),
    ensures
        find_in_items(items, id, at) == Some(seq![at + i] + p),
    decreases items.len(),
{
    if i > 0 {
        assert forall|j: int| 0 <= j < i - 1 implies find_path(
            #[trigger] items.drop_first()[j],
            id,
        ).is_none() by {
            assert(items.drop_first()[j] == items[j + 1]);
        }
        assert(items.drop_first()[i - 1] == items[i]);
        assert(find_path(items[0], id).is_none());
        lemma_items_found_at(items.drop_first(), id, at + 1, i - 1, p);
    }
}

/// A value that is an object or an array has no id and no text.
proof fn lemma_container_has_no_id(v: JsonModel)
    requires
        kind_of(v) < 2,
    ensures
        crate::json::ji64(v).is_none(),
        jstr(v).is_none(),
{
}

/// The search finds a value itself only when the value has the id.
proof fn lemma_find_empty(v: JsonModel, id: Seq<char>)
    requires
        find_path(v, id) == Some(Seq::<int>::empty()),
    ensures
        node_id_text(v) == Some(id),
{
    if node_id_text(v) != Some(id) {
        match v {
            JsonModel::Object(es) => {
                lemma_members_found(es, id, 0);
                match find_in_members(es, id, 0) {
                    Some(q) => {
                        assert(q.len() > 0);
                        assert(q != Seq::<int>::empty());
                    },
                    None => {},
                }
                match crate::json::entries_index(es, id) {
                    Some(k) => {
                        assert(seq![k] != Seq::<int>::empty()) by {
                            assert(seq![k].len() == 1);
                        }
                    },
                    None => {},
                }
            },
            JsonModel::Array(items) => {
                lemma_items_found(items, id, 0);
                match find_in_items(items, id, 0) {
                    Some(q) => {
                        assert(q.len() > 0);
                        assert(q != Seq::<int>::empty());
                    },
                    None => {},
                }
            },
            _ => {},
        }
    }
}

/// Replacing the node that a search by id finds, by a node it cannot tell apart, leaves
/// the search finding the same place.
proof fn lemma_find_put(v: JsonModel, id: Seq<char>, p: Seq<int>, n: JsonModel)
    requires
        find_path(v, id) == Some(p),
        match at_path(v, p) {
            Some(old) => same_identity(old, n),
            None => false,
        },
    ensures
        find_path(put_path(v, p, n), id) == Some(p),
    decreases p.len(),
{
    if node_id_text(v) == Some(id) {
        assert(p.len() == 0);
        return;
    }
    match v {
        JsonModel::Object(es) => {
            assert(entries_get(es, "class_type"@).is_none());
            crate::json::lemma_entries_index(es, "class_type"@, JsonModel::Null);
            let direct = match crate::json::entries_index(es, id) {
                Some(k) => 0 <= k < es.len() && es[k].1 is Object,
                None => false,
            };
            crate::json::lemma_entries_index(es, id, JsonModel::Null);
            if direct {
                let k = crate::json::entries_index(es, id).unwrap();
                assert(p =~= seq![k]);
                assert(at_path(es[k].1, p.drop_first()) == Some(es[k].1));
                let es2 = es.update(k, (es[k].0, n));
                assert(put_path(v, p, n) == JsonModel::Object(es2)) by {
                    assert(put_path(es[k].1, p.drop_first(), n) == n);
                }
                lemma_same_keys(es, k, n, id);
                lemma_same_keys(es, k, n, "class_type"@);
                lemma_same_keys(es, k, n, "id"@);
                if crate::json::entries_index(es, "id"@) == Some(k) {
                    lemma_container_has_no_id(n);
                }
                assert(node_id_text(JsonModel::Object(es2)) != Some(id));
                assert(entries_get(es2, "class_type"@).is_none());
            } else {
                lemma_members_found(es, id, 0);
                let q = p;
                let i = choose|i: int|
                    0 <= i < es.len() && q.len() > 0 && q[0] == 0 + i && #[trigger] find_path(
                        es[i].1,
                        id,
                    ) == Some(q.drop_first()) && forall|j: int|
                        0 <= j < i ==> find_path(#[trigger] es[j].1, id).is_none();
                let rest = p.drop_first();
                assert(at_path(v, p) == at_path(es[i].1, rest));
                lemma_find_put(es[i].1, id, rest, n);
                lemma_at_put(es[i].1, rest, n);
                let sub = put_path(es[i].1, rest, n);
                let es2 = es.update(i, (es[i].0, sub));
                assert(put_path(v, p, n) == JsonModel::Object(es2));
                lemma_same_keys(es, i, sub, id);
                lemma_same_keys(es, i, sub, "class_type"@);
                lemma_same_keys(es, i, sub, "id"@);
                if rest.len() == 0 {
                    assert(sub == n);
                    assert(kind_of(sub) == 0);
                } else {
                    assert(kind_of(sub) == kind_of(es[i].1));
                    if kind_of(es[i].1) == 2 {
                        assert(node_id_text(es[i].1).is_none());
                        assert(find_path(es[i].1, id).is_none());
                    }
                }
                assert(kind_of(sub) < 2);
                if crate::json::entries_index(es, "id"@) == Some(i) {
                    lemma_container_has_no_id(sub);
                }
                assert(node_id_text(JsonModel::Object(es2)) != Some(id));
                assert(entries_get(es2, "class_type"@).is_none());
                match crate::json::entries_index(es, id) {
                    Some(k) => {
                        if k == i {
                            assert(!(es[i].1 is Object));
                            assert(rest.len() > 0) by {
                                if rest.len() == 0 {
                                    assert(rest =~= Seq::<int>::empty());
                                    lemma_find_empty(es[i].1, id);
                                }
                            }
                            assert(!(sub is Object));
                        } else {
                            assert(es2[k] == es[k]);
                        }
                    },
                    None => {},
                }
                assert forall|j: int| 0 <= j < i implies find_path(#[trigger] es2[j].1, id).is_none() by {
                    assert(es2[j] == es[j]);
                }
                lemma_members_found_at(es2, id, 0, i, rest);
                assert(seq![0 + i] + rest =~= p);
            }
        },
        JsonModel::Array(items) => {
            lemma_items_found(items, id, 0);
            let q = p;
            let i = choose|i: int|
                0 <= i < items.len() && q.len() > 0 && q[0] == 0 + i && #[trigger] find_path(
                    items[i],
                    id,
                ) == Some(q.drop_first()) && forall|j: int|
                    0 <= j < i ==> find_path(#[trigger] items[j], id).is_none();
            let rest = p.drop_first();
            assert(at_path(v, p) == at_path(items[i], rest));
            lemma_find_put(items[i], id, rest, n);
            let sub = put_path(items[i], rest, n);
            let items2 = items.update(i, sub);
            assert(put_path(v, p, n) == JsonModel::Array(items2));
            assert(node_id_text(JsonModel::Array(items2)).is_none());
            assert forall|j: int| 0 <= j < i implies find_path(#[trigger] items2[j], id).is_none() by {
                assert(items2[j] == items[j]);
            }
            lemma_items_found_at(items2, id, 0, i, rest);
            assert(seq![0 + i] + rest =~= p);
        },
        _ => {},
    }
}

/// Which member `first_key_match` picks depends on the keys alone.
proof fn lemma_key_match_same_keys(
    ins: Seq<(Seq<char>, JsonModel)>,
    k: int,
    x: JsonModel,
    cands: Seq<Seq<char>>,
    any: bool,
    req: Seq<char>,
)
    requires
        0 <= k < ins.len(),
    ensures
        first_key_match(ins.update(k, (ins[k].0, x)), cands, any, req) == first_key_match(
            ins,
            cands,
            any,
            req,
        ),
    decreases ins.len(),
{
    let t = ins.update(k, (ins[k].0, x));
    assert(t[0].0 == ins[0].0);
    if k > 0 {
        assert(t.drop_first() =~= ins.drop_first().update(k - 1, (ins[k].0, x)));
        assert(ins.drop_first()[k - 1] == ins[k]);
        lemma_key_match_same_keys(ins.drop_first(), k - 1, x, cands, any, req);
    } else {
        assert(t.drop_first() =~= ins.drop_first());
    }
}

/// The value a LoRA node holds where an edit writes: its widget value `w` when it has a
/// widget list, else its first input named by a candidate.
pub open spec fn lora_value(node: JsonModel, w: int, cands: Seq<Seq<char>>) -> Option<JsonModel> {
    match node {
        JsonModel::Object(es) => match entries_get(es, "widgets_values"@) {
            Some(JsonModel::Array(wv)) => if 0 <= w < wv.len() {
                Some(wv[w])
            } else {
                None
            },
            _ => match oobj(entries_get(es, "inputs"@)) {
                Some(ins) => match first_key_match(ins, cands, true, Seq::empty()) {
                    Some(k) => Some(ins[k].1),
                    None => None,
                },
                None => None,
            },
        },
        _ => None,
    }
}

/// Editing a LoRA node gives a node that the search by id cannot tell from it, and
/// editing that node again with the same value changes nothing.
proof fn lemma_edit_again(node: JsonModel, w: int, cands: Seq<Seq<char>>, rep: JsonModel)
    requires
        lora_node_edit(node, w, cands, rep).is_some(),
    ensures
        same_identity(node, lora_node_edit(node, w, cands, rep).unwrap()),
        lora_value(lora_node_edit(node, w, cands, rep).unwrap(), w, cands) == Some(rep),
        lora_node_edit(lora_node_edit(node, w, cands, rep).unwrap(), w, cands, rep).is_none(),
{
    let es = node->Object_0;
    let edited = lora_node_edit(node, w, cands, rep).unwrap();
    match entries_get(es, "widgets_values"@) {
        Some(JsonModel::Array(wv)) => {
            let wv2 = wv.update(w, rep);
            let es2 = entries_set(es, "widgets_values"@, JsonModel::Array(wv2));
            assert(edited == JsonModel::Object(es2));
            crate::json::lemma_get_after_set(es, "widgets_values"@, JsonModel::Array(wv2), "widgets_values"@);
            crate::json::lemma_get_after_set(es, "widgets_values"@, JsonModel::Array(wv2), "id"@);
            crate::json::lemma_get_after_set(es, "widgets_values"@, JsonModel::Array(wv2), "class_type"@);
            assert(wv2[w] == rep);
        },
        _ => {
            let ins = oobj(entries_get(es, "inputs"@)).unwrap();
            let k = first_key_match(ins, cands, true, Seq::empty()).unwrap();
            let ins2 = ins.update(k, (ins[k].0, rep));
            let es2 = entries_set(es, "inputs"@, JsonModel::Object(ins2));
            assert(edited == JsonModel::Object(es2));
            lemma_first_key_match_range(ins, cands, true, Seq::empty());
            crate::json::lemma_get_after_set(es, "inputs"@, JsonModel::Object(ins2), "inputs"@);
            crate::json::lemma_get_after_set(es, "inputs"@, JsonModel::Object(ins2), "widgets_values"@);
            crate::json::lemma_get_after_set(es, "inputs"@, JsonModel::Object(ins2), "id"@);
            crate::json::lemma_get_after_set(es, "inputs"@, JsonModel::Object(ins2), "class_type"@);
            lemma_key_match_same_keys(ins, k, rep, cands, true, Seq::empty());
            assert(ins2[k].1 == rep);
        },
    }
}

/// The place `first_key_match` gives is a member of the object.
proof fn lemma_first_key_match_range(
    es: Seq<(Seq<char>, JsonModel)>,
    cands: Seq<Seq<char>>,
    any: bool,
    req: Seq<char>,
)
    ensures
        match first_key_match(es, cands, any, req) {
            Some(k) => 0 <= k < es.len(),
            None => true,
        },
    decreases es.len(),
{
    if es.len() > 0 {
        lemma_first_key_match_range(es.drop_first(), cands, any, req);
    }
}

/// Setting a LoRA's file or strength to what it was just set to changes nothing: so
/// setting it twice is setting it once.
pub proof fn law_lora_edit_is_idempotent(
    v: JsonModel,
    id: Seq<char>,
    w: int,
    cands: Seq<Seq<char>>,
    rep: JsonModel,
)
    requires
        node_edit_spec(v, id, w, cands, rep).is_some(),
    ensures
        node_edit_spec(node_edit_spec(v, id, w, cands, rep).unwrap(), id, w, cands, rep).is_none(),
{
    let p = find_path(v, id).unwrap();
    let node = at_path(v, p).unwrap();
    let edited = lora_node_edit(node, w, cands, rep).unwrap();
    lemma_edit_again(node, w, cands, rep);
    lemma_find_put(v, id, p, edited);
    lemma_at_put(v, p, edited);
}

/// After a LoRA's file or strength is set, the node found under its id holds the value
/// that was written.
pub proof fn law_lora_edit_reads_back(
    v: JsonModel,
    id: Seq<char>,
    w: int,
    cands: Seq<Seq<char>>,
    rep: JsonModel,
)
    requires
        node_edit_spec(v, id, w, cands, rep).is_some(),
    ensures
        node_of(node_edit_spec(v, id, w, cands, rep).unwrap(), id).is_some(),
        lora_value(node_of(node_edit_spec(v, id, w, cands, rep).unwrap(), id).unwrap(), w, cands)
            == Some(rep),
{
    let p = find_path(v, id).unwrap();
    let node = at_path(v, p).unwrap();
    let edited = lora_node_edit(node, w, cands, rep).unwrap();
    lemma_edit_again(node, w, cands, rep);
    lemma_find_put(v, id, p, edited);
    lemma_at_put(v, p, edited);
}


/// `n` is `v` with the value at path `p` replaced by what writing `new_value` makes of
/// it, which differs from it (see `replace_spec`): one value changed, and nothing else.
pub open spec fn replaced_at(
    v: JsonModel,
    p: Seq<int>,
    n: JsonModel,
    new_value: Seq<char>,
    number: Option<Seq<char>>,
) -> bool {
    match at_path(v, p) {
        Some(t) => match replace_spec(t, new_value, number) {
            Some(r) => n == put_path(v, p, r),
            None => false,
        },
        None => false,
    }
}

proof fn lemma_entries_set_at(es: Seq<(Seq<char>, JsonModel)>, key: Seq<char>, y: JsonModel) -> (i:
    int)
    requires
        entries_get(es, key) is Some,
    ensures
        0 <= i < es.len(),
        es[i].0 == key,
        entries_get(es, key) == Some(es[i].1),
        entries_set(es, key, y) == es.update(i, (key, y)),
    decreases es.len(),
{
    if es[0].0 == key {
        0
    } else {
        let j = lemma_entries_set_at(es.drop_first(), key, y);
        assert(entries_set(es, key, y) =~= es.update(j + 1, (key, y)));
        j + 1
    }
}

proof fn lemma_put_two(es: Seq<(Seq<char>, JsonModel)>, i: int, k: int, r: JsonModel)
    requires
        0 <= i < es.len(),
    ensures
        es[i].1 matches JsonModel::Object(ins) ==> 0 <= k < ins.len() ==> at_path(
            JsonModel::Object(es),
            seq![i, k],
        ) == Some(ins[k].1) && put_path(JsonModel::Object(es), seq![i, k], r) == JsonModel::Object(
            es.update(i, (es[i].0, JsonModel::Object(ins.update(k, (ins[k].0, r))))),
        ),
        es[i].1 matches JsonModel::Array(items) ==> 0 <= k < items.len() ==> at_path(
            JsonModel::Object(es),
            seq![i, k],
        ) == Some(items[k]) && put_path(JsonModel::Object(es), seq![i, k], r) == JsonModel::Object(
            es.update(i, (es[i].0, JsonModel::Array(items.update(k, r)))),
        ),
{
    let p = seq![i, k];
    let q = seq![k];
    assert(p.drop_first() =~= q);
    assert(q.drop_first() =~= Seq::<int>::empty());
    assert(at_path(JsonModel::Object(es), p) == at_path(es[i].1, q));
    assert(put_path(JsonModel::Object(es), p, r) == JsonModel::Object(
        es.update(i, (es[i].0, put_path(es[i].1, q, r))),
    ));
    match es[i].1 {
        JsonModel::Object(ins) => {
            if 0 <= k < ins.len() {
                assert(at_path(es[i].1, q) == at_path(ins[k].1, Seq::<int>::empty()));
                assert(put_path(es[i].1, q, r) == JsonModel::Object(
                    ins.update(k, (ins[k].0, put_path(ins[k].1, Seq::<int>::empty(), r))),
                ));
            }
        },
        JsonModel::Array(items) => {
            if 0 <= k < items.len() {
                assert(at_path(es[i].1, q) == at_path(items[k], Seq::<int>::empty()));
                assert(put_path(es[i].1, q, r) == JsonModel::Array(
                    items.update(k, put_path(items[k], Seq::<int>::empty(), r)),
                ));
            }
        },
        _ => {},
    }
}

proof fn lemma_replace_input_path(
    es: Seq<(Seq<char>, JsonModel)>,
    ins: Seq<(Seq<char>, JsonModel)>,
    k: int,
    new_value: Seq<char>,
    number: Option<Seq<char>>,
) -> (p: Seq<int>)
    requires
        oobj(entries_get(es, "inputs"@)) == Some(ins),
        0 <= k < ins.len(),
        replace_input(es, ins, k, new_value, number) is Some,
    ensures
        replaced_at(
            JsonModel::Object(es),
            p,
            JsonModel::Object(replace_input(es, ins, k, new_value, number)->0),
            new_value,
            number,
        ),
{
    let r = replace_spec(ins[k].1, new_value, number)->0;
    let i = lemma_entries_set_at(es, "inputs"@, JsonModel::Object(ins.update(k, (ins[k].0, r))));
    lemma_put_two(es, i, k, r);
    seq![i, k]
}

proof fn lemma_widget_edit_path(
    es: Seq<(Seq<char>, JsonModel)>,
    slot: Option<int>,
    new_value: Seq<char>,
    number: Option<Seq<char>>,
) -> (p: Seq<int>)
    requires
        widget_edit(es, slot, new_value, number) matches Some(Some(_)),
    ensures
        replaced_at(
            JsonModel::Object(es),
            p,
            JsonModel::Object(widget_edit(es, slot, new_value, number)->0->0),
            new_value,
            number,
        ),
{
    let w = slot->0;
    let wv = widgets(es)->0;
    let r = replace_spec(wv[w], new_value, number)->0;
    let i = lemma_entries_set_at(es, "widgets_values"@, JsonModel::Array(wv.update(w, r)));
    lemma_put_two(es, i, w, r);
    seq![i, w]
}

proof fn lemma_object_step_path(
    es: Seq<(Seq<char>, JsonModel)>,
    field: Seq<char>,
    new_value: Seq<char>,
    number: Option<Seq<char>>,
) -> (p: Seq<int>)
    requires
        update_object_spec(es, field, new_value, number) is Some,
    ensures
        replaced_at(
            JsonModel::Object(es),
            p,
            JsonModel::Object(update_object_spec(es, field, new_value, number)->0),
            new_value,
            number,
        ),
{
    if api_step(es, field, new_value, number) is Some {
        let ct = member_lower(es, "class_type"@);
        let sampler = contains_seq(ct, "ksampler"@);
        let loader = is_loader_text(ct);
        let load_audio = is_load_audio_text(ct);
        let ins = oobj(entries_get(es, "inputs"@))->0;
        let any = (field == "model"@ && loader) || (field == "reference_audio"@ && load_audio);
        let cands = node_candidates(sampler, loader);
        let req = requested_field(field);
        lemma_first_key_match_range(ins, cands, any, req);
        let k = first_key_match(ins, cands, any, req)->0;
        lemma_replace_input_path(es, ins, k, new_value, number)
    } else if ace_step(es, field, new_value, number) is Some {
        let from_inputs = match oobj(entries_get(es, "inputs"@)) {
            Some(ins) => match first_key_match(ins, seq![field], true, field) {
                Some(k) => Some(replace_input(es, ins, k, new_value, number)),
                None => if field == "key"@ {
                    match first_key_match(ins, seq!["tonality"@], true, field) {
                        Some(k) => Some(replace_input(es, ins, k, new_value, number)),
                        None => None,
                    }
                } else {
                    None
                },
            },
            None => None,
        };
        if from_inputs is Some {
            let ins = oobj(entries_get(es, "inputs"@))->0;
            lemma_first_key_match_range(ins, seq![field], true, field);
            lemma_first_key_match_range(ins, seq!["tonality"@], true, field);
            if first_key_match(ins, seq![field], true, field) is Some {
                let k = first_key_match(ins, seq![field], true, field)->0;
                lemma_replace_input_path(es, ins, k, new_value, number)
            } else {
                let k = first_key_match(ins, seq!["tonality"@], true, field)->0;
                lemma_replace_input_path(es, ins, k, new_value, number)
            }
        } else {
            lemma_first_key_match_range(es, seq![field], true, field);
            let k = first_key_match(es, seq![field], true, field)->0;
            let r = replace_spec(es[k].1, new_value, number)->0;
            let q = seq![k];
            assert(q.drop_first() =~= Seq::<int>::empty());
            assert(at_path(JsonModel::Object(es), q) == at_path(es[k].1, Seq::<int>::empty()));
            assert(put_path(JsonModel::Object(es), q, r) == JsonModel::Object(
                es.update(k, (es[k].0, put_path(es[k].1, Seq::<int>::empty(), r))),
            ));
            q
        }
    } else {
        let inputs = oarr(entries_get(es, "inputs"@))->0;
        let keys = input_names(inputs);
        let node_type = member_lower(es, "type"@);
        let kind = node_kind(es);
        let sampler = contains_seq(kind, "ksampler"@);
        let loader = is_loader_text(kind);
        let load_audio = is_load_audio_text(kind);
        let any = (field == "model"@ && loader) || (field == "reference_audio"@ && load_audio);
        let target = visual_target(keys, node_candidates(sampler, loader), any, requested_field(field));
        let first_slot = match target {
            Some(t) => match input_widget_slot(inputs, keys[t]) {
                Some(w) => Some(w),
                None => if loader || load_audio {
                    Some(0int)
                } else {
                    None
                },
            },
            None => None,
        };
        if (sampler || loader || load_audio) && target is Some && widget_edit(
            es,
            first_slot,
            new_value,
            number,
        ) is Some {
            lemma_widget_edit_path(es, first_slot, new_value, number)
        } else {
            let positional = match widgets(es) {
                Some(wv) => wv.len() >= 9 && !keys.contains("bpm"@) && !keys.contains("keyscale"@),
                None => false,
            };
            if positional && widget_edit(es, positional_slot(field), new_value, number) is Some {
                lemma_widget_edit_path(es, positional_slot(field), new_value, number)
            } else {
                lemma_widget_edit_path(es, widget_slot(keys, field), new_value, number)
            }
        }
    }
}

proof fn lemma_update_path(
    v: JsonModel,
    field: Seq<char>,
    new_value: Seq<char>,
    number: Option<Seq<char>>,
) -> (p: Seq<int>)
    requires
        update_spec(v, field, new_value, number) is Some,
    ensures
        replaced_at(v, p, update_spec(v, field, new_value, number)->0, new_value, number),
    decreases v,
{
    match v {
        JsonModel::Object(es) => if update_object_spec(es, field, new_value, number) is Some {
            lemma_object_step_path(es, field, new_value, number)
        } else {
            lemma_members_path(es, field, new_value, number)
        },
        JsonModel::Array(items) => lemma_items_path(items, field, new_value, number),
        _ => Seq::empty(),
    }
}

proof fn lemma_members_path(
    es: Seq<(Seq<char>, JsonModel)>,
    field: Seq<char>,
    new_value: Seq<char>,
    number: Option<Seq<char>>,
) -> (p: Seq<int>)
    requires
        update_members(es, field, new_value, number) is Some,
    ensures
        p.len() > 0,
        0 <= p[0] < es.len(),
        replaced_at(
            JsonModel::Object(es),
            p,
            JsonModel::Object(update_members(es, field, new_value, number)->0),
            new_value,
            number,
        ),
    decreases es,
{
    if update_spec(es[0].1, field, new_value, number) is Some {
        let q = lemma_update_path(es[0].1, field, new_value, number);
        let p = seq![0int] + q;
        assert(p.drop_first() =~= q);
        p
    } else {
        let rest = es.drop_first();
        let q = lemma_members_path(rest, field, new_value, number);
        let j = q[0];
        let p = seq![j + 1] + q.drop_first();
        assert(p.drop_first() =~= q.drop_first());
        assert(es[j + 1] == rest[j]);
        let t = at_path(rest[j].1, q.drop_first())->0;
        let r = replace_spec(t, new_value, number)->0;
        let out = update_members(rest, field, new_value, number)->0;
        assert(out == rest.update(j, (rest[j].0, put_path(rest[j].1, q.drop_first(), r))));
        assert(seq![es[0]] + out =~= es.update(
            j + 1,
            (es[j + 1].0, put_path(es[j + 1].1, p.drop_first(), r)),
        ));
        p
    }
}

proof fn lemma_items_path(
    items: Seq<JsonModel>,
    field: Seq<char>,
    new_value: Seq<char>,
    number: Option<Seq<char>>,
) -> (p: Seq<int>)
    requires
        update_items(items, field, new_value, number) is Some,
    ensures
        p.len() > 0,
        0 <= p[0] < items.len(),
        replaced_at(
            JsonModel::Array(items),
            p,
            JsonModel::Array(update_items(items, field, new_value, number)->0),
            new_value,
            number,
        ),
    decreases items,
{
    if update_spec(items[0], field, new_value, number) is Some {
        let q = lemma_update_path(items[0], field, new_value, number);
        let p = seq![0int] + q;
        assert(p.drop_first() =~= q);
        p
    } else {
        let rest = items.drop_first();
        let q = lemma_items_path(rest, field, new_value, number);
        let j = q[0];
        let p = seq![j + 1] + q.drop_first();
        assert(p.drop_first() =~= q.drop_first());
        assert(items[j + 1] == rest[j]);
        let t = at_path(rest[j], q.drop_first())->0;
        let r = replace_spec(t, new_value, number)->0;
        let out = update_items(rest, field, new_value, number)->0;
        assert(out == rest.update(j, put_path(rest[j], q.drop_first(), r)));
        assert(seq![items[0]] + out =~= items.update(j + 1, put_path(items[j + 1], p.drop_first(), r)));
        p
    }
}

/// Writing a metadata field changes one value of the document or nothing: where the
/// write takes, the new document is the old one with a single value, at some path,
/// replaced by what writing the new value makes of it, which differs from it.
pub proof fn law_update_replaces_one_value(
    v: JsonModel,
    field: Seq<char>,
    new_value: Seq<char>,
    number: Option<Seq<char>>,
)
    requires
        update_spec(v, field, new_value, number) is Some,
    ensures
        exists|p: Seq<int>|
            #[trigger] replaced_at(v, p, update_spec(v, field, new_value, number)->0, new_value, number),
{
    let p = lemma_update_path(v, field, new_value, number);
}

/// An input of a visual node that is shown as a widget: it has a name and a `widget`.
pub open spec fn widget_input(x: JsonModel) -> bool {
    ostr(jget(x, "name"@)) is Some && jget(x, "widget"@).is_some()
}

/// A widget input named `seed` (in any case): its widget takes two values, the seed and
/// its control mode.
pub open spec fn seed_widget(x: JsonModel) -> bool {
    widget_input(x) && eq_ic(ostr(jget(x, "name"@))->0, "seed"@)
}

/// A widget input named `target` (in any case).
pub open spec fn named_widget(x: JsonModel, target: Seq<char>) -> bool {
    widget_input(x) && eq_ic(ostr(jget(x, "name"@))->0, target)
}

/// How many of the inputs are widget inputs.
pub open spec fn widget_count(s: Seq<JsonModel>) -> nat {
    s.filter(|x: JsonModel| widget_input(x)).len()
}

/// How many of the inputs are seed widget inputs.
pub open spec fn seed_count(s: Seq<JsonModel>) -> nat {
    s.filter(|x: JsonModel| seed_widget(x)).len()
}

proof fn lemma_counts_prepend(x: JsonModel, s: Seq<JsonModel>)
    ensures
        widget_count(seq![x] + s) == widget_count(s) + (if widget_input(x) {
            1nat
        } else {
            0nat
        }),
        seed_count(seq![x] + s) == seed_count(s) + (if seed_widget(x) {
            1nat
        } else {
            0nat
        }),
{
    s.lemma_filter_prepend(x, |y: JsonModel| widget_input(y));
    s.lemma_filter_prepend(x, |y: JsonModel| seed_widget(y));
}

/// The widget value of a widget input is found past the values of the widget inputs
/// before it: one for each, and one more for each seed before it, whose control mode
/// follows it. So the first widget input named `target` has its value at the number of
/// widget inputs before it plus the number of seed widget inputs before it; and where no
/// widget input has that name, there is none.
pub proof fn law_widget_value_follows_earlier_widgets(inputs: Seq<JsonModel>, target: Seq<char>)
    ensures
        (forall|i: int| 0 <= i < inputs.len() ==> !named_widget(#[trigger] inputs[i], target))
            ==> input_widget_slot(inputs, target).is_none(),
        forall|k: int|
            0 <= k < inputs.len() && named_widget(inputs[k], target) && (forall|i: int|
                0 <= i < k ==> !named_widget(#[trigger] inputs[i], target)) ==> input_widget_slot(
                inputs,
                target,
            ) == Some((widget_count(#[trigger] inputs.take(k)) + seed_count(inputs.take(k))) as int),
    decreases inputs.len(),
{
    if inputs.len() > 0 {
        let rest = inputs.drop_first();
        law_widget_value_follows_earlier_widgets(rest, target);
        let x = inputs[0];
        assert forall|i: int| 0 <= i < rest.len() implies rest[i] == inputs[i + 1] by {}
        assert forall|k: int|
            0 <= k < inputs.len() && named_widget(inputs[k], target) && (forall|i: int|
                0 <= i < k ==> !named_widget(#[trigger] inputs[i], target)) implies input_widget_slot(
            inputs,
            target,
        ) == Some((widget_count(#[trigger] inputs.take(k)) + seed_count(inputs.take(k))) as int) by {
            if k == 0 {
                assert(inputs.take(0) =~= Seq::<JsonModel>::empty());
                reveal_with_fuel(Seq::filter, 1);
            } else {
                assert(!named_widget(x, target));
                assert(named_widget(rest[k - 1], target));
                assert forall|i: int| 0 <= i < k - 1 implies !named_widget(
                    #[trigger] rest[i],
                    target,
                ) by {
                    assert(rest[i] == inputs[i + 1]);
                }
                assert(inputs.take(k) =~= seq![x] + rest.take(k - 1));
                lemma_counts_prepend(x, rest.take(k - 1));
            }
        }
        if forall|i: int| 0 <= i < inputs.len() ==> !named_widget(#[trigger] inputs[i], target) {
            assert(!named_widget(x, target));
            assert forall|i: int| 0 <= i < rest.len() implies !named_widget(
                #[trigger] rest[i],
                target,
            ) by {
                assert(rest[i] == inputs[i + 1]);
            }
        }
    }
}
} // verus!
