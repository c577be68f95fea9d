//! The node graph of a workflow: its nodes by id, the model chain that feeds each
//! sampler, and whether a workflow generates audio.
use vstd::prelude::*;
use crate::json::{
    entries_find, entries_get, entry_models, jarr, jget, json_duplicate, lemma_entry_models_index,
    lemma_entry_models_len, lemma_models_index, lemma_models_len, models, oarr, oi64, oobj,
    oscalar, ostr, seq_at, text_eq, Json, JsonModel,
};
use crate::text::{
    ascii_lower, contains_seq, eq_ignore_ascii_case, remove_separators, starts_with_seq,
    str_contains, str_starts_with, to_ascii_lowercase, without_separators,
};
use super::parser::first_some;

verus! {

/// The id of a visual node, when it has a non-empty one.
pub open spec fn visual_node_id(node: JsonModel) -> Option<Seq<char>> {
    match oscalar(jget(node, "id"@)) {
        Some(id) => if id.len() > 0 {
            Some(id)
        } else {
            None
        },
        None => None,
    }
}

pub open spec fn visual_node_entries(nodes: Seq<JsonModel>) -> Seq<(Seq<char>, JsonModel)>
    decreases nodes.len(),
{
    if nodes.len() == 0 {
        Seq::empty()
    } else {
        let rest = visual_node_entries(nodes.drop_last());
        match visual_node_id(nodes.last()) {
            Some(id) => rest.push((id, nodes.last())),
            None => rest,
        }
    }
}

pub open spec fn api_node_entries(es: Seq<(Seq<char>, JsonModel)>) -> Seq<(Seq<char>, JsonModel)>
    decreases es.len(),
{
    if es.len() == 0 {
        Seq::empty()
    } else {
        let rest = api_node_entries(es.drop_last());
        if jget(es.last().1, "class_type"@).is_some() {
            rest.push(es.last())
        } else {
            rest
        }
    }
}

/// The nodes of a workflow with their ids: the `nodes` of a visual graph that have an
/// id, or the members of an API prompt that have a `class_type`.
pub open spec fn workflow_nodes_spec(v: JsonModel) -> Option<Seq<(Seq<char>, JsonModel)>> {
    match v {
        JsonModel::Object(es) => match oarr(entries_get(es, "nodes"@)) {
            Some(ns) => Some(visual_node_entries(ns)),
            None => Some(api_node_entries(es)),
        },
        _ => None,
    }
}

pub open spec fn find_entry(entries: Seq<(Seq<char>, JsonModel)>, id: Seq<char>) -> Option<JsonModel>
    decreases entries.len(),
{
    if entries.len() == 0 {
        None
    } else if entries[0].0 == id {
        Some(entries[0].1)
    } else {
        find_entry(entries.drop_first(), id)
    }
}

/// The first node of the workflow with the given id.
pub open spec fn find_node_spec(v: JsonModel, id: Seq<char>) -> Option<JsonModel> {
    match workflow_nodes_spec(v) {
        Some(ns) => find_entry(ns, id),
        None => None,
    }
}

/// `class_type`, or else `type`, when it is a string.
pub open spec fn node_type_text(node: JsonModel) -> Option<Seq<char>> {
    ostr(first_some(jget(node, "class_type"@), jget(node, "type"@)))
}

pub open spec fn is_ksampler_spec(node: JsonModel) -> bool {
    match node_type_text(node) {
        Some(t) => contains_seq(ascii_lower(t), "ksampler"@),
        None => false,
    }
}

pub open spec fn is_lora_spec(node: JsonModel) -> bool {
    match node_type_text(node) {
        Some(t) => contains_seq(without_separators(ascii_lower(t)), "loraloader"@) || contains_seq(
            without_separators(ascii_lower(t)),
            "loadlora"@,
        ),
        None => false,
    }
}

pub open spec fn is_bypassed_spec(node: JsonModel) -> bool {
    oi64(jget(node, "mode"@)) == Some(4i64)
}

/// An input called `model`, or whose lower-case name starts with `model`.
pub open spec fn is_model_input_name(name: Seq<char>) -> bool {
    ascii_lower(name) == ascii_lower("model"@) || starts_with_seq(ascii_lower(name), "model"@)
}

/// The non-empty node id at the head of a `[id, output]` reference.
pub open spec fn reference_head(v: JsonModel) -> Option<Seq<char>> {
    match jarr(v) {
        Some(a) => match oscalar(seq_at(a, 0)) {
            Some(id) => if id.len() > 0 {
                Some(id)
            } else {
                None
            },
            None => None,
        },
        None => None,
    }
}

pub open spec fn first_model_reference(ins: Seq<(Seq<char>, JsonModel)>) -> Option<Seq<char>>
    decreases ins.len(),
{
    if ins.len() == 0 {
        None
    } else if is_model_input_name(ins[0].0) && reference_head(ins[0].1).is_some() {
        reference_head(ins[0].1)
    } else {
        first_model_reference(ins.drop_first())
    }
}

/// The link feeding the first model input of a visual node, as text.
pub open spec fn model_input_link(inputs: Seq<JsonModel>) -> Option<Seq<char>>
    decreases inputs.len(),
{
    if inputs.len() == 0 {
        None
    } else {
        match ostr(jget(inputs[0], "name"@)) {
            Some(name) => if is_model_input_name(name) && jget(inputs[0], "link"@).is_some() {
                oscalar(jget(inputs[0], "link"@))
            } else {
                model_input_link(inputs.drop_first())
            },
            None => model_input_link(inputs.drop_first()),
        }
    }
}

/// The source node of the first link whose id reads as `link_id`.
pub open spec fn link_source(links: Seq<JsonModel>, link_id: Seq<char>) -> Option<Seq<char>>
    decreases links.len(),
{
    if links.len() == 0 {
        None
    } else {
        match jarr(links[0]) {
            Some(a) => if oscalar(seq_at(a, 0)) == Some(link_id) && seq_at(a, 1).is_some() {
                oscalar(seq_at(a, 1))
            } else {
                link_source(links.drop_first(), link_id)
            },
            None => link_source(links.drop_first(), link_id),
        }
    }
}

/// The id of the node that feeds the model input of `node`.
pub open spec fn upstream_spec(v: JsonModel, node: JsonModel) -> Option<Seq<char>> {
    match oobj(jget(node, "inputs"@)) {
        Some(ins) => first_model_reference(ins),
        None => match oarr(jget(node, "inputs"@)) {
            Some(inputs) => match model_input_link(inputs) {
                Some(lid) => match oarr(jget(v, "links"@)) {
                    Some(links) => link_source(links, lid),
                    None => None,
                },
                None => None,
            },
            None => None,
        },
    }
}

/// One step up the model chain from the node with id `id`.
pub open spec fn step_up(v: JsonModel, id: Seq<char>) -> Option<Seq<char>> {
    match find_node_spec(v, id) {
        Some(node) => upstream_spec(v, node),
        None => None,
    }
}

/// The id reached after `n` steps up the model chain from `start`.
pub open spec fn chain(v: JsonModel, start: Seq<char>, n: nat) -> Option<Seq<char>>
    decreases n,
{
    if n == 0 {
        Some(start)
    } else {
        match chain(v, start, (n - 1) as nat) {
            Some(id) => step_up(v, id),
            None => None,
        }
    }
}

pub open spec fn sampler_ids(entries: Seq<(Seq<char>, JsonModel)>) -> Seq<Seq<char>>
    decreases entries.len(),
{
    if entries.len() == 0 {
        Seq::empty()
    } else {
        let rest = sampler_ids(entries.drop_last());
        if is_ksampler_spec(entries.last().1) {
            rest.push(entries.last().0)
        } else {
            rest
        }
    }
}

pub open spec fn workflow_sampler_ids(v: JsonModel) -> Seq<Seq<char>> {
    match workflow_nodes_spec(v) {
        Some(ns) => sampler_ids(ns),
        None => Seq::empty(),
    }
}

/// The node with id `id` lies on the model chain of some sampler.
pub open spec fn feeds_sampler(v: JsonModel, id: Seq<char>) -> bool {
    exists|k: int, n: nat|
        0 <= k < workflow_sampler_ids(v).len() && #[trigger] chain(
            v,
            workflow_sampler_ids(v)[k],
            n,
        ) == Some(id)
}

/// The node with id `id` is an enabled LoRA loader.
pub open spec fn enabled_lora(v: JsonModel, id: Seq<char>) -> bool {
    match find_node_spec(v, id) {
        Some(node) => is_lora_spec(node) && !is_bypassed_spec(node),
        None => false,
    }
}

/// The LoRAs that a sampler uses: enabled LoRA loaders on the model chain of a sampler.
pub open spec fn active_lora_spec(v: JsonModel, id: Seq<char>) -> bool {
    feeds_sampler(v, id) && enabled_lora(v, id)
}

pub open spec fn texts(v: Seq<String>) -> Seq<Seq<char>> {
    v.map_values(|s: String| s@)
}

pub fn texts_contain(v: &Vec<String>, s: &str) -> (r: bool)
    ensures
        r == texts(v@).contains(s@),
{
    let n = v.len();
    for i in 0..n
        invariant
            n == v.len(),
            forall|k: int| 0 <= k < i ==> v@[k]@ != s@,
    {
        if text_eq(v[i].as_str(), s) {
            assert(texts(v@)[i as int] == s@);
            return true;
        }
    }
    assert(!texts(v@).contains(s@)) by {
        if texts(v@).contains(s@) {
            let k = choose|k: int| 0 <= k < texts(v@).len() && texts(v@)[k] == s@;
            assert(v@[k]@ == s@);
        }
    }
    false
}

pub fn workflow_nodes(value: &Json) -> (r: Option<Vec<(String, Json)>>)
    ensures
        match r {
            Some(es) => workflow_nodes_spec(value.model()) == Some(entry_models(es@)),
            None => workflow_nodes_spec(value.model()).is_none(),
        },
{
    let object = match value {
        Json::Object(es) => es,
        _ => {
            return None;
        },
    };
    let mut out: Vec<(String, Json)> = Vec::new();
    assert(entry_models(out@) =~= Seq::empty());
    match entries_find(object, "nodes") {
        Some(Json::Array(ns)) => {
            let ghost m = models(ns@);
            proof {
                lemma_models_len(ns@);
            }
            let n = ns.len();
            for i in 0..n
                invariant
                    n == ns.len(),
                    m == models(ns@),
                    m.len() == n,
                    entry_models(out@) == visual_node_entries(m.take(i as int)),
            {
                proof {
                    lemma_models_index(ns@, i as int);
                }
                assert(m.take(i + 1).drop_last() =~= m.take(i as int));
                let ghost before = out@;
                match ns[i].get("id") {
                    Some(idv) => {
                        let id = idv.scalar_text();
                        if !id.as_str().is_empty() {
                            out.push((id, json_duplicate(&ns[i])));
                            proof {
                                lemma_entry_models_len(out@);
                                lemma_entry_models_len(before);
                                assert forall|k: int| 0 <= k < before.len() implies entry_models(out@)[k] == entry_models(before)[k] by {
                                    lemma_entry_models_index(out@, k);
                                    lemma_entry_models_index(before, k);
                                }
                                lemma_entry_models_index(out@, before.len() as int);
                            }
                            assert(entry_models(out@) =~= entry_models(before).push((id@, m[i as int])));
                        }
                    },
                    None => {},
                }
            }
            assert(m.take(n as int) =~= m);
            Some(out)
        },
        _ => {
            let ghost m = entry_models(object@);
            proof {
                lemma_entry_models_len(object@);
            }
            let n = object.len();
            for i in 0..n
                invariant
                    n == object.len(),
                    m == entry_models(object@),
                    m.len() == n,
                    entry_models(out@) == api_node_entries(m.take(i as int)),
            {
                proof {
                    lemma_entry_models_index(object@, i as int);
                }
                assert(m.take(i + 1).drop_last() =~= m.take(i as int));
                let ghost before = out@;
                if object[i].1.get("class_type").is_some() {
                    out.push((object[i].0.clone(), json_duplicate(&object[i].1)));
                    proof {
                        lemma_entry_models_len(out@);
                        lemma_entry_models_len(before);
                        assert forall|k: int| 0 <= k < before.len() implies entry_models(out@)[k] == entry_models(before)[k] by {
                            lemma_entry_models_index(out@, k);
                            lemma_entry_models_index(before, k);
                        }
                        lemma_entry_models_index(out@, before.len() as int);
                    }
                    assert(entry_models(out@) =~= entry_models(before).push(m[i as int]));
                }
            }
            assert(m.take(n as int) =~= m);
            Some(out)
        },
    }
}

pub fn find_entry_exec<'a>(entries: &'a Vec<(String, Json)>, id: &str) -> (r: Option<&'a Json>)
    ensures
        crate::json::opt_model(r) == find_entry(entry_models(entries@), id@),
{
    let ghost m = entry_models(entries@);
    proof {
        lemma_entry_models_len(entries@);
    }
    assert(m.skip(0) =~= m);
    let n = entries.len();
    for i in 0..n
        invariant
            n == entries.len(),
            m == entry_models(entries@),
            m.len() == n,
            find_entry(m, id@) == find_entry(m.skip(i as int), id@),
    {
        proof {
            lemma_entry_models_index(entries@, i as int);
        }
        assert(m.skip(i as int).drop_first() =~= m.skip(i + 1));
        assert(m.skip(i as int)[0] == m[i as int]);
        if text_eq(entries[i].0.as_str(), id) {
            return Some(&entries[i].1);
        }
    }
    None
}

pub fn node_type_exec(node: &Json) -> (r: Option<String>)
    ensures
        match r {
            Some(t) => node_type_text(node.model()) == Some(t@),
            None => node_type_text(node.model()).is_none(),
        },
{
    let v = match node.get("class_type") {
        Some(x) => Some(x),
        None => node.get("type"),
    };
    match v {
        Some(Json::Str(t)) => Some(t.clone()),
        _ => None,
    }
}

pub fn is_ksampler_node(node: &Json) -> (r: bool)
    ensures
        r == is_ksampler_spec(node.model()),
{
    match node_type_exec(node) {
        Some(t) => {
            let l = to_ascii_lowercase(t.as_str());
            str_contains(l.as_str(), "ksampler")
        },
        None => false,
    }
}

pub fn is_lora_node(node: &Json) -> (r: bool)
    ensures
        r == is_lora_spec(node.model()),
{
    match node_type_exec(node) {
        Some(t) => {
            let l = to_ascii_lowercase(t.as_str());
            let c = remove_separators(l.as_str());
            str_contains(c.as_str(), "loraloader") || str_contains(c.as_str(), "loadlora")
        },
        None => false,
    }
}

pub fn is_bypassed_node(node: &Json) -> (r: bool)
    ensures
        r == is_bypassed_spec(node.model()),
{
    match node.get("mode") {
        Some(m) => match m.as_i64() {
            Some(x) => x == 4,
            None => false,
        },
        None => false,
    }
}

pub fn is_model_input_name_exec(name: &str) -> (r: bool)
    ensures
        r == is_model_input_name(name@),
{
    let l = to_ascii_lowercase(name);
    eq_ignore_ascii_case(name, "model") || str_starts_with(l.as_str(), "model")
}

fn reference_head_exec(v: &Json) -> (r: Option<String>)
    ensures
        match r {
            Some(t) => reference_head(v.model()) == Some(t@),
            None => reference_head(v.model()).is_none(),
        },
{
    match v {
        Json::Array(a) => {
            proof {
                lemma_models_len(a@);
            }
            if a.len() == 0 {
                return None;
            }
            proof {
                lemma_models_index(a@, 0);
            }
            let id = a[0].scalar_text();
            if id.as_str().is_empty() {
                None
            } else {
                Some(id)
            }
        },
        _ => None,
    }
}

fn first_model_reference_exec(ins: &Vec<(String, Json)>) -> (r: Option<String>)
    ensures
        match r {
            Some(t) => first_model_reference(entry_models(ins@)) == Some(t@),
            None => first_model_reference(entry_models(ins@)).is_none(),
        },
{
    let ghost m = entry_models(ins@);
    proof {
        lemma_entry_models_len(ins@);
    }
    assert(m.skip(0) =~= m);
    let n = ins.len();
    for i in 0..n
        invariant
            n == ins.len(),
            m == entry_models(ins@),
            m.len() == n,
            first_model_reference(m) == first_model_reference(m.skip(i as int)),
    {
        proof {
            lemma_entry_models_index(ins@, i as int);
        }
        assert(m.skip(i as int).drop_first() =~= m.skip(i + 1));
        assert(m.skip(i as int)[0] == m[i as int]);
        if is_model_input_name_exec(ins[i].0.as_str()) {
            match reference_head_exec(&ins[i].1) {
                Some(t) => {
                    return Some(t);
                },
                None => {},
            }
        }
    }
    None
}

fn model_input_link_exec(inputs: &Vec<Json>) -> (r: Option<String>)
    ensures
        match r {
            Some(t) => model_input_link(models(inputs@)) == Some(t@),
            None => model_input_link(models(inputs@)).is_none(),
        },
{
    let ghost m = models(inputs@);
    proof {
        lemma_models_len(inputs@);
    }
    assert(m.skip(0) =~= m);
    let n = inputs.len();
    for i in 0..n
        invariant
            n == inputs.len(),
            m == models(inputs@),
            m.len() == n,
            model_input_link(m) == model_input_link(m.skip(i as int)),
    {
        proof {
            lemma_models_index(inputs@, i as int);
        }
        assert(m.skip(i as int).drop_first() =~= m.skip(i + 1));
        assert(m.skip(i as int)[0] == m[i as int]);
        match inputs[i].get("name") {
            Some(Json::Str(name)) => {
                if is_model_input_name_exec(name.as_str()) {
                    match inputs[i].get("link") {
                        Some(l) => {
                            return Some(l.scalar_text());
                        },
                        None => {},
                    }
                }
            },
            _ => {},
        }
    }
    None
}

fn link_source_exec(links: &Vec<Json>, link_id: &str) -> (r: Option<String>)
    ensures
        match r {
            Some(t) => link_source(models(links@), link_id@) == Some(t@),
            None => link_source(models(links@), link_id@).is_none(),
        },
{
    let ghost m = models(links@);
    proof {
        lemma_models_len(links@);
    }
    assert(m.skip(0) =~= m);
    let n = links.len();
    for i in 0..n
        invariant
            n == links.len(),
            m == models(links@),
            m.len() == n,
            link_source(m, link_id@) == link_source(m.skip(i as int), link_id@),
    {
        proof {
            lemma_models_index(links@, i as int);
        }
        assert(m.skip(i as int).drop_first() =~= m.skip(i + 1));
        assert(m.skip(i as int)[0] == m[i as int]);
        match &links[i] {
            Json::Array(a) => {
                proof {
                    lemma_models_len(a@);
                }
                if a.len() >= 2 {
                    proof {
                        lemma_models_index(a@, 0);
                        lemma_models_index(a@, 1);
                    }
                    if text_eq(a[0].scalar_text().as_str(), link_id) {
                        return Some(a[1].scalar_text());
                    }
                } else if a.len() == 1 {
                    proof {
                        lemma_models_index(a@, 0);
                    }
                }
            },
            _ => {},
        }
    }
    None
}

/// The id of the node that feeds the model input of `node`.
pub fn upstream_model_id(value: &Json, node: &Json) -> (r: Option<String>)
    ensures
        match r {
            Some(t) => upstream_spec(value.model(), node.model()) == Some(t@),
            None => upstream_spec(value.model(), node.model()).is_none(),
        },
{
    match node.get("inputs") {
        Some(Json::Object(ins)) => first_model_reference_exec(ins),
        Some(Json::Array(inputs)) => match model_input_link_exec(inputs) {
            Some(lid) => match value.get("links") {
                Some(Json::Array(links)) => link_source_exec(links, lid.as_str()),
                _ => None,
            },
            None => None,
        },
        _ => None,
    }
}

proof fn lemma_found_id_listed(entries: Seq<(Seq<char>, JsonModel)>, id: Seq<char>)
    requires
        find_entry(entries, id).is_some(),
    ensures
        entries.map_values(|e: (Seq<char>, JsonModel)| e.0).contains(id),
    decreases entries.len(),
{
    let ids = entries.map_values(|e: (Seq<char>, JsonModel)| e.0);
    if entries[0].0 == id {
        assert(ids[0] == id);
    } else {
        lemma_found_id_listed(entries.drop_first(), id);
        let rest = entries.drop_first().map_values(|e: (Seq<char>, JsonModel)| e.0);
        let j = choose|j: int| 0 <= j < rest.len() && rest[j] == id;
        assert(ids[j + 1] == id);
    }
}

proof fn lemma_chain_stays_closed(v: JsonModel, vis: Seq<Seq<char>>, k: Seq<char>, n: nat)
    requires
        vis.contains(k) || find_node_spec(v, k).is_none(),
        forall|x: Seq<char>|
            #[trigger] vis.contains(x) ==> match step_up(v, x) {
                Some(y) => vis.contains(y) || find_node_spec(v, y).is_none(),
                None => true,
            },
    ensures
        match chain(v, k, n) {
            Some(x) => vis.contains(x) || find_node_spec(v, x).is_none(),
            None => true,
        },
    decreases n,
{
    if n > 0 {
        lemma_chain_stays_closed(v, vis, k, (n - 1) as nat);
        match chain(v, k, (n - 1) as nat) {
            Some(w) => {
                if !vis.contains(w) {
                    assert(step_up(v, w).is_none());
                }
            },
            None => {},
        }
    }
}

/// The ids of the LoRA loaders that a sampler uses: the enabled LoRA loaders on the
/// model chain that leads into some sampler.
pub fn active_lora_ids(value: &Json) -> (r: Vec<String>)
    ensures
        forall|id: Seq<char>| texts(r@).contains(id) <==> active_lora_spec(value.model(), id),
{
    let ghost v = value.model();
    let nodes = match workflow_nodes(value) {
        Some(n) => n,
        None => {
            let r: Vec<String> = Vec::new();
            assert(workflow_sampler_ids(v) =~= Seq::empty());
            assert forall|id: Seq<char>| texts(r@).contains(id) <==> active_lora_spec(v, id) by {
                assert(texts(r@) =~= Seq::empty());
            }
            return r;
        },
    };
    let ghost ns = entry_models(nodes@);
    proof {
        lemma_entry_models_len(nodes@);
    }
    let mut stack: Vec<String> = Vec::new();
    let n = nodes.len();
    for i in 0..n
        invariant
            n == nodes.len(),
            ns == entry_models(nodes@),
            ns.len() == n,
            texts(stack@) == sampler_ids(ns.take(i as int)),
    {
        proof {
            lemma_entry_models_index(nodes@, i as int);
        }
        assert(ns.take(i + 1).drop_last() =~= ns.take(i as int));
        let ghost before = stack@;
        if is_ksampler_node(&nodes[i].1) {
            stack.push(nodes[i].0.clone());
            assert(texts(stack@) =~= texts(before).push(nodes@[i as int].0@));
        }
    }
    assert(ns.take(n as int) =~= ns);
    let ghost ks = workflow_sampler_ids(v);
    assert(ks == texts(stack@));
    let ghost ids = ns.map_values(|e: (Seq<char>, JsonModel)| e.0);
    let mut visited: Vec<String> = Vec::new();
    let mut active: Vec<String> = Vec::new();
    assert(texts(visited@) =~= Seq::empty());
    assert(texts(active@) =~= Seq::empty());
    assert forall|x: Seq<char>| texts(stack@).contains(x) implies feeds_sampler(v, x) by {
        let k = choose|k: int| 0 <= k < texts(stack@).len() && texts(stack@)[k] == x;
        assert(chain(v, ks[k], 0) == Some(x));
    }
    while stack.len() > 0
        invariant
            ns == entry_models(nodes@),
            ns.len() == nodes.len(),
            workflow_nodes_spec(v) == Some(ns),
            v == value.model(),
            ks == workflow_sampler_ids(v),
            ids == ns.map_values(|e: (Seq<char>, JsonModel)| e.0),
            ids.len() == ns.len(),
            texts(visited@).no_duplicates(),
            visited.len() <= ns.len(),
            forall|x: Seq<char>| #[trigger] texts(visited@).contains(x) ==> find_node_spec(v, x).is_some(),
            forall|x: Seq<char>| #[trigger] texts(visited@).contains(x) ==> feeds_sampler(v, x),
            forall|x: Seq<char>| #[trigger] texts(stack@).contains(x) ==> feeds_sampler(v, x),
            forall|x: Seq<char>|
                #[trigger] texts(visited@).contains(x) ==> match step_up(v, x) {
                    Some(y) => texts(visited@).contains(y) || texts(stack@).contains(y)
                        || find_node_spec(v, y).is_none(),
                    None => true,
                },
            forall|k: int|
                0 <= k < ks.len() ==> texts(visited@).contains(#[trigger] ks[k]) || texts(
                    stack@,
                ).contains(ks[k]) || find_node_spec(v, ks[k]).is_none(),
            forall|x: Seq<char>|
                #[trigger] texts(active@).contains(x) <==> texts(visited@).contains(x)
                    && enabled_lora(v, x),
        decreases ns.len() - visited.len(), stack.len(),
    {
        let ghost old_stack = texts(stack@);
        let ghost old_visited = texts(visited@);
        let ghost old_active = texts(active@);
        let id = stack.pop().unwrap();
        assert(old_stack =~= texts(stack@).push(id@));
        assert(old_stack.contains(id@)) by {
            assert(old_stack[old_stack.len() - 1] == id@);
        }
        assert(feeds_sampler(v, id@));
        assert forall|x: Seq<char>| texts(stack@).contains(x) implies old_stack.contains(x) by {
            let j = choose|j: int| 0 <= j < texts(stack@).len() && texts(stack@)[j] == x;
            assert(old_stack[j] == x);
        }
        assert forall|x: Seq<char>| old_stack.contains(x) && x != id@ implies texts(stack@).contains(x) by {
            let j = choose|j: int| 0 <= j < old_stack.len() && old_stack[j] == x;
            assert(j < old_stack.len() - 1);
            assert(texts(stack@)[j] == x);
        }
        assert forall|x: Seq<char>| texts(stack@).contains(x) implies feeds_sampler(v, x) by {
            assert(old_stack.contains(x));
        }
        if texts_contain(&visited, id.as_str()) {
        } else {
            match find_entry_exec(&nodes, id.as_str()) {
                None => {
                    assert(find_node_spec(v, id@).is_none());
                },
                Some(node) => {
                    assert(find_node_spec(v, id@) == Some(node.model()));
                    let ghost before_stack = texts(stack@);
                    visited.push(id.clone());
                    assert(texts(visited@) =~= old_visited.push(id@));
                    assert(texts(visited@).contains(id@)) by {
                        assert(texts(visited@)[old_visited.len() as int] == id@);
                    }
                    assert forall|x: Seq<char>| old_visited.contains(x) implies texts(visited@).contains(x) by {
                        let j = choose|j: int| 0 <= j < old_visited.len() && old_visited[j] == x;
                        assert(texts(visited@)[j] == x);
                    }
                    assert forall|x: Seq<char>| texts(visited@).contains(x) implies old_visited.contains(x) || x == id@ by {
                        let j = choose|j: int| 0 <= j < texts(visited@).len() && texts(visited@)[j] == x;
                        if j < old_visited.len() {
                            assert(old_visited[j] == x);
                        }
                    }
                    proof {
                        lemma_found_id_listed(ns, id@);
                        let nv = texts(visited@);
                        assert(nv.no_duplicates()) by {
                            assert forall|a: int, b: int| 0 <= a < nv.len() && 0 <= b < nv.len() && a != b implies nv[a] != nv[b] by {
                                if a < old_visited.len() && b < old_visited.len() {
                                } else if a < old_visited.len() {
                                    assert(old_visited.contains(nv[a]));
                                } else {
                                    assert(old_visited.contains(nv[b]));
                                }
                            }
                        }
                        assert(nv.to_set().subset_of(ids.to_set())) by {
                            assert forall|x: Seq<char>| nv.to_set().contains(x) implies ids.to_set().contains(x) by {
                                assert(nv.contains(x));
                                if x == id@ {
                                } else {
                                    assert(old_visited.contains(x));
                                    lemma_found_id_listed(ns, x);
                                }
                            }
                        }
                        nv.unique_seq_to_set();
                        ids.lemma_cardinality_of_set();
                        vstd::seq_lib::seq_to_set_is_finite(ids);
                        vstd::set_lib::lemma_len_subset(nv.to_set(), ids.to_set());
                    }
                    let enabled = is_lora_node(node) && !is_bypassed_node(node);
                    assert(enabled == enabled_lora(v, id@));
                    if enabled {
                        let ghost ba = texts(active@);
                        active.push(id.clone());
                        assert(texts(active@) =~= ba.push(id@));
                        assert forall|x: Seq<char>| texts(active@).contains(x) <==> ba.contains(x) || x == id@ by {
                            if texts(active@).contains(x) {
                                let j = choose|j: int| 0 <= j < texts(active@).len() && texts(active@)[j] == x;
                                if j < ba.len() {
                                    assert(ba[j] == x);
                                }
                            }
                            if ba.contains(x) {
                                let j = choose|j: int| 0 <= j < ba.len() && ba[j] == x;
                                assert(texts(active@)[j] == x);
                            }
                            if x == id@ {
                                assert(texts(active@)[ba.len() as int] == x);
                            }
                        }
                    }
                    assert forall|x: Seq<char>| #[trigger] texts(active@).contains(x) <==> texts(visited@).contains(x)
                        && enabled_lora(v, x) by {
                        assert(!old_visited.contains(id@));
                        assert(!old_active.contains(id@));
                        if x != id@ {
                            assert(texts(visited@).contains(x) <==> old_visited.contains(x));
                            assert(texts(active@).contains(x) <==> old_active.contains(x));
                        } else {
                            assert(texts(visited@).contains(x));
                            if enabled {
                                assert(texts(active@).contains(x));
                            } else {
                                assert(texts(active@) == old_active);
                            }
                        }
                    }
                    match upstream_model_id(value, node) {
                        Some(up) => {
                            let ghost bs = texts(stack@);
                            stack.push(up);
                            assert(texts(stack@) =~= bs.push(up@));
                            assert(texts(stack@).contains(up@)) by {
                                assert(texts(stack@)[bs.len() as int] == up@);
                            }
                            assert forall|x: Seq<char>| bs.contains(x) implies texts(stack@).contains(x) by {
                                let j = choose|j: int| 0 <= j < bs.len() && bs[j] == x;
                                assert(texts(stack@)[j] == x);
                            }
                            assert forall|x: Seq<char>| texts(stack@).contains(x) implies bs.contains(x) || x == up@ by {
                                let j = choose|j: int| 0 <= j < texts(stack@).len() && texts(stack@)[j] == x;
                                if j < bs.len() {
                                    assert(bs[j] == x);
                                }
                            }
                            assert(step_up(v, id@) == Some(up@));
                            assert(feeds_sampler(v, up@)) by {
                                assert(feeds_sampler(v, id@));
                                let (k, m) = choose|k: int, m: nat|
                                    0 <= k < ks.len() && #[trigger] chain(v, ks[k], m) == Some(id@);
                                assert(chain(v, ks[k], m + 1) == Some(up@));
                            }
                            assert forall|x: Seq<char>| texts(stack@).contains(x) implies feeds_sampler(v, x) by {
                                if x != up@ {
                                    assert(bs.contains(x));
                                }
                            }
                        },
                        None => {
                            assert(step_up(v, id@).is_none());
                        },
                    }
                    assert forall|x: Seq<char>| texts(visited@).contains(x) implies feeds_sampler(v, x)
                        && find_node_spec(v, x).is_some() by {
                        if x != id@ {
                            assert(old_visited.contains(x));
                        }
                    }
                },
            }
        }
        proof {
            assert forall|x: Seq<char>| #[trigger] texts(visited@).contains(x) implies find_node_spec(v, x).is_some() by {
                if x != id@ {
                    assert(old_visited.contains(x));
                }
            }
            assert forall|x: Seq<char>| #[trigger] texts(visited@).contains(x) implies match step_up(v, x) {
                Some(y) => texts(visited@).contains(y) || texts(stack@).contains(y)
                    || find_node_spec(v, y).is_none(),
                None => true,
            } by {
                if old_visited.contains(x) {
                    match step_up(v, x) {
                        Some(y) => {
                            if old_stack.contains(y) && y != id@ {
                                assert(texts(stack@).contains(y));
                            }
                        },
                        None => {},
                    }
                }
            }
            assert forall|k: int| 0 <= k < ks.len() implies texts(visited@).contains(#[trigger] ks[k])
                || texts(stack@).contains(ks[k]) || find_node_spec(v, ks[k]).is_none() by {
                if old_stack.contains(ks[k]) && ks[k] != id@ {
                    assert(texts(stack@).contains(ks[k]));
                }
            }
        }
    }
    proof {
        let vis = texts(visited@);
        assert forall|id: Seq<char>| texts(active@).contains(id) <==> active_lora_spec(v, id) by {
            if active_lora_spec(v, id) {
                let (k, m) = choose|k: int, m: nat| 0 <= k < ks.len() && #[trigger] chain(v, ks[k], m) == Some(id);
                assert(!texts(stack@).contains(ks[k]));
                lemma_chain_stays_closed(v, vis, ks[k], m);
            }
        }
    }
    active
}


/// The lower-case node type, or the empty text when the node has none.
pub open spec fn type_lower(node: JsonModel) -> Seq<char> {
    match node_type_text(node) {
        Some(t) => ascii_lower(t),
        None => Seq::empty(),
    }
}

/// A node type that marks a training or preprocessing workflow.
pub open spec fn is_blocking_type(t: Seq<char>) -> bool {
    contains_seq(t, "trainer"@) || contains_seq(t, "preprocess"@) || contains_seq(t, "llmloader"@)
}

/// A node type of an ACE-Step audio or latent node.
pub open spec fn is_audio_type(t: Seq<char>) -> bool {
    contains_seq(t, "acestep"@) && (contains_seq(t, "audio"@) || contains_seq(t, "latent"@))
}

/// No node that is not bypassed is a trainer, preprocessor or LLM loader.
pub open spec fn none_blocking(ns: Seq<(Seq<char>, JsonModel)>) -> bool {
    forall|i: int|
        0 <= i < ns.len() && !is_bypassed_spec(ns[i].1) ==> !is_blocking_type(
            #[trigger] type_lower(ns[i].1),
        )
}

/// Some node that is not bypassed is a sampler.
pub open spec fn some_sampler(ns: Seq<(Seq<char>, JsonModel)>) -> bool {
    exists|i: int|
        0 <= i < ns.len() && !is_bypassed_spec(ns[i].1) && contains_seq(
            #[trigger] type_lower(ns[i].1),
            "ksampler"@,
        )
}

/// Some node that is not bypassed is an ACE-Step audio or latent node.
pub open spec fn some_audio_node(ns: Seq<(Seq<char>, JsonModel)>) -> bool {
    exists|i: int|
        0 <= i < ns.len() && !is_bypassed_spec(ns[i].1) && is_audio_type(
            #[trigger] type_lower(ns[i].1),
        )
}

/// A workflow that generates audio: among its nodes that are not bypassed, none is a
/// trainer, preprocessor or LLM loader, one is a sampler and one an ACE-Step audio or
/// latent node.
pub open spec fn runnable_spec(v: JsonModel) -> bool {
    match workflow_nodes_spec(v) {
        None => false,
        Some(ns) => none_blocking(ns) && some_sampler(ns) && some_audio_node(ns),
    }
}

fn type_lower_exec(node: &Json) -> (r: String)
    ensures
        r@ == type_lower(node.model()),
{
    match node_type_exec(node) {
        Some(t) => to_ascii_lowercase(t.as_str()),
        None => {
            let e = String::new();
            assert(e@ =~= Seq::<char>::empty());
            e
        },
    }
}

/// Whether the workflow is one that generates audio (see `runnable_spec`).
pub fn is_runnable_audio_workflow(value: &Json) -> (r: bool)
    ensures
        r == runnable_spec(value.model()),
{
    let nodes = match workflow_nodes(value) {
        Some(n) => n,
        None => {
            return false;
        },
    };
    let ghost ns = entry_models(nodes@);
    proof {
        lemma_entry_models_len(nodes@);
    }
    let mut has_sampler = false;
    let mut has_audio = false;
    let n = nodes.len();
    for i in 0..n
        invariant
            n == nodes.len(),
            ns == entry_models(nodes@),
            ns.len() == n,
            workflow_nodes_spec(value.model()) == Some(ns),
            forall|k: int|
                0 <= k < i && !is_bypassed_spec(ns[k].1) ==> !is_blocking_type(
                    #[trigger] type_lower(ns[k].1),
                ),
            has_sampler == exists|k: int|
                0 <= k < i && !is_bypassed_spec(ns[k].1) && contains_seq(
                    #[trigger] type_lower(ns[k].1),
                    "ksampler"@,
                ),
            has_audio == exists|k: int|
                0 <= k < i && !is_bypassed_spec(ns[k].1) && is_audio_type(
                    #[trigger] type_lower(ns[k].1),
                ),
    {
        proof {
            lemma_entry_models_index(nodes@, i as int);
        }
        let node = &nodes[i].1;
        if !is_bypassed_node(node) {
            let t = type_lower_exec(node);
            let ts = t.as_str();
            if str_contains(ts, "trainer") || str_contains(ts, "preprocess") || str_contains(
                ts,
                "llmloader",
            ) {
                assert(is_blocking_type(type_lower(ns[i as int].1)));
                assert(!is_bypassed_spec(ns[i as int].1));
                assert(!none_blocking(ns));
                return false;
            }
            let s = str_contains(ts, "ksampler");
            let a = str_contains(ts, "acestep") && (str_contains(ts, "audio") || str_contains(
                ts,
                "latent",
            ));
            proof {
                let tl = type_lower(ns[i as int].1);
                assert(tl == t@);
                if s {
                    assert(contains_seq(tl, "ksampler"@));
                }
                if a {
                    assert(is_audio_type(tl));
                }
                if !has_sampler && !s {
                    assert forall|k: int|
                        0 <= k < i + 1 && !is_bypassed_spec(ns[k].1) implies !contains_seq(
                        #[trigger] type_lower(ns[k].1),
                        "ksampler"@,
                    ) by {
                        if k < i {
                        }
                    }
                }
                if !has_audio && !a {
                    assert forall|k: int|
                        0 <= k < i + 1 && !is_bypassed_spec(ns[k].1) implies !is_audio_type(
                        #[trigger] type_lower(ns[k].1),
                    ) by {
                        if k < i {
                        }
                    }
                }
            }
            has_sampler = has_sampler || s;
            has_audio = has_audio || a;
        }
    }
    assert(none_blocking(ns));
    assert(has_sampler == some_sampler(ns));
    assert(has_audio == some_audio_node(ns));
    has_sampler && has_audio
}

} // verus!
