//! Editing the model chain of a visual workflow: taking a LoRA loader out of it and
//! putting a new one in, with the links rewired.
use vstd::prelude::*;
use crate::json::{
    entries_get, entries_insert, entries_put, entries_replace, entries_set, entry_models,
    items_with, jarr, jget, jindex, json_duplicate, json_equal, lemma_entry_models_index,
    lemma_entry_models_len, lemma_models_index, lemma_models_len, models, oarr, oi64, ostr, Json,
    JsonModel,
};
use crate::text::{int_text, i64_text};
use super::updater::{eq_ic, json_opt};

verus! {

/// `json!(n)` for an integer.
pub open spec fn num(n: i64) -> JsonModel {
    JsonModel::Number(int_text(n as int))
}

/// A link `[id, from, slot, to, slot, type]` whose id is `n`.
pub open spec fn head_is(link: JsonModel, n: i64) -> bool {
    jindex(link, 0) == Some(num(n))
}

pub open spec fn first_with_head(ls: Seq<JsonModel>, n: i64) -> Option<int>
    decreases ls.len(),
{
    if ls.len() == 0 {
        None
    } else if head_is(ls[0], n) {
        Some(0)
    } else {
        match first_with_head(ls.drop_first(), n) {
            Some(k) => Some(k + 1),
            None => None,
        }
    }
}

/// A node whose integer id prints as `id`.
pub open spec fn id_reads(node: JsonModel, id: Seq<char>) -> bool {
    match oi64(jget(node, "id"@)) {
        Some(x) => int_text(x as int) == id,
        None => false,
    }
}

pub open spec fn first_node_reading(ns: Seq<JsonModel>, id: Seq<char>) -> Option<int>
    decreases ns.len(),
{
    if ns.len() == 0 {
        None
    } else if id_reads(ns[0], id) {
        Some(0)
    } else {
        match first_node_reading(ns.drop_first(), id) {
            Some(k) => Some(k + 1),
            None => None,
        }
    }
}

/// A node whose id is the number `n`.
pub open spec fn id_is(node: JsonModel, n: i64) -> bool {
    jget(node, "id"@) == Some(num(n))
}

pub open spec fn first_node_with_id(ns: Seq<JsonModel>, n: i64) -> Option<int>
    decreases ns.len(),
{
    if ns.len() == 0 {
        None
    } else if id_is(ns[0], n) {
        Some(0)
    } else {
        match first_node_with_id(ns.drop_first(), n) {
            Some(k) => Some(k + 1),
            None => None,
        }
    }
}

/// An input named `model`, in any case.
pub open spec fn is_model_named(input: JsonModel) -> bool {
    match ostr(jget(input, "name"@)) {
        Some(nm) => eq_ic(nm, "model"@),
        None => false,
    }
}

pub open spec fn first_model_input(inputs: Seq<JsonModel>) -> Option<int>
    decreases inputs.len(),
{
    if inputs.len() == 0 {
        None
    } else if is_model_named(inputs[0]) {
        Some(0)
    } else {
        match first_model_input(inputs.drop_first()) {
            Some(k) => Some(k + 1),
            None => None,
        }
    }
}

/// The integer link of the first model input that has one.
pub open spec fn first_model_link(inputs: Seq<JsonModel>) -> Option<i64>
    decreases inputs.len(),
{
    if inputs.len() == 0 {
        None
    } else if is_model_named(inputs[0]) && oi64(jget(inputs[0], "link"@)).is_some() {
        oi64(jget(inputs[0], "link"@))
    } else {
        first_model_link(inputs.drop_first())
    }
}

/// The first link of the first output of a node, when it is an integer.
pub open spec fn first_output_link(node: JsonModel) -> Option<i64> {
    match oarr(jget(node, "outputs"@)) {
        Some(os) => if os.len() > 0 {
            match oarr(jget(os[0], "links"@)) {
                Some(ls) => if ls.len() > 0 {
                    crate::json::ji64(ls[0])
                } else {
                    None
                },
                None => None,
            }
        } else {
            None
        },
        None => None,
    }
}

/// The links without those whose id is `n`.
pub open spec fn drop_head(ls: Seq<JsonModel>, n: i64) -> Seq<JsonModel>
    decreases ls.len(),
{
    if ls.len() == 0 {
        ls
    } else {
        let rest = drop_head(ls.drop_last(), n);
        if head_is(ls.last(), n) {
            rest
        } else {
            rest.push(ls.last())
        }
    }
}

/// The values without the integer `n`.
pub open spec fn drop_value(ls: Seq<JsonModel>, n: i64) -> Seq<JsonModel>
    decreases ls.len(),
{
    if ls.len() == 0 {
        ls
    } else {
        let rest = drop_value(ls.drop_last(), n);
        if crate::json::ji64(ls.last()) == Some(n) {
            rest
        } else {
            rest.push(ls.last())
        }
    }
}

/// An object with its first member named `key` given `value`.
pub open spec fn with_member(v: JsonModel, key: Seq<char>, value: JsonModel) -> JsonModel {
    match v {
        JsonModel::Object(es) => JsonModel::Object(entries_set(es, key, value)),
        _ => v,
    }
}

/// An object with `key` set to `value`, added in key order when it is missing
/// (`value[key] = ...`).
pub open spec fn with_key(v: JsonModel, key: Seq<char>, value: JsonModel) -> JsonModel {
    match v {
        JsonModel::Object(es) => JsonModel::Object(entries_insert(es, key, value)),
        _ => v,
    }
}

/// An array with element `i` set to `value`.
pub open spec fn with_element(v: JsonModel, i: int, value: JsonModel) -> JsonModel {
    match v {
        JsonModel::Array(items) => if 0 <= i < items.len() {
            JsonModel::Array(items.update(i, value))
        } else {
            v
        },
        _ => v,
    }
}

/// The node list of the document without node `k`.
pub open spec fn without_node(es: Seq<(Seq<char>, JsonModel)>, k: int) -> Seq<(Seq<char>, JsonModel)> {
    match oarr(entries_get(es, "nodes"@)) {
        Some(ns) => entries_set(es, "nodes"@, JsonModel::Array(ns.remove(k))),
        None => es,
    }
}

/// The first link of the first output of a node with the value `n` dropped.
pub open spec fn drop_output_link(node: JsonModel, n: i64) -> JsonModel {
    match oarr(jget(node, "outputs"@)) {
        Some(os) => if os.len() > 0 {
            match oarr(jget(os[0], "links"@)) {
                Some(pl) => with_member(
                    node,
                    "outputs"@,
                    JsonModel::Array(
                        os.update(0, with_member(os[0], "links"@, JsonModel::Array(drop_value(pl, n)))),
                    ),
                ),
                None => node,
            }
        } else {
            node
        },
        None => node,
    }
}

/// The node being taken out of the chain: its place, its incoming model link and its
/// first outgoing link.
pub open spec fn removal_target(v: JsonModel, id: Seq<char>) -> Option<(int, i64, Option<i64>)> {
    match v {
        JsonModel::Object(es) => match oarr(entries_get(es, "nodes"@)) {
            Some(ns) => match first_node_reading(ns, id) {
                Some(k) => match oarr(jget(ns[k], "inputs"@)) {
                    Some(ins) => match first_model_link(ins) {
                        Some(inc) => Some((k, inc, first_output_link(ns[k]))),
                        None => None,
                    },
                    None => None,
                },
                None => None,
            },
            None => None,
        },
        _ => None,
    }
}

/// The node that the outgoing link leads to.
pub open spec fn removal_successor(es: Seq<(Seq<char>, JsonModel)>, out: Option<i64>) -> Option<i64> {
    match out {
        Some(o) => match oarr(entries_get(es, "links"@)) {
            Some(ls) => match first_with_head(ls, o) {
                Some(j) => oi64(jindex(ls[j], 3)),
                None => None,
            },
            None => None,
        },
        None => None,
    }
}

/// Whether taking the node out would write past the end of its incoming link, which
/// the removal does not allow.
pub open spec fn removal_panics(v: JsonModel, id: Seq<char>) -> bool {
    match (v, removal_target(v, id)) {
        (JsonModel::Object(es), Some((k, inc, out))) => match removal_successor(es, out) {
            Some(s) => match oarr(entries_get(es, "links"@)) {
                Some(ls) => match first_with_head(ls, inc) {
                    Some(j) => match jarr(ls[j]) {
                        Some(link) => link.len() <= 3,
                        None => false,
                    },
                    None => false,
                },
                None => false,
            },
            None => false,
        },
        _ => false,
    }
}

/// The removal when the node feeds a successor `s`.
pub open spec fn removal_with_successor(
    es: Seq<(Seq<char>, JsonModel)>,
    ns: Seq<JsonModel>,
    k: int,
    inc: i64,
    out: Option<i64>,
    s: i64,
) -> Option<JsonModel> {
    match first_node_with_id(ns, s) {
        None => None,
        Some(k2) => match oarr(jget(ns[k2], "inputs"@)) {
            None => None,
            Some(ins) => match first_model_input(ins) {
                None => None,
                Some(m) => {
                    let ins2 = ins.update(m, with_key(ins[m], "link"@, num(inc)));
                    let ns2 = ns.update(k2, with_member(ns[k2], "inputs"@, JsonModel::Array(ins2)));
                    let es2 = entries_set(es, "nodes"@, JsonModel::Array(ns2));
                    let es3 = match oarr(entries_get(es, "links"@)) {
                        Some(ls) => {
                            let ls2 = match first_with_head(ls, inc) {
                                Some(j) => ls.update(j, with_element(ls[j], 3, num(s))),
                                None => ls,
                            };
                            let ls3 = match out {
                                Some(o) => drop_head(ls2, o),
                                None => ls2,
                            };
                            entries_set(es2, "links"@, JsonModel::Array(ls3))
                        },
                        None => es2,
                    };
                    Some(JsonModel::Object(without_node(es3, k)))
                },
            },
        },
    }
}

/// The removal when the node feeds nothing.
pub open spec fn removal_without_successor(
    es: Seq<(Seq<char>, JsonModel)>,
    ns: Seq<JsonModel>,
    k: int,
    inc: i64,
) -> Option<JsonModel> {
    match oarr(entries_get(es, "links"@)) {
        None => None,
        Some(ls) => {
            let pred = match first_with_head(ls, inc) {
                Some(j) => oi64(jindex(ls[j], 1)),
                None => None,
            };
            let es2 = entries_set(es, "links"@, JsonModel::Array(drop_head(ls, inc)));
            let es3 = match pred {
                Some(p) => match first_node_with_id(ns, p) {
                    Some(pk) => entries_set(
                        es2,
                        "nodes"@,
                        JsonModel::Array(ns.update(pk, drop_output_link(ns[pk], inc))),
                    ),
                    None => es2,
                },
                None => es2,
            };
            Some(JsonModel::Object(without_node(es3, k)))
        },
    }
}

/// Taking the LoRA node with id `id` out of a visual workflow's model chain. With a
/// successor (the node its first output feeds), the successor's model input takes the
/// removed node's incoming link, that link is redirected to the successor and the
/// outgoing link is dropped; without one, the incoming link is dropped, also from the
/// outputs of the node it came from. `None` (nothing changes) when the document has no
/// such node, the node has no incoming model link, or the successor or its model input
/// cannot be found, or, without a successor, the document has no link list.
pub open spec fn remove_visual_spec(v: JsonModel, id: Seq<char>) -> Option<JsonModel> {
    match (v, removal_target(v, id)) {
        (JsonModel::Object(es), Some((k, inc, out))) => {
            let ns = oarr(entries_get(es, "nodes"@)).unwrap();
            match removal_successor(es, out) {
                Some(s) => removal_with_successor(es, ns, k, inc, out, s),
                None => removal_without_successor(es, ns, k, inc),
            }
        },
        _ => None,
    }
}

fn num_exec(n: i64) -> (r: Json)
    ensures
        r.model() == num(n),
{
    Json::from_i64(n)
}

fn head_is_exec(link: &Json, n: i64) -> (r: bool)
    ensures
        r == head_is(link.model(), n),
{
    match link.at(0) {
        Some(x) => json_equal(x, &num_exec(n)),
        None => false,
    }
}

fn first_with_head_exec(ls: &Vec<Json>, n: i64) -> (r: Option<usize>)
    ensures
        match r {
            Some(j) => first_with_head(models(ls@), n) == Some(j as int) && j < ls.len(),
            None => first_with_head(models(ls@), n).is_none(),
        },
{
    let ghost m = models(ls@);
    proof {
        lemma_models_len(ls@);
    }
    assert(m.skip(0) =~= m);
    let k = ls.len();
    for i in 0..k
        invariant
            k == ls.len(),
            m == models(ls@),
            m.len() == k,
            first_with_head(m, n) == match first_with_head(m.skip(i as int), n) {
                Some(x) => Some(x + i),
                None => None,
            },
    {
        proof {
            lemma_models_index(ls@, i as int);
        }
        assert(m.skip(i as int)[0] == m[i as int]);
        assert(m.skip(i as int).drop_first() =~= m.skip(i + 1));
        if head_is_exec(&ls[i], n) {
            return Some(i);
        }
    }
    assert(m.skip(k as int).len() == 0);
    None
}

fn id_reads_exec(node: &Json, id: &str) -> (r: bool)
    ensures
        r == id_reads(node.model(), id@),
{
    match node.get("id") {
        Some(x) => match x.as_i64() {
            Some(v) => {
                let t = i64_text(v);
                crate::json::text_eq(t.as_str(), id)
            },
            None => false,
        },
        None => false,
    }
}

fn first_node_reading_exec(ns: &Vec<Json>, id: &str) -> (r: Option<usize>)
    ensures
        match r {
            Some(j) => first_node_reading(models(ns@), id@) == Some(j as int) && j < ns.len(),
            None => first_node_reading(models(ns@), id@).is_none(),
        },
{
    let ghost m = models(ns@);
    proof {
        lemma_models_len(ns@);
    }
    assert(m.skip(0) =~= m);
    let k = ns.len();
    for i in 0..k
        invariant
            k == ns.len(),
            m == models(ns@),
            m.len() == k,
            first_node_reading(m, id@) == match first_node_reading(m.skip(i as int), id@) {
                Some(x) => Some(x + i),
                None => None,
            },
    {
        proof {
            lemma_models_index(ns@, i as int);
        }
        assert(m.skip(i as int)[0] == m[i as int]);
        assert(m.skip(i as int).drop_first() =~= m.skip(i + 1));
        if id_reads_exec(&ns[i], id) {
            return Some(i);
        }
    }
    assert(m.skip(k as int).len() == 0);
    None
}

fn id_is_exec(node: &Json, n: i64) -> (r: bool)
    ensures
        r == id_is(node.model(), n),
{
    match node.get("id") {
        Some(x) => json_equal(x, &num_exec(n)),
        None => false,
    }
}

pub fn first_node_with_id_exec(ns: &Vec<Json>, n: i64) -> (r: Option<usize>)
    ensures
        match r {
            Some(j) => first_node_with_id(models(ns@), n) == Some(j as int) && j < ns.len(),
            None => first_node_with_id(models(ns@), n).is_none(),
        },
{
    let ghost m = models(ns@);
    proof {
        lemma_models_len(ns@);
    }
    assert(m.skip(0) =~= m);
    let k = ns.len();
    for i in 0..k
        invariant
            k == ns.len(),
            m == models(ns@),
            m.len() == k,
            first_node_with_id(m, n) == match first_node_with_id(m.skip(i as int), n) {
                Some(x) => Some(x + i),
                None => None,
            },
    {
        proof {
            lemma_models_index(ns@, i as int);
        }
        assert(m.skip(i as int)[0] == m[i as int]);
        assert(m.skip(i as int).drop_first() =~= m.skip(i + 1));
        if id_is_exec(&ns[i], n) {
            return Some(i);
        }
    }
    assert(m.skip(k as int).len() == 0);
    None
}

fn is_model_named_exec(input: &Json) -> (r: bool)
    ensures
        r == is_model_named(input.model()),
{
    match input.get("name") {
        Some(Json::Str(nm)) => crate::text::eq_ignore_ascii_case(nm.as_str(), "model"),
        _ => false,
    }
}

fn first_model_input_exec(inputs: &Vec<Json>) -> (r: Option<usize>)
    ensures
        match r {
            Some(j) => first_model_input(models(inputs@)) == Some(j as int) && j < inputs.len(),
            None => first_model_input(models(inputs@)).is_none(),
        },
{
    let ghost m = models(inputs@);
    proof {
        lemma_models_len(inputs@);
    }
    assert(m.skip(0) =~= m);
    let k = inputs.len();
    for i in 0..k
        invariant
            k == inputs.len(),
            m == models(inputs@),
            m.len() == k,
            first_model_input(m) == match first_model_input(m.skip(i as int)) {
                Some(x) => Some(x + i),
                None => None,
            },
    {
        proof {
            lemma_models_index(inputs@, i as int);
        }
        assert(m.skip(i as int)[0] == m[i as int]);
        assert(m.skip(i as int).drop_first() =~= m.skip(i + 1));
        if is_model_named_exec(&inputs[i]) {
            return Some(i);
        }
    }
    assert(m.skip(k as int).len() == 0);
    None
}

fn first_model_link_exec(inputs: &Vec<Json>) -> (r: Option<i64>)
    ensures
        r == first_model_link(models(inputs@)),
{
    let ghost m = models(inputs@);
    proof {
        lemma_models_len(inputs@);
    }
    assert(m.skip(0) =~= m);
    let k = inputs.len();
    for i in 0..k
        invariant
            k == inputs.len(),
            m == models(inputs@),
            m.len() == k,
            first_model_link(m) == first_model_link(m.skip(i as int)),
    {
        proof {
            lemma_models_index(inputs@, i as int);
        }
        assert(m.skip(i as int)[0] == m[i as int]);
        assert(m.skip(i as int).drop_first() =~= m.skip(i + 1));
        if is_model_named_exec(&inputs[i]) {
            match inputs[i].get("link") {
                Some(l) => match l.as_i64() {
                    Some(x) => {
                        return Some(x);
                    },
                    None => {},
                },
                None => {},
            }
        }
    }
    assert(m.skip(k as int).len() == 0);
    None
}

fn first_output_link_exec(node: &Json) -> (r: Option<i64>)
    ensures
        r == first_output_link(node.model()),
{
    match node.get("outputs") {
        Some(Json::Array(os)) => {
            proof {
                lemma_models_len(os@);
            }
            if os.len() == 0 {
                return None;
            }
            proof {
                lemma_models_index(os@, 0);
            }
            match os[0].get("links") {
                Some(Json::Array(ls)) => {
                    proof {
                        lemma_models_len(ls@);
                    }
                    if ls.len() == 0 {
                        return None;
                    }
                    proof {
                        lemma_models_index(ls@, 0);
                    }
                    ls[0].as_i64()
                },
                _ => None,
            }
        },
        _ => None,
    }
}

fn drop_head_exec(ls: &Vec<Json>, n: i64) -> (r: Vec<Json>)
    ensures
        models(r@) == drop_head(models(ls@), n),
{
    let ghost m = models(ls@);
    proof {
        lemma_models_len(ls@);
    }
    let mut out: Vec<Json> = Vec::new();
    assert(models(out@) =~= Seq::<JsonModel>::empty());
    let k = ls.len();
    for i in 0..k
        invariant
            k == ls.len(),
            m == models(ls@),
            m.len() == k,
            models(out@) == drop_head(m.take(i as int), n),
    {
        proof {
            lemma_models_index(ls@, i as int);
        }
        assert(m.take(i + 1).drop_last() =~= m.take(i as int));
        let ghost before = out@;
        if !head_is_exec(&ls[i], n) {
            out.push(json_duplicate(&ls[i]));
            proof {
                lemma_models_len(before);
                lemma_models_len(out@);
                assert forall|j: int| 0 <= j < before.len() implies models(out@)[j] == models(before)[j] by {
                    lemma_models_index(out@, j);
                    lemma_models_index(before, j);
                }
                lemma_models_index(out@, before.len() as int);
            }
            assert(models(out@) =~= models(before).push(m[i as int]));
        }
    }
    assert(m.take(k as int) =~= m);
    out
}

fn drop_value_exec(ls: &Vec<Json>, n: i64) -> (r: Vec<Json>)
    ensures
        models(r@) == drop_value(models(ls@), n),
{
    let ghost m = models(ls@);
    proof {
        lemma_models_len(ls@);
    }
    let mut out: Vec<Json> = Vec::new();
    assert(models(out@) =~= Seq::<JsonModel>::empty());
    let k = ls.len();
    for i in 0..k
        invariant
            k == ls.len(),
            m == models(ls@),
            m.len() == k,
            models(out@) == drop_value(m.take(i as int), n),
    {
        proof {
            lemma_models_index(ls@, i as int);
        }
        assert(m.take(i + 1).drop_last() =~= m.take(i as int));
        let ghost before = out@;
        if ls[i].as_i64() != Some(n) {
            out.push(json_duplicate(&ls[i]));
            proof {
                lemma_models_len(before);
                lemma_models_len(out@);
                assert forall|j: int| 0 <= j < before.len() implies models(out@)[j] == models(before)[j] by {
                    lemma_models_index(out@, j);
                    lemma_models_index(before, j);
                }
                lemma_models_index(out@, before.len() as int);
            }
            assert(models(out@) =~= models(before).push(m[i as int]));
        }
    }
    assert(m.take(k as int) =~= m);
    out
}

fn with_member_exec(v: &Json, key: &str, value: Json) -> (r: Json)
    ensures
        r.model() == with_member(v.model(), key@, value.model()),
{
    match v {
        Json::Object(es) => {
            let mut out = super::clone_entries(es);
            entries_replace(&mut out, key, value);
            Json::Object(out)
        },
        _ => json_duplicate(v),
    }
}

fn with_key_exec(v: &Json, key: &str, value: Json) -> (r: Json)
    ensures
        r.model() == with_key(v.model(), key@, value.model()),
{
    match v {
        Json::Object(es) => {
            let mut out = super::clone_entries(es);
            entries_put(&mut out, String::from_str(key), value);
            Json::Object(out)
        },
        _ => json_duplicate(v),
    }
}

fn with_element_exec(v: &Json, i: usize, value: Json) -> (r: Json)
    ensures
        r.model() == with_element(v.model(), i as int, value.model()),
{
    match v {
        Json::Array(items) => {
            proof {
                lemma_models_len(items@);
            }
            if i < items.len() {
                Json::Array(items_with(items, i, value))
            } else {
                json_duplicate(v)
            }
        },
        _ => json_duplicate(v),
    }
}

fn items_without(items: &Vec<Json>, k: usize) -> (r: Vec<Json>)
    requires
        k < items.len(),
    ensures
        models(r@) == models(items@).remove(k as int),
{
    let mut out: Vec<Json> = Vec::new();
    let n = items.len();
    for i in 0..n
        invariant
            n == items.len(),
            k < n,
            out.len() == if i <= k {
                i as int
            } else {
                i - 1
            },
            forall|j: int| 0 <= j < out.len() ==> out@[j].model() == items@[if j < k {
                j
            } else {
                j + 1
            }].model(),
    {
        if i != k {
            out.push(json_duplicate(&items[i]));
        }
    }
    proof {
        lemma_models_len(out@);
        lemma_models_len(items@);
        assert forall|j: int| 0 <= j < out.len() implies models(out@)[j] == models(items@).remove(
            k as int,
        )[j] by {
            lemma_models_index(out@, j);
            if j < k {
                lemma_models_index(items@, j);
            } else {
                lemma_models_index(items@, j + 1);
            }
        }
    }
    assert(models(out@) =~= models(items@).remove(k as int));
    out
}

fn without_node_exec(es: &Vec<(String, Json)>, k: usize) -> (r: Vec<(String, Json)>)
    requires
        match oarr(entries_get(entry_models(es@), "nodes"@)) {
            Some(ns) => k < ns.len(),
            None => true,
        },
    ensures
        entry_models(r@) == without_node(entry_models(es@), k as int),
{
    let mut out = super::clone_entries(es);
    match crate::json::entries_find(es, "nodes") {
        Some(Json::Array(ns)) => {
            proof {
                lemma_models_len(ns@);
            }
            let rest = items_without(ns, k);
            entries_replace(&mut out, "nodes", Json::Array(rest));
        },
        _ => {},
    }
    out
}

fn remove_with_successor(
    es: &Vec<(String, Json)>,
    ns: &Vec<Json>,
    k: usize,
    inc: i64,
    out: Option<i64>,
    s: i64,
) -> (r: Option<Json>)
    requires
        oarr(entries_get(entry_models(es@), "nodes"@)) == Some(models(ns@)),
        k < ns.len(),
        match oarr(entries_get(entry_models(es@), "links"@)) {
            Some(ls) => match first_with_head(ls, inc) {
                Some(j) => match jarr(ls[j]) {
                    Some(link) => link.len() > 3,
                    None => true,
                },
                None => true,
            },
            None => true,
        },
    ensures
        json_opt(r) == removal_with_successor(entry_models(es@), models(ns@), k as int, inc, out, s),
{
    let ghost em = entry_models(es@);
    proof {
        lemma_models_len(ns@);
    }
    let k2 = match first_node_with_id_exec(ns, s) {
        Some(k2) => k2,
        None => {
            return None;
        },
    };
    proof {
        lemma_models_index(ns@, k2 as int);
    }
    let ins = match ns[k2].get("inputs") {
        Some(Json::Array(ins)) => ins,
        _ => {
            return None;
        },
    };
    let m = match first_model_input_exec(ins) {
        Some(m) => m,
        None => {
            return None;
        },
    };
    proof {
        lemma_models_len(ins@);
        lemma_models_index(ins@, m as int);
    }
    let input2 = with_key_exec(&ins[m], "link", num_exec(inc));
    let ins2 = items_with(ins, m, input2);
    let node2 = with_member_exec(&ns[k2], "inputs", Json::Array(ins2));
    let ns2 = items_with(ns, k2, node2);
    let ghost n2 = models(ns2@);
    proof {
        lemma_models_len(ns2@);
    }
    let mut es2 = super::clone_entries(es);
    entries_replace(&mut es2, "nodes", Json::Array(ns2));
    proof {
        crate::json::lemma_get_after_set(em, "nodes"@, JsonModel::Array(n2), "nodes"@);
        crate::json::lemma_get_after_set(em, "nodes"@, JsonModel::Array(n2), "links"@);
        reveal_strlit("nodes");
        reveal_strlit("links");
    }
    let ghost em2 = entry_models(es2@);
    match crate::json::entries_find(es, "links") {
        Some(Json::Array(ls)) => {
            proof {
                lemma_models_len(ls@);
            }
            let ls2 = match first_with_head_exec(ls, inc) {
                Some(j) => {
                    proof {
                        lemma_models_index(ls@, j as int);
                    }
                    let l = with_element_exec(&ls[j], 3, num_exec(s));
                    items_with(ls, j, l)
                },
                None => crate::json::copy_items(ls),
            };
            let ls3 = match out {
                Some(o) => drop_head_exec(&ls2, o),
                None => ls2,
            };
            let ghost l3 = models(ls3@);
            entries_replace(&mut es2, "links", Json::Array(ls3));
            proof {
                crate::json::lemma_get_after_set(em2, "links"@, JsonModel::Array(l3), "nodes"@);
            }
        },
        _ => {},
    }
    assert(n2.len() == models(ns@).len());
    assert(entries_get(em, "nodes"@).is_some());
    assert("nodes"@ != "links"@) by {
        reveal_strlit("nodes");
        reveal_strlit("links");
        assert("nodes"@[0] != "links"@[0]);
    }
    assert(entries_get(em2, "nodes"@) == Some(JsonModel::Array(n2)));
    assert(entries_get(entry_models(es2@), "nodes"@) == Some(JsonModel::Array(n2)));
    Some(Json::Object(without_node_exec(&es2, k)))
}

fn remove_without_successor(es: &Vec<(String, Json)>, ns: &Vec<Json>, k: usize, inc: i64) -> (r:
    Option<Json>)
    requires
        oarr(entries_get(entry_models(es@), "nodes"@)) == Some(models(ns@)),
        k < ns.len(),
    ensures
        json_opt(r) == removal_without_successor(entry_models(es@), models(ns@), k as int, inc),
{
    let ghost em = entry_models(es@);
    proof {
        lemma_models_len(ns@);
    }
    let ls = match crate::json::entries_find(es, "links") {
        Some(Json::Array(ls)) => ls,
        _ => {
            return None;
        },
    };
    proof {
        lemma_models_len(ls@);
    }
    let pred: Option<i64> = match first_with_head_exec(ls, inc) {
        Some(j) => {
            proof {
                lemma_models_index(ls@, j as int);
            }
            match ls[j].at(1) {
                Some(x) => x.as_i64(),
                None => None,
            }
        },
        None => None,
    };
    let kept = drop_head_exec(ls, inc);
    let ghost l2 = models(kept@);
    let mut es2 = super::clone_entries(es);
    entries_replace(&mut es2, "links", Json::Array(kept));
    proof {
        crate::json::lemma_get_after_set(em, "links"@, JsonModel::Array(l2), "nodes"@);
        reveal_strlit("nodes");
        reveal_strlit("links");
        assert("nodes"@[0] != "links"@[0]);
    }
    let ghost em2 = entry_models(es2@);
    match pred {
        Some(p) => match first_node_with_id_exec(ns, p) {
            Some(pk) => {
                proof {
                    lemma_models_index(ns@, pk as int);
                }
                let node2 = drop_output_link_exec(&ns[pk], inc);
                let ns2 = items_with(ns, pk, node2);
                let ghost n2 = models(ns2@);
                proof {
                    lemma_models_len(ns2@);
                }
                entries_replace(&mut es2, "nodes", Json::Array(ns2));
                proof {
                    crate::json::lemma_get_after_set(em2, "nodes"@, JsonModel::Array(n2), "nodes"@);
                }
            },
            None => {},
        },
        None => {},
    }
    Some(Json::Object(without_node_exec(&es2, k)))
}

/// Takes the LoRA node `node_id` out of a visual workflow's model chain (see
/// `remove_visual_spec`); `None` when nothing changes.
pub fn remove_visual_lora(value: &Json, node_id: &str) -> (r: Option<Json>)
    requires
        !removal_panics(value.model(), node_id@),
    ensures
        json_opt(r) == remove_visual_spec(value.model(), node_id@),
{
    let es = match value {
        Json::Object(es) => es,
        _ => {
            return None;
        },
    };
    let ghost em = entry_models(es@);
    let ns = match crate::json::entries_find(es, "nodes") {
        Some(Json::Array(ns)) => ns,
        _ => {
            return None;
        },
    };
    proof {
        lemma_models_len(ns@);
    }
    let k = match first_node_reading_exec(ns, node_id) {
        Some(k) => k,
        None => {
            return None;
        },
    };
    proof {
        lemma_models_index(ns@, k as int);
    }
    let inc = match ns[k].get("inputs") {
        Some(Json::Array(ins)) => match first_model_link_exec(ins) {
            Some(x) => x,
            None => {
                return None;
            },
        },
        _ => {
            return None;
        },
    };
    let out = first_output_link_exec(&ns[k]);
    assert(removal_target(value.model(), node_id@) == Some((k as int, inc, out)));
    let succ: Option<i64> = match out {
        Some(o) => match crate::json::entries_find(es, "links") {
            Some(Json::Array(ls)) => match first_with_head_exec(ls, o) {
                Some(j) => {
                    proof {
                        lemma_models_index(ls@, j as int);
                    }
                    match ls[j].at(3) {
                        Some(x) => x.as_i64(),
                        None => None,
                    }
                },
                None => None,
            },
            _ => None,
        },
        None => None,
    };
    assert(succ == removal_successor(em, out));
    match succ {
        Some(s) => remove_with_successor(es, ns, k, inc, out, s),
        None => remove_without_successor(es, ns, k, inc),
    }
}

fn drop_output_link_exec(node: &Json, n: i64) -> (r: Json)
    ensures
        r.model() == drop_output_link(node.model(), n),
{
    match node.get("outputs") {
        Some(Json::Array(os)) => {
            proof {
                lemma_models_len(os@);
            }
            if os.len() == 0 {
                return json_duplicate(node);
            }
            proof {
                lemma_models_index(os@, 0);
            }
            match os[0].get("links") {
                Some(Json::Array(pl)) => {
                    let kept = drop_value_exec(pl, n);
                    let first = with_member_exec(&os[0], "links", Json::Array(kept));
                    let os2 = items_with(os, 0, first);
                    with_member_exec(node, "outputs", Json::Array(os2))
                },
                _ => json_duplicate(node),
            }
        },
        _ => json_duplicate(node),
    }
}


/// `json!(n)` for a mathematical integer.
pub open spec fn numi(n: int) -> JsonModel {
    JsonModel::Number(int_text(n))
}

/// The largest integer node id of a node list.
pub open spec fn max_node_id(ns: Seq<JsonModel>) -> Option<i64>
    decreases ns.len(),
{
    if ns.len() == 0 {
        None
    } else {
        let rest = max_node_id(ns.drop_last());
        match oi64(jget(ns.last(), "id"@)) {
            Some(x) => match rest {
                Some(m) => Some(
                    if x > m {
                        x
                    } else {
                        m
                    },
                ),
                None => Some(x),
            },
            None => rest,
        }
    }
}

/// The id a new node gets: one past the largest integer id, 1 when there is none.
pub open spec fn next_node_id(ns: Seq<JsonModel>) -> int {
    match max_node_id(ns) {
        Some(m) => m + 1,
        None => 1,
    }
}

/// The id a new link gets: one past `last_link_id`, else one past `fallback`.
pub open spec fn next_link_id(es: Seq<(Seq<char>, JsonModel)>, fallback: i64) -> int {
    match oi64(entries_get(es, "last_link_id"@)) {
        Some(l) => l + 1,
        None => fallback + 1,
    }
}

/// A visual LoRA node showing `file` and strength 1.0: its first widget value becomes the
/// file name and its second the number 1.0, where it has them. `None` when it has no
/// widget list.
pub open spec fn with_widgets(node: JsonModel, file: Seq<char>) -> Option<JsonModel> {
    match oarr(jget(node, "widgets_values"@)) {
        Some(wv) => {
            let w1 = if wv.len() > 0 {
                wv.update(0, JsonModel::Str(file))
            } else {
                wv
            };
            let w2 = if w1.len() > 1 {
                w1.update(1, super::updater::unit_strength())
            } else {
                w1
            };
            Some(with_member(node, "widgets_values"@, JsonModel::Array(w2)))
        },
        None => None,
    }
}

/// The text of the two coordinates of a node position.
pub open spec fn pos_model(pos: Option<(String, String)>) -> Option<(Seq<char>, Seq<char>)> {
    match pos {
        Some((x, y)) => Some((x@, y@)),
        None => None,
    }
}

/// The template made into the new node: id `id`, position `pos` when one is given, and
/// the widgets of `with_widgets`.
pub open spec fn prepared_node(
    template: JsonModel,
    id: int,
    file: Seq<char>,
    pos: Option<(Seq<char>, Seq<char>)>,
) -> Option<JsonModel> {
    let n1 = with_key(template, "id"@, numi(id));
    let n2 = match pos {
        Some((x, y)) => with_key(
            n1,
            "pos"@,
            JsonModel::Array(seq![JsonModel::Number(x), JsonModel::Number(y)]),
        ),
        None => n1,
    };
    with_widgets(n2, file)
}

/// A node whose first model input reads link `n`.
pub open spec fn with_model_link(node: JsonModel, n: int) -> JsonModel {
    match oarr(jget(node, "inputs"@)) {
        Some(ins) => match first_model_input(ins) {
            Some(m) => with_member(
                node,
                "inputs"@,
                JsonModel::Array(ins.update(m, with_key(ins[m], "link"@, numi(n)))),
            ),
            None => node,
        },
        None => node,
    }
}

/// A node whose first output's first link is `n`, where it has one.
pub open spec fn with_output_link(node: JsonModel, n: int) -> JsonModel {
    match oarr(jget(node, "outputs"@)) {
        Some(os) => if os.len() > 0 {
            match oarr(jget(os[0], "links"@)) {
                Some(pl) => if pl.len() > 0 {
                    with_member(
                        node,
                        "outputs"@,
                        JsonModel::Array(
                            os.update(
                                0,
                                with_member(os[0], "links"@, JsonModel::Array(pl.update(0, numi(n)))),
                            ),
                        ),
                    )
                } else {
                    node
                },
                None => node,
            }
        } else {
            node
        },
        None => node,
    }
}

/// Whether the first output of a node has an empty link list.
pub open spec fn output_links_empty(node: JsonModel) -> bool {
    match oarr(jget(node, "outputs"@)) {
        Some(os) => os.len() > 0 && match oarr(jget(os[0], "links"@)) {
            Some(pl) => pl.len() == 0,
            None => false,
        },
        None => false,
    }
}

/// What the insertion reads before it writes anything: the members, the node list, the
/// id of the LoRA it goes after, that node's place and first outgoing link, and the new
/// node. `None` when one of them is missing.
pub open spec fn insertion_plan(
    v: JsonModel,
    last: Seq<char>,
    template: JsonModel,
    file: Seq<char>,
    pos: Option<(Seq<char>, Seq<char>)>,
) -> Option<(Seq<(Seq<char>, JsonModel)>, Seq<JsonModel>, i64, int, i64, JsonModel)> {
    match v {
        JsonModel::Object(es) => match oarr(entries_get(es, "nodes"@)) {
            Some(ns) => match crate::text::parse_i64_seq(last) {
                Some(lid) => match prepared_node(template, next_node_id(ns), file, pos) {
                    Some(node) => match first_node_with_id(ns, lid) {
                        Some(k0) => match first_output_link(ns[k0]) {
                            Some(old) => Some((es, ns, lid, k0, old, node)),
                            None => None,
                        },
                        None => None,
                    },
                    None => None,
                },
                None => None,
            },
            None => None,
        },
        _ => None,
    }
}

/// The link list, the place of the link `old` in it and that link's type.
pub open spec fn link_type_of(es: Seq<(Seq<char>, JsonModel)>, old: i64) -> Option<
    (Seq<JsonModel>, int, JsonModel),
> {
    match oarr(entries_get(es, "links"@)) {
        Some(ls) => match first_with_head(ls, old) {
            Some(j) => match jindex(ls[j], 5) {
                Some(kind) => Some((ls, j, kind)),
                None => None,
            },
            None => None,
        },
        None => None,
    }
}

/// Putting a new LoRA node, made from `template`, into a visual workflow's model chain
/// right after the LoRA `last`. The node gets the next node id and the link `old` that
/// left `last` now leaves it; a new link, with the next link id and the type of `old`,
/// runs from `last` to it. `last_node_id` and `last_link_id` are updated first: when the
/// link `old` or its type is then missing, the document keeps those two updates and no
/// id comes back. Nothing changes when the plan fails (see `insertion_plan`).
pub open spec fn insert_visual_spec(
    v: JsonModel,
    last: Seq<char>,
    template: JsonModel,
    file: Seq<char>,
    pos: Option<(Seq<char>, Seq<char>)>,
) -> (Option<int>, JsonModel) {
    match insertion_plan(v, last, template, file, pos) {
        None => (None, v),
        Some((es, ns, lid, k0, old, node)) => {
            let nid = next_node_id(ns);
            let nl = next_link_id(es, old);
            let es2 = entries_insert(
                entries_insert(es, "last_node_id"@, numi(nid)),
                "last_link_id"@,
                numi(nl),
            );
            match link_type_of(es, old) {
                None => (None, JsonModel::Object(es2)),
                Some((ls, j, kind)) => {
                    let ls2 = ls.update(j, with_element(ls[j], 1, numi(nid))).push(
                        JsonModel::Array(
                            seq![numi(nl), numi(lid as int), numi(0), numi(nid), numi(0), kind],
                        ),
                    );
                    let ns2 = ns.update(k0, with_output_link(ns[k0], nl)).push(
                        with_output_link(with_model_link(node, nl), old as int),
                    );
                    (
                        Some(nid),
                        JsonModel::Object(
                            entries_set(
                                entries_set(es2, "links"@, JsonModel::Array(ls2)),
                                "nodes"@,
                                JsonModel::Array(ns2),
                            ),
                        ),
                    )
                },
            }
        },
    }
}

/// Whether the insertion would overflow a node or link id, or write into the empty link
/// list of the new node's first output, which the insertion does not allow.
pub open spec fn insertion_panics(
    v: JsonModel,
    last: Seq<char>,
    template: JsonModel,
    file: Seq<char>,
    pos: Option<(Seq<char>, Seq<char>)>,
) -> bool {
    match v {
        JsonModel::Object(es) => match oarr(entries_get(es, "nodes"@)) {
            Some(ns) => max_node_id(ns) == Some(i64::MAX) || match insertion_plan(
                v,
                last,
                template,
                file,
                pos,
            ) {
                Some((es, ns, lid, k0, old, node)) => next_link_id(es, old) > i64::MAX || (
                link_type_of(es, old).is_some() && output_links_empty(
                    with_model_link(node, next_link_id(es, old)),
                )),
                None => false,
            },
            None => false,
        },
        _ => false,
    }
}

fn max_node_id_exec(ns: &Vec<Json>) -> (r: Option<i64>)
    ensures
        r == max_node_id(models(ns@)),
{
    let ghost m = models(ns@);
    proof {
        lemma_models_len(ns@);
    }
    let mut best: Option<i64> = None;
    assert(m.take(0) =~= Seq::<JsonModel>::empty());
    let k = ns.len();
    for i in 0..k
        invariant
            k == ns.len(),
            m == models(ns@),
            m.len() == k,
            best == max_node_id(m.take(i as int)),
    {
        proof {
            lemma_models_index(ns@, i as int);
        }
        assert(m.take(i + 1).drop_last() =~= m.take(i as int));
        assert(m.take(i + 1).last() == m[i as int]);
        match ns[i].get("id") {
            Some(x) => match x.as_i64() {
                Some(id) => {
                    best = match best {
                        Some(b) => Some(
                            if id > b {
                                id
                            } else {
                                b
                            },
                        ),
                        None => Some(id),
                    };
                },
                None => {},
            },
            None => {},
        }
    }
    assert(m.take(k as int) =~= m);
    best
}

fn with_widgets_exec(node: &Json, file: &str) -> (r: Option<Json>)
    ensures
        json_opt(r) == with_widgets(node.model(), file@),
{
    match node.get("widgets_values") {
        Some(Json::Array(wv)) => {
            proof {
                lemma_models_len(wv@);
            }
            let w1 = if wv.len() > 0 {
                items_with(wv, 0, Json::Str(String::from_str(file)))
            } else {
                crate::json::copy_items(wv)
            };
            proof {
                lemma_models_len(w1@);
            }
            let w2 = if w1.len() > 1 {
                items_with(&w1, 1, Json::Number(String::from_str("1.0")))
            } else {
                w1
            };
            Some(with_member_exec(node, "widgets_values", Json::Array(w2)))
        },
        _ => None,
    }
}

fn prepared_node_exec(template: &Json, id: i64, file: &str, pos: &Option<(String, String)>) -> (r:
    Option<Json>)
    ensures
        json_opt(r) == prepared_node(template.model(), id as int, file@, pos_model(*pos)),
{
    let n1 = with_key_exec(template, "id", num_exec(id));
    let n2 = match pos {
        Some((x, y)) => {
            let mut items: Vec<Json> = Vec::new();
            items.push(Json::Number(x.clone()));
            items.push(Json::Number(y.clone()));
            assert(models(items@) =~= seq![JsonModel::Number(x@), JsonModel::Number(y@)]) by {
                lemma_models_len(items@);
                lemma_models_index(items@, 0);
                lemma_models_index(items@, 1);
            }
            with_key_exec(&n1, "pos", Json::Array(items))
        },
        None => n1,
    };
    with_widgets_exec(&n2, file)
}

fn with_model_link_exec(node: &Json, n: i64) -> (r: Json)
    ensures
        r.model() == with_model_link(node.model(), n as int),
{
    match node.get("inputs") {
        Some(Json::Array(ins)) => match first_model_input_exec(ins) {
            Some(m) => {
                proof {
                    lemma_models_index(ins@, m as int);
                }
                let input = with_key_exec(&ins[m], "link", num_exec(n));
                let ins2 = items_with(ins, m, input);
                with_member_exec(node, "inputs", Json::Array(ins2))
            },
            None => json_duplicate(node),
        },
        _ => json_duplicate(node),
    }
}

fn with_output_link_exec(node: &Json, n: i64) -> (r: Json)
    ensures
        r.model() == with_output_link(node.model(), n as int),
{
    match node.get("outputs") {
        Some(Json::Array(os)) => {
            proof {
                lemma_models_len(os@);
            }
            if os.len() == 0 {
                return json_duplicate(node);
            }
            proof {
                lemma_models_index(os@, 0);
            }
            match os[0].get("links") {
                Some(Json::Array(pl)) => {
                    proof {
                        lemma_models_len(pl@);
                    }
                    if pl.len() == 0 {
                        return json_duplicate(node);
                    }
                    let pl2 = items_with(pl, 0, num_exec(n));
                    let first = with_member_exec(&os[0], "links", Json::Array(pl2));
                    let os2 = items_with(os, 0, first);
                    with_member_exec(node, "outputs", Json::Array(os2))
                },
                _ => json_duplicate(node),
            }
        },
        _ => json_duplicate(node),
    }
}

fn output_links_empty_exec(node: &Json) -> (r: bool)
    ensures
        r == output_links_empty(node.model()),
{
    match node.get("outputs") {
        Some(Json::Array(os)) => {
            proof {
                lemma_models_len(os@);
            }
            if os.len() == 0 {
                return false;
            }
            proof {
                lemma_models_index(os@, 0);
            }
            match os[0].get("links") {
                Some(Json::Array(pl)) => {
                    proof {
                        lemma_models_len(pl@);
                    }
                    pl.len() == 0
                },
                _ => false,
            }
        },
        _ => false,
    }
}

pub open spec fn opt_id_model(o: Option<i64>) -> Option<int> {
    match o {
        Some(n) => Some(n as int),
        None => None,
    }
}

/// Puts a new LoRA node, made from `template`, into a visual workflow's model chain
/// after the LoRA `last` (see `insert_visual_spec`). `pos` is the position the new node
/// takes, as the texts of two numbers, when it gets one. Returns the new node's id, and
/// the document as it stands afterwards.
pub fn insert_visual_lora(
    value: &Json,
    last: &str,
    template: &Json,
    file: &str,
    pos: &Option<(String, String)>,
) -> (r: (Option<i64>, Json))
    requires
        !insertion_panics(value.model(), last@, template.model(), file@, pos_model(*pos)),
    ensures
        (opt_id_model(r.0), r.1.model()) == insert_visual_spec(
            value.model(),
            last@,
            template.model(),
            file@,
            pos_model(*pos),
        ),
{
    let es = match value {
        Json::Object(es) => es,
        _ => {
            return (None, json_duplicate(value));
        },
    };
    let ghost em = entry_models(es@);
    let ns = match crate::json::entries_find(es, "nodes") {
        Some(Json::Array(ns)) => ns,
        _ => {
            return (None, json_duplicate(value));
        },
    };
    let ghost nm = models(ns@);
    proof {
        lemma_models_len(ns@);
    }
    let nid: i64 = match max_node_id_exec(ns) {
        Some(m) => m + 1,
        None => 1,
    };
    let lid = match crate::text::parse_i64(last) {
        Some(x) => x,
        None => {
            return (None, json_duplicate(value));
        },
    };
    let node = match prepared_node_exec(template, nid, file, pos) {
        Some(n) => n,
        None => {
            return (None, json_duplicate(value));
        },
    };
    let k0 = match first_node_with_id_exec(ns, lid) {
        Some(k) => k,
        None => {
            return (None, json_duplicate(value));
        },
    };
    proof {
        lemma_models_index(ns@, k0 as int);
    }
    let old = match first_output_link_exec(&ns[k0]) {
        Some(o) => o,
        None => {
            return (None, json_duplicate(value));
        },
    };
    assert(insertion_plan(value.model(), last@, template.model(), file@, pos_model(*pos)) == Some(
        (em, nm, lid, k0 as int, old, node.model()),
    ));
    let nl: i64 = match crate::json::entries_find(es, "last_link_id") {
        Some(x) => match x.as_i64() {
            Some(l) => l + 1,
            None => old + 1,
        },
        None => old + 1,
    };
    assert(nl as int == next_link_id(em, old));
    let mut es2 = super::clone_entries(es);
    entries_put(&mut es2, String::from_str("last_node_id"), num_exec(nid));
    entries_put(&mut es2, String::from_str("last_link_id"), num_exec(nl));
    let ls = match crate::json::entries_find(es, "links") {
        Some(Json::Array(ls)) => ls,
        _ => {
            return (None, Json::Object(es2));
        },
    };
    proof {
        lemma_models_len(ls@);
    }
    let j = match first_with_head_exec(ls, old) {
        Some(j) => j,
        None => {
            return (None, Json::Object(es2));
        },
    };
    proof {
        lemma_models_index(ls@, j as int);
    }
    let kind = match ls[j].at(5) {
        Some(t) => json_duplicate(t),
        None => {
            return (None, Json::Object(es2));
        },
    };
    let ghost lm = models(ls@);
    assert(link_type_of(em, old) == Some((lm, j as int, kind.model())));
    let moved = with_element_exec(&ls[j], 1, num_exec(nid));
    let mut ls2 = items_with(ls, j, moved);
    let mut link: Vec<Json> = Vec::new();
    link.push(num_exec(nl));
    link.push(num_exec(lid));
    link.push(num_exec(0));
    link.push(num_exec(nid));
    link.push(num_exec(0));
    link.push(kind);
    let ghost lk = models(link@);
    assert(lk =~= seq![numi(nl as int), numi(lid as int), numi(0), numi(nid as int), numi(0), lk[5]])
        by {
        lemma_models_len(link@);
        lemma_models_index(link@, 0);
        lemma_models_index(link@, 1);
        lemma_models_index(link@, 2);
        lemma_models_index(link@, 3);
        lemma_models_index(link@, 4);
    }
    proof {
        lemma_models_len(link@);
        lemma_models_index(link@, 5);
    }
    let ghost before_ls = ls2@;
    ls2.push(Json::Array(link));
    assert(models(ls2@) =~= models(before_ls).push(JsonModel::Array(lk))) by {
        lemma_models_len(ls2@);
        lemma_models_len(before_ls);
        assert forall|i: int| 0 <= i < ls2@.len() implies models(ls2@)[i] == models(
            before_ls,
        ).push(JsonModel::Array(lk))[i] by {
            lemma_models_index(ls2@, i);
            if i < before_ls.len() {
                lemma_models_index(before_ls, i);
            }
        }
    }
    let last_node = with_output_link_exec(&ns[k0], nl);
    let mut ns2 = items_with(ns, k0, last_node);
    let fed = with_model_link_exec(&node, nl);
    let added = with_output_link_exec(&fed, old);
    let ghost before_ns = ns2@;
    ns2.push(added);
    assert(models(ns2@) =~= models(before_ns).push(added.model())) by {
        lemma_models_len(ns2@);
        lemma_models_len(before_ns);
        assert forall|i: int| 0 <= i < ns2@.len() implies models(ns2@)[i] == models(
            before_ns,
        ).push(added.model())[i] by {
            lemma_models_index(ns2@, i);
            if i < before_ns.len() {
                lemma_models_index(before_ns, i);
            }
        }
    }
    entries_replace(&mut es2, "links", Json::Array(ls2));
    entries_replace(&mut es2, "nodes", Json::Array(ns2));
    (Some(nid), Json::Object(es2))
}

/// Whether taking the node out would write past the end of its incoming link (see
/// `removal_panics`).
pub fn removal_would_panic(value: &Json, node_id: &str) -> (r: bool)
    ensures
        r == removal_panics(value.model(), node_id@),
{
    let es = match value {
        Json::Object(es) => es,
        _ => {
            return false;
        },
    };
    let ghost em = entry_models(es@);
    let ns = match crate::json::entries_find(es, "nodes") {
        Some(Json::Array(ns)) => ns,
        _ => {
            return false;
        },
    };
    proof {
        lemma_models_len(ns@);
    }
    let k = match first_node_reading_exec(ns, node_id) {
        Some(k) => k,
        None => {
            return false;
        },
    };
    proof {
        lemma_models_index(ns@, k as int);
    }
    let inc = match ns[k].get("inputs") {
        Some(Json::Array(ins)) => match first_model_link_exec(ins) {
            Some(x) => x,
            None => {
                return false;
            },
        },
        _ => {
            return false;
        },
    };
    let out = first_output_link_exec(&ns[k]);
    assert(removal_target(value.model(), node_id@) == Some((k as int, inc, out)));
    let ls = match crate::json::entries_find(es, "links") {
        Some(Json::Array(ls)) => ls,
        _ => {
            return false;
        },
    };
    proof {
        lemma_models_len(ls@);
    }
    let succ: Option<i64> = match out {
        Some(o) => match first_with_head_exec(ls, o) {
            Some(j) => {
                proof {
                    lemma_models_index(ls@, j as int);
                }
                match ls[j].at(3) {
                    Some(x) => x.as_i64(),
                    None => None,
                }
            },
            None => None,
        },
        None => None,
    };
    assert(succ == removal_successor(em, out));
    if succ.is_none() {
        return false;
    }
    match first_with_head_exec(ls, inc) {
        Some(j) => {
            proof {
                lemma_models_index(ls@, j as int);
            }
            match &ls[j] {
                Json::Array(link) => {
                    proof {
                        lemma_models_len(link@);
                    }
                    link.len() <= 3
                },
                _ => false,
            }
        },
        None => false,
    }
}

/// Whether the insertion would overflow an id or write into an empty link list (see
/// `insertion_panics`).
pub fn insertion_would_panic(
    value: &Json,
    last: &str,
    template: &Json,
    file: &str,
    pos: &Option<(String, String)>,
) -> (r: bool)
    ensures
        r == insertion_panics(value.model(), last@, template.model(), file@, pos_model(*pos)),
{
    let es = match value {
        Json::Object(es) => es,
        _ => {
            return false;
        },
    };
    let ghost em = entry_models(es@);
    let ns = match crate::json::entries_find(es, "nodes") {
        Some(Json::Array(ns)) => ns,
        _ => {
            return false;
        },
    };
    let ghost nm = models(ns@);
    proof {
        lemma_models_len(ns@);
    }
    let nid: i64 = match max_node_id_exec(ns) {
        Some(m) => {
            if m == i64::MAX {
                return true;
            }
            m + 1
        },
        None => 1,
    };
    let lid = match crate::text::parse_i64(last) {
        Some(x) => x,
        None => {
            return false;
        },
    };
    let node = match prepared_node_exec(template, nid, file, pos) {
        Some(n) => n,
        None => {
            return false;
        },
    };
    let k0 = match first_node_with_id_exec(ns, lid) {
        Some(k) => k,
        None => {
            return false;
        },
    };
    proof {
        lemma_models_index(ns@, k0 as int);
    }
    let old = match first_output_link_exec(&ns[k0]) {
        Some(o) => o,
        None => {
            return false;
        },
    };
    assert(insertion_plan(value.model(), last@, template.model(), file@, pos_model(*pos)) == Some(
        (em, nm, lid, k0 as int, old, node.model()),
    ));
    let base: i64 = match crate::json::entries_find(es, "last_link_id") {
        Some(x) => match x.as_i64() {
            Some(l) => l,
            None => old,
        },
        None => old,
    };
    if base == i64::MAX {
        return true;
    }
    let nl = base + 1;
    assert(nl as int == next_link_id(em, old));
    let typed = match crate::json::entries_find(es, "links") {
        Some(Json::Array(ls)) => {
            proof {
                lemma_models_len(ls@);
            }
            match first_with_head_exec(ls, old) {
                Some(j) => {
                    proof {
                        lemma_models_index(ls@, j as int);
                    }
                    ls[j].at(5).is_some()
                },
                None => false,
            }
        },
        _ => false,
    };
    assert(typed == link_type_of(em, old).is_some());
    if !typed {
        return false;
    }
    output_links_empty_exec(&with_model_link_exec(&node, nl))
}

} // verus!
