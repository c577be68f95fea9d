//! Turning a visual ComfyUI graph into the API prompt that ComfyUI runs.
use vstd::prelude::*;
use crate::json::{
    entries_find, entries_get, entries_insert, entries_put, entry_models, jget, json_duplicate,
    lemma_entry_models_index, lemma_entry_models_len, lemma_models_index, lemma_models_len, models,
    oarr, oi64, oscalar, ostr, seq_at, text_eq, Json, JsonModel,
};
use crate::text::{i64_text, int_text};
use super::parser::{visual_widget_names, widget_names_spec};

verus! {

/// A link of a visual graph: id, source node id, source output index.
pub open spec fn link_entry(link: JsonModel) -> Option<(i64, Seq<char>, i64)> {
    match link {
        JsonModel::Array(a) => match (oi64(seq_at(a, 0)), oi64(seq_at(a, 1)), oi64(seq_at(a, 2))) {
            (Some(id), Some(src), Some(out)) => Some((id, int_text(src as int), out)),
            _ => None,
        },
        _ => None,
    }
}

/// The well-formed links of a graph, in order.
pub open spec fn link_table(links: Seq<JsonModel>) -> Seq<(i64, Seq<char>, i64)>
    decreases links.len(),
{
    if links.len() == 0 {
        Seq::empty()
    } else {
        let rest = link_table(links.drop_last());
        match link_entry(links.last()) {
            Some(e) => rest.push(e),
            None => rest,
        }
    }
}

/// The link stored last under `id`, as a map that each insertion overwrites holds it.
pub open spec fn link_lookup(table: Seq<(i64, Seq<char>, i64)>, id: i64) -> Option<(Seq<char>, i64)>
    decreases table.len(),
{
    if table.len() == 0 {
        None
    } else if table.last().0 == id {
        Some((table.last().1, table.last().2))
    } else {
        link_lookup(table.drop_last(), id)
    }
}

pub open spec fn value_lookup(table: Seq<(i64, JsonModel)>, id: i64) -> Option<JsonModel>
    decreases table.len(),
{
    if table.len() == 0 {
        None
    } else if table.last().0 == id {
        Some(table.last().1)
    } else {
        value_lookup(table.drop_last(), id)
    }
}

pub open spec fn is_primitive(node: JsonModel) -> bool {
    ostr(jget(node, "type"@)) == Some("PrimitiveNode"@)
}

/// The first widget value of a node.
pub open spec fn first_widget_value(node: JsonModel) -> Option<JsonModel> {
    match oarr(jget(node, "widgets_values"@)) {
        Some(vs) => seq_at(vs, 0),
        None => None,
    }
}

/// The integer link ids in a list of link ids, each paired with `value`.
pub open spec fn link_ids_with(ids: Seq<JsonModel>, value: JsonModel) -> Seq<(i64, JsonModel)>
    decreases ids.len(),
{
    if ids.len() == 0 {
        Seq::empty()
    } else {
        let rest = link_ids_with(ids.drop_last(), value);
        match crate::json::ji64(ids.last()) {
            Some(id) => rest.push((id, value)),
            None => rest,
        }
    }
}

/// The ids of the links leaving the outputs of a node, each paired with `value`.
pub open spec fn output_links_with(outputs: Seq<JsonModel>, value: JsonModel) -> Seq<(i64, JsonModel)>
    decreases outputs.len(),
{
    if outputs.len() == 0 {
        Seq::empty()
    } else {
        output_links_with(outputs.drop_last(), value) + match oarr(jget(outputs.last(), "links"@)) {
            Some(ids) => link_ids_with(ids, value),
            None => Seq::empty(),
        }
    }
}

/// Primitive nodes feed their first widget value into every link that leaves them.
pub open spec fn primitive_outputs(nodes: Seq<JsonModel>) -> Seq<(i64, JsonModel)>
    decreases nodes.len(),
{
    if nodes.len() == 0 {
        Seq::empty()
    } else {
        let node = nodes.last();
        primitive_outputs(nodes.drop_last()) + if is_primitive(node) {
            match first_widget_value(node) {
                Some(v) => match oarr(jget(node, "outputs"@)) {
                    Some(outs) => output_links_with(outs, v),
                    None => Seq::empty(),
                },
                None => Seq::empty(),
            }
        } else {
            Seq::empty()
        }
    }
}

/// The first primitive node whose id reads as `id`.
pub open spec fn find_primitive(nodes: Seq<JsonModel>, id: Seq<char>) -> Option<JsonModel>
    decreases nodes.len(),
{
    if nodes.len() == 0 {
        None
    } else if oscalar(jget(nodes[0], "id"@)) == Some(id) && is_primitive(nodes[0]) {
        Some(nodes[0])
    } else {
        find_primitive(nodes.drop_first(), id)
    }
}

/// Links whose source is a primitive node also carry that node's first widget value.
pub open spec fn primitive_links(links: Seq<JsonModel>, nodes: Seq<JsonModel>) -> Seq<(i64, JsonModel)>
    decreases links.len(),
{
    if links.len() == 0 {
        Seq::empty()
    } else {
        let rest = primitive_links(links.drop_last(), nodes);
        match links.last() {
            JsonModel::Array(a) => match (oi64(seq_at(a, 0)), seq_at(a, 1)) {
                (Some(id), Some(src)) => match find_primitive(nodes, scalar_of(src)) {
                    Some(p) => match first_widget_value(p) {
                        Some(v) => rest.push((id, v)),
                        None => rest,
                    },
                    None => rest,
                },
                _ => rest,
            },
            _ => rest,
        }
    }
}

pub open spec fn scalar_of(v: JsonModel) -> Seq<char> {
    crate::json::scalar_text(v)
}

/// The index of the first widget called `name`.
pub open spec fn position_of(names: Seq<&str>, name: Seq<char>) -> Option<int>
    decreases names.len(),
{
    if names.len() == 0 {
        None
    } else if names[0]@ == name {
        Some(0)
    } else {
        match position_of(names.drop_first(), name) {
            Some(p) => Some(p + 1),
            None => None,
        }
    }
}

pub open spec fn opt_seq_at(vs: Option<Seq<JsonModel>>, i: int) -> Option<JsonModel> {
    match vs {
        Some(v) => seq_at(v, i),
        None => None,
    }
}

pub open spec fn max_int(a: int, b: int) -> int {
    if a >= b {
        a
    } else {
        b
    }
}

pub open spec fn node_message(id: Seq<char>, tail: Seq<char>) -> Seq<char> {
    "workflow node "@ + id + tail
}

/// The prompt inputs of one node input: a link from a primitive node carries its value,
/// another link becomes `[source id, output index]`, and a widget input takes its value
/// from the widget values, by the widget's known position where there is one.
pub open spec fn input_step(
    input: JsonModel,
    id: Seq<char>,
    names: Seq<&str>,
    wvals: Option<Seq<JsonModel>>,
    prims: Seq<(i64, JsonModel)>,
    table: Seq<(i64, Seq<char>, i64)>,
    es: Seq<(Seq<char>, JsonModel)>,
    widx: int,
) -> Result<(Seq<(Seq<char>, JsonModel)>, int), Seq<char>> {
    match ostr(jget(input, "name"@)) {
        None => Err(node_message(id, " has an unnamed input"@)),
        Some(name) => match oi64(jget(input, "link"@)) {
            Some(lid) => match value_lookup(prims, lid) {
                Some(v) => Ok((entries_insert(es, name, v), widx)),
                None => match link_lookup(table, lid) {
                    None => Err(
                        node_message(id, " references missing link "@ + int_text(lid as int)),
                    ),
                    Some((src, out)) => {
                        let es2 = entries_insert(
                            es,
                            name,
                            JsonModel::Array(
                                seq![JsonModel::Str(src), JsonModel::Number(int_text(out as int))],
                            ),
                        );
                        let widx2 = if jget(input, "widget"@).is_some() {
                            max_int(
                                widx,
                                match position_of(names, name) {
                                    Some(p) => p + 1,
                                    None => widx,
                                },
                            )
                        } else {
                            widx
                        };
                        Ok((es2, widx2))
                    },
                },
            },
            None => if jget(input, "widget"@).is_some() {
                let vi = match position_of(names, name) {
                    Some(p) => p,
                    None => widx,
                };
                let es2 = match opt_seq_at(wvals, vi) {
                    Some(v) => entries_insert(es, name, v),
                    None => es,
                };
                Ok((es2, max_int(widx, vi + 1)))
            } else {
                Ok((es, widx))
            },
        },
    }
}

pub open spec fn inputs_fold(
    inputs: Seq<JsonModel>,
    id: Seq<char>,
    names: Seq<&str>,
    wvals: Option<Seq<JsonModel>>,
    prims: Seq<(i64, JsonModel)>,
    table: Seq<(i64, Seq<char>, i64)>,
    es: Seq<(Seq<char>, JsonModel)>,
    widx: int,
) -> Result<Seq<(Seq<char>, JsonModel)>, Seq<char>>
    decreases inputs.len(),
{
    if inputs.len() == 0 {
        Ok(es)
    } else {
        match input_step(inputs[0], id, names, wvals, prims, table, es, widx) {
            Err(e) => Err(e),
            Ok((es2, w2)) => inputs_fold(inputs.drop_first(), id, names, wvals, prims, table, es2, w2),
        }
    }
}

/// Whether some input is called `name` and has a `link` member.
pub open spec fn has_linked_input(inputs: Option<Seq<JsonModel>>, name: Seq<char>) -> bool {
    match inputs {
        Some(ins) => exists|i: int|
            0 <= i < ins.len() && ostr(jget(#[trigger] ins[i], "name"@)) == Some(name) && jget(
                ins[i],
                "link"@,
            ).is_some(),
        None => false,
    }
}

/// Known widgets that no input provided take the widget value at their position.
pub open spec fn widget_defaults(
    names: Seq<&str>,
    start: int,
    inputs: Option<Seq<JsonModel>>,
    wvals: Option<Seq<JsonModel>>,
    es: Seq<(Seq<char>, JsonModel)>,
) -> Seq<(Seq<char>, JsonModel)>
    decreases names.len(),
{
    if names.len() == 0 {
        es
    } else {
        let name = names[0]@;
        let es2 = if entries_get(es, name).is_none() && !has_linked_input(inputs, name) {
            match opt_seq_at(wvals, start) {
                Some(v) => entries_insert(es, name, v),
                None => es,
            }
        } else {
            es
        };
        widget_defaults(names.drop_first(), start + 1, inputs, wvals, es2)
    }
}

/// The prompt entry of one visual node: `None` for a primitive or a note.
pub open spec fn prompt_node(
    node: JsonModel,
    prims: Seq<(i64, JsonModel)>,
    table: Seq<(i64, Seq<char>, i64)>,
) -> Result<Option<(Seq<char>, JsonModel)>, Seq<char>> {
    match oscalar(jget(node, "id"@)) {
        Some(id) if id.len() > 0 => match ostr(jget(node, "type"@)) {
            Some(ct) if ct.len() > 0 => if ct == "PrimitiveNode"@ || ct == "MarkdownNote"@ {
                Ok(None)
            } else {
                let input_nodes = oarr(jget(node, "inputs"@));
                let wvals = oarr(jget(node, "widgets_values"@));
                let names = widget_names_spec(ct);
                let collected = match input_nodes {
                    Some(ins) => inputs_fold(ins, id, names, wvals, prims, table, Seq::empty(), 0),
                    None => Ok(Seq::empty()),
                };
                match collected {
                    Err(e) => Err(e),
                    Ok(es) => Ok(
                        Some(
                            (
                                id,
                                JsonModel::Object(
                                    seq![
                                        ("class_type"@, JsonModel::Str(ct)),
                                        (
                                            "inputs"@,
                                            JsonModel::Object(
                                                widget_defaults(names, 0, input_nodes, wvals, es),
                                            ),
                                        ),
                                    ],
                                ),
                            ),
                        ),
                    ),
                }
            },
            _ => Err(node_message(id, " has no type"@)),
        },
        _ => Err("visual workflow node has no id"@),
    }
}

pub open spec fn nodes_fold(
    nodes: Seq<JsonModel>,
    prims: Seq<(i64, JsonModel)>,
    table: Seq<(i64, Seq<char>, i64)>,
    prompt: Seq<(Seq<char>, JsonModel)>,
) -> Result<Seq<(Seq<char>, JsonModel)>, Seq<char>>
    decreases nodes.len(),
{
    if nodes.len() == 0 {
        Ok(prompt)
    } else {
        match prompt_node(nodes[0], prims, table) {
            Err(e) => Err(e),
            Ok(None) => nodes_fold(nodes.drop_first(), prims, table, prompt),
            Ok(Some((id, entry))) => nodes_fold(
                nodes.drop_first(),
                prims,
                table,
                entries_insert(prompt, id, entry),
            ),
        }
    }
}

pub open spec fn all_have_class_type(es: Seq<(Seq<char>, JsonModel)>) -> bool {
    forall|i: int| 0 <= i < es.len() ==> jget(#[trigger] es[i].1, "class_type"@).is_some()
}

/// The API prompt of a workflow: an API prompt is returned as it is; each node of a
/// visual graph becomes `{"class_type", "inputs"}` under its id, primitives and notes
/// left out and their values inlined.
pub open spec fn api_prompt_spec(v: JsonModel) -> Result<JsonModel, Seq<char>> {
    match v {
        JsonModel::Object(es) => if all_have_class_type(es) {
            Ok(v)
        } else {
            match oarr(entries_get(es, "nodes"@)) {
                None => Err("workflow is neither an API prompt nor a visual graph"@),
                Some(nodes) => {
                    let links = match oarr(entries_get(es, "links"@)) {
                        Some(l) => l,
                        None => Seq::empty(),
                    };
                    let prims = primitive_outputs(nodes) + primitive_links(links, nodes);
                    match nodes_fold(nodes, prims, link_table(links), Seq::empty()) {
                        Err(e) => Err(e),
                        Ok(prompt) => if prompt.len() == 0 {
                            Err("visual workflow has no nodes"@)
                        } else {
                            Ok(JsonModel::Object(prompt))
                        },
                    }
                },
            }
        },
        _ => Err("workflow must be a JSON object"@),
    }
}

pub open spec fn table_view(t: Seq<(i64, String, i64)>) -> Seq<(i64, Seq<char>, i64)> {
    t.map_values(|e: (i64, String, i64)| (e.0, e.1@, e.2))
}

pub open spec fn prim_view(p: Seq<(i64, Json)>) -> Seq<(i64, JsonModel)> {
    p.map_values(|e: (i64, Json)| (e.0, e.1.model()))
}

fn seq_get(items: &Vec<Json>, i: usize) -> (r: Option<&Json>)
    ensures
        crate::json::opt_model(r) == seq_at(models(items@), i as int),
{
    proof {
        lemma_models_len(items@);
    }
    if i < items.len() {
        proof {
            lemma_models_index(items@, i as int);
        }
        Some(&items[i])
    } else {
        None
    }
}

fn link_entry_exec(link: &Json) -> (r: Option<(i64, String, i64)>)
    ensures
        match r {
            Some(e) => link_entry(link.model()) == Some((e.0, e.1@, e.2)),
            None => link_entry(link.model()).is_none(),
        },
{
    match link {
        Json::Array(a) => {
            let id = match seq_get(a, 0) {
                Some(x) => x.as_i64(),
                None => None,
            };
            let src = match seq_get(a, 1) {
                Some(x) => x.as_i64(),
                None => None,
            };
            let out = match seq_get(a, 2) {
                Some(x) => x.as_i64(),
                None => None,
            };
            match (id, src, out) {
                (Some(i), Some(s), Some(o)) => Some((i, i64_text(s), o)),
                _ => None,
            }
        },
        _ => None,
    }
}

pub fn link_table_exec(links: &Vec<Json>) -> (r: Vec<(i64, String, i64)>)
    ensures
        table_view(r@) == link_table(models(links@)),
{
    let ghost m = models(links@);
    proof {
        lemma_models_len(links@);
    }
    let mut out: Vec<(i64, String, i64)> = Vec::new();
    let n = links.len();
    for i in 0..n
        invariant
            n == links.len(),
            m == models(links@),
            m.len() == n,
            table_view(out@) == link_table(m.take(i as int)),
    {
        proof {
            lemma_models_index(links@, i as int);
        }
        assert(m.take(i + 1).drop_last() =~= m.take(i as int));
        let ghost before = out@;
        match link_entry_exec(&links[i]) {
            Some(e) => {
                out.push(e);
                assert(table_view(out@) =~= table_view(before).push((e.0, e.1@, e.2)));
            },
            None => {},
        }
    }
    assert(m.take(n as int) =~= m);
    out
}

pub fn link_lookup_exec(table: &Vec<(i64, String, i64)>, id: i64) -> (r: Option<(String, i64)>)
    ensures
        match r {
            Some(e) => link_lookup(table_view(table@), id) == Some((e.0@, e.1)),
            None => link_lookup(table_view(table@), id).is_none(),
        },
{
    let ghost t = table_view(table@);
    let mut i = table.len();
    assert(t.take(i as int) =~= t);
    while i > 0
        invariant
            i <= table.len(),
            t == table_view(table@),
            link_lookup(t, id) == link_lookup(t.take(i as int), id),
        decreases i,
    {
        assert(t.take(i as int).drop_last() =~= t.take(i - 1));
        if table[i - 1].0 == id {
            return Some((table[i - 1].1.clone(), table[i - 1].2));
        }
        i = i - 1;
    }
    None
}

pub fn value_lookup_exec(table: &Vec<(i64, Json)>, id: i64) -> (r: Option<&Json>)
    ensures
        crate::json::opt_model(r) == value_lookup(prim_view(table@), id),
{
    let ghost t = prim_view(table@);
    let mut i = table.len();
    assert(t.take(i as int) =~= t);
    while i > 0
        invariant
            i <= table.len(),
            t == prim_view(table@),
            value_lookup(t, id) == value_lookup(t.take(i as int), id),
        decreases i,
    {
        assert(t.take(i as int).drop_last() =~= t.take(i - 1));
        if table[i - 1].0 == id {
            return Some(&table[i - 1].1);
        }
        i = i - 1;
    }
    None
}

fn push_link_ids(out: &mut Vec<(i64, Json)>, ids: &Vec<Json>, value: &Json)
    ensures
        prim_view(final(out)@) == prim_view(old(out)@) + link_ids_with(models(ids@), value.model()),
{
    let ghost m = models(ids@);
    let ghost start = prim_view(out@);
    proof {
        lemma_models_len(ids@);
    }
    let n = ids.len();
    for i in 0..n
        invariant
            n == ids.len(),
            m == models(ids@),
            m.len() == n,
            prim_view(out@) == start + link_ids_with(m.take(i as int), value.model()),
    {
        proof {
            lemma_models_index(ids@, i as int);
        }
        assert(m.take(i + 1).drop_last() =~= m.take(i as int));
        let ghost before = out@;
        match ids[i].as_i64() {
            Some(id) => {
                out.push((id, json_duplicate(value)));
                assert(prim_view(out@) =~= prim_view(before).push((id, value.model())));
            },
            None => {},
        }
    }
    assert(m.take(n as int) =~= m);
}

fn push_output_links(out: &mut Vec<(i64, Json)>, outputs: &Vec<Json>, value: &Json)
    ensures
        prim_view(final(out)@) == prim_view(old(out)@) + output_links_with(models(outputs@), value.model()),
{
    let ghost m = models(outputs@);
    let ghost start = prim_view(out@);
    proof {
        lemma_models_len(outputs@);
    }
    let n = outputs.len();
    assert(start + output_links_with(m.take(0), value.model()) =~= start);
    for i in 0..n
        invariant
            n == outputs.len(),
            m == models(outputs@),
            m.len() == n,
            prim_view(out@) == start + output_links_with(m.take(i as int), value.model()),
    {
        proof {
            lemma_models_index(outputs@, i as int);
        }
        assert(m.take(i + 1).drop_last() =~= m.take(i as int));
        let ghost before = prim_view(out@);
        match outputs[i].get("links") {
            Some(Json::Array(ids)) => {
                push_link_ids(out, ids, value);
            },
            _ => {},
        }
        assert(prim_view(out@) =~= start + output_links_with(m.take(i + 1), value.model()));
    }
    assert(m.take(n as int) =~= m);
}

fn is_primitive_exec(node: &Json) -> (r: bool)
    ensures
        r == is_primitive(node.model()),
{
    match node.get("type") {
        Some(Json::Str(t)) => text_eq(t.as_str(), "PrimitiveNode"),
        _ => false,
    }
}

fn first_widget_value_exec(node: &Json) -> (r: Option<&Json>)
    ensures
        crate::json::opt_model(r) == first_widget_value(node.model()),
{
    match node.get("widgets_values") {
        Some(Json::Array(vs)) => seq_get(vs, 0),
        _ => None,
    }
}

pub fn primitive_outputs_exec(nodes: &Vec<Json>) -> (r: Vec<(i64, Json)>)
    ensures
        prim_view(r@) == primitive_outputs(models(nodes@)),
{
    let ghost m = models(nodes@);
    proof {
        lemma_models_len(nodes@);
    }
    let mut out: Vec<(i64, Json)> = Vec::new();
    assert(prim_view(out@) =~= Seq::empty());
    let n = nodes.len();
    for i in 0..n
        invariant
            n == nodes.len(),
            m == models(nodes@),
            m.len() == n,
            prim_view(out@) == primitive_outputs(m.take(i as int)),
    {
        proof {
            lemma_models_index(nodes@, i as int);
        }
        assert(m.take(i + 1).drop_last() =~= m.take(i as int));
        let ghost before = prim_view(out@);
        let node = &nodes[i];
        if is_primitive_exec(node) {
            match first_widget_value_exec(node) {
                Some(v) => {
                    match node.get("outputs") {
                        Some(Json::Array(outs)) => {
                            push_output_links(&mut out, outs, v);
                        },
                        _ => {},
                    }
                },
                None => {},
            }
        }
        assert(prim_view(out@) =~= primitive_outputs(m.take(i + 1)));
    }
    assert(m.take(n as int) =~= m);
    out
}

fn find_primitive_exec<'a>(nodes: &'a Vec<Json>, id: &str) -> (r: Option<&'a Json>)
    ensures
        crate::json::opt_model(r) == find_primitive(models(nodes@), id@),
{
    let ghost m = models(nodes@);
    proof {
        lemma_models_len(nodes@);
    }
    assert(m.skip(0) =~= m);
    let n = nodes.len();
    for i in 0..n
        invariant
            n == nodes.len(),
            m == models(nodes@),
            m.len() == n,
            find_primitive(m, id@) == find_primitive(m.skip(i as int), id@),
    {
        proof {
            lemma_models_index(nodes@, i as int);
        }
        assert(m.skip(i as int).drop_first() =~= m.skip(i + 1));
        assert(m.skip(i as int)[0] == m[i as int]);
        let node = &nodes[i];
        let matches = match node.get("id") {
            Some(x) => text_eq(x.scalar_text().as_str(), id),
            None => false,
        };
        if matches && is_primitive_exec(node) {
            return Some(node);
        }
    }
    None
}

pub fn primitive_links_exec(links: &Vec<Json>, nodes: &Vec<Json>) -> (r: Vec<(i64, Json)>)
    ensures
        prim_view(r@) == primitive_links(models(links@), models(nodes@)),
{
    let ghost m = models(links@);
    proof {
        lemma_models_len(links@);
    }
    let mut out: Vec<(i64, Json)> = Vec::new();
    assert(prim_view(out@) =~= Seq::empty());
    let n = links.len();
    for i in 0..n
        invariant
            n == links.len(),
            m == models(links@),
            m.len() == n,
            prim_view(out@) == primitive_links(m.take(i as int), models(nodes@)),
    {
        proof {
            lemma_models_index(links@, i as int);
        }
        assert(m.take(i + 1).drop_last() =~= m.take(i as int));
        let ghost before = prim_view(out@);
        match &links[i] {
            Json::Array(a) => {
                let id = match seq_get(a, 0) {
                    Some(x) => x.as_i64(),
                    None => None,
                };
                match (id, seq_get(a, 1)) {
                    (Some(id), Some(src)) => {
                        let src_text = src.scalar_text();
                        match find_primitive_exec(nodes, src_text.as_str()) {
                            Some(p) => match first_widget_value_exec(p) {
                                Some(v) => {
                                    out.push((id, json_duplicate(v)));
                                    assert(prim_view(out@) =~= before.push((id, v.model())));
                                },
                                None => {},
                            },
                            None => {},
                        }
                    },
                    _ => {},
                }
            },
            _ => {},
        }
    }
    assert(m.take(n as int) =~= m);
    out
}

pub fn position_of_exec(names: &Vec<&str>, name: &str) -> (r: Option<usize>)
    ensures
        match r {
            Some(p) => position_of(names@, name@) == Some(p as int) && p < names.len(),
            None => position_of(names@, name@).is_none(),
        },
{
    let n = names.len();
    let mut i: usize = 0;
    assert(names@.skip(0) =~= names@);
    while i < n
        invariant
            n == names.len(),
            i <= n,
            forall|k: int| 0 <= k < i ==> names@[k]@ != name@,
            position_of(names@, name@) == match position_of(names@.skip(i as int), name@) {
                Some(p) => Some(p + i),
                None => None,
            },
        decreases n - i,
    {
        assert(names@.skip(i as int).drop_first() =~= names@.skip(i + 1));
        assert(names@.skip(i as int)[0] == names@[i as int]);
        if text_eq(names[i], name) {
            return Some(i);
        }
        i = i + 1;
    }
    assert(names@.skip(n as int).len() == 0);
    None
}

fn node_error(id: &str, tail: &str) -> (r: String)
    ensures
        r@ == node_message(id@, tail@),
{
    let mut m = String::from_str("workflow node ");
    m.append(id);
    m.append(tail);
    assert(m@ =~= node_message(id@, tail@));
    m
}

pub open spec fn opt_models(o: Option<&Vec<Json>>) -> Option<Seq<JsonModel>> {
    match o {
        Some(v) => Some(models(v@)),
        None => None,
    }
}

fn opt_seq_get(vs: Option<&Vec<Json>>, i: u128) -> (r: Option<&Json>)
    ensures
        crate::json::opt_model(r) == opt_seq_at(opt_models(vs), i as int),
{
    match vs {
        Some(v) => {
            if i < v.len() as u128 {
                seq_get(v, i as usize)
            } else {
                proof {
                    lemma_models_len(v@);
                }
                None
            }
        },
        None => None,
    }
}

fn has_linked_input_exec(inputs: Option<&Vec<Json>>, name: &str) -> (r: bool)
    ensures
        r == has_linked_input(opt_models(inputs), name@),
{
    match inputs {
        Some(ins) => {
            let ghost m = models(ins@);
            proof {
                lemma_models_len(ins@);
            }
            let n = ins.len();
            for i in 0..n
                invariant
                    n == ins.len(),
                    m == models(ins@),
                    m.len() == n,
                    opt_models(inputs) == Some(m),
                    forall|k: int|
                        0 <= k < i ==> !(ostr(jget(#[trigger] m[k], "name"@)) == Some(name@) && jget(
                            m[k],
                            "link"@,
                        ).is_some()),
            {
                proof {
                    lemma_models_index(ins@, i as int);
                }
                let named = match ins[i].get("name") {
                    Some(Json::Str(t)) => text_eq(t.as_str(), name),
                    _ => false,
                };
                if named && ins[i].get("link").is_some() {
                    assert(ostr(jget(m[i as int], "name"@)) == Some(name@));
                    assert(jget(m[i as int], "link"@).is_some());
                    assert(0 <= i < m.len() && ostr(jget(m[i as int], "name"@)) == Some(name@) && jget(m[i as int], "link"@).is_some());
                    assert(opt_models(inputs) == Some(m));
                    assert(has_linked_input(opt_models(inputs), name@));
                    return true;
                }
            }
            false
        },
        None => false,
    }
}

fn prompt_inputs(
    ins: &Vec<Json>,
    id: &str,
    names: &Vec<&str>,
    wvals: Option<&Vec<Json>>,
    prims: &Vec<(i64, Json)>,
    table: &Vec<(i64, String, i64)>,
) -> (r: Result<Vec<(String, Json)>, String>)
    ensures
        match r {
            Ok(es) => inputs_fold(
                models(ins@),
                id@,
                names@,
                opt_models(wvals),
                prim_view(prims@),
                table_view(table@),
                Seq::empty(),
                0,
            ) == Ok::<Seq<(Seq<char>, JsonModel)>, Seq<char>>(entry_models(es@)),
            Err(e) => inputs_fold(
                models(ins@),
                id@,
                names@,
                opt_models(wvals),
                prim_view(prims@),
                table_view(table@),
                Seq::empty(),
                0,
            ) == Err::<Seq<(Seq<char>, JsonModel)>, Seq<char>>(e@),
        },
{
    let ghost m = models(ins@);
    let ghost wv = opt_models(wvals);
    let ghost pv = prim_view(prims@);
    let ghost tv = table_view(table@);
    proof {
        lemma_models_len(ins@);
    }
    let mut es: Vec<(String, Json)> = Vec::new();
    let mut widx: u128 = 0;
    assert(entry_models(es@) =~= Seq::empty());
    assert(m.skip(0) =~= m);
    let n = ins.len();
    for i in 0..n
        invariant
            n == ins.len(),
            m == models(ins@),
            m.len() == n,
            wv == opt_models(wvals),
            pv == prim_view(prims@),
            tv == table_view(table@),
            widx <= i + names.len(),
            inputs_fold(m, id@, names@, wv, pv, tv, Seq::empty(), 0) == inputs_fold(
                m.skip(i as int),
                id@,
                names@,
                wv,
                pv,
                tv,
                entry_models(es@),
                widx as int,
            ),
    {
        proof {
            lemma_models_index(ins@, i as int);
        }
        assert(m.skip(i as int).drop_first() =~= m.skip(i + 1));
        assert(m.skip(i as int)[0] == m[i as int]);
        let input = &ins[i];
        let name: &String = match input.get("name") {
            Some(Json::Str(t)) => t,
            _ => {
                return Err(node_error(id, " has an unnamed input"));
            },
        };
        let link_id: Option<i64> = match input.get("link") {
            Some(l) => l.as_i64(),
            None => None,
        };
        if let Some(lid) = link_id {
            match value_lookup_exec(prims, lid) {
                Some(v) => {
                    entries_put(&mut es, name.clone(), json_duplicate(v));
                },
                None => {
                    match link_lookup_exec(table, lid) {
                        None => {
                            let mut tail = String::from_str(" references missing link ");
                            let lt = i64_text(lid);
                            tail.append(lt.as_str());
                            return Err(node_error(id, tail.as_str()));
                        },
                        Some((src, out)) => {
                            let ghost src_model = src@;
                            let mut pair: Vec<Json> = Vec::new();
                            pair.push(Json::Str(src));
                            pair.push(Json::from_i64(out));
                            proof {
                                lemma_models_index(pair@, 0);
                                lemma_models_index(pair@, 1);
                                lemma_models_len(pair@);
                            }
                            assert(models(pair@) =~= seq![JsonModel::Str(src_model), JsonModel::Number(int_text(out as int))]);
                            entries_put(&mut es, name.clone(), Json::Array(pair));
                            if input.get("widget").is_some() {
                                let target = match position_of_exec(names, name.as_str()) {
                                    Some(p) => p as u128 + 1,
                                    None => widx,
                                };
                                if target > widx {
                                    widx = target;
                                }
                            }
                        },
                    }
                },
            }
        } else if input.get("widget").is_some() {
            let vi: u128 = match position_of_exec(names, name.as_str()) {
                Some(p) => p as u128,
                None => widx,
            };
            match opt_seq_get(wvals, vi) {
                Some(v) => {
                    entries_put(&mut es, name.clone(), json_duplicate(v));
                },
                None => {},
            }
            if vi + 1 > widx {
                widx = vi + 1;
            }
        }
    }
    assert(m.skip(n as int) =~= Seq::<JsonModel>::empty());
    Ok(es)
}

fn widget_defaults_exec(
    es: &mut Vec<(String, Json)>,
    names: &Vec<&str>,
    inputs: Option<&Vec<Json>>,
    wvals: Option<&Vec<Json>>,
)
    ensures
        entry_models(final(es)@) == widget_defaults(
            names@,
            0,
            opt_models(inputs),
            opt_models(wvals),
            entry_models(old(es)@),
        ),
{
    let ghost start = entry_models(es@);
    assert(names@.skip(0) =~= names@);
    let n = names.len();
    for i in 0..n
        invariant
            n == names.len(),
            widget_defaults(names@, 0, opt_models(inputs), opt_models(wvals), start)
                == widget_defaults(
                names@.skip(i as int),
                i as int,
                opt_models(inputs),
                opt_models(wvals),
                entry_models(es@),
            ),
    {
        assert(names@.skip(i as int).drop_first() =~= names@.skip(i + 1));
        assert(names@.skip(i as int)[0] == names@[i as int]);
        let name = names[i];
        if !crate::json::entries_contains(es, name) && !has_linked_input_exec(inputs, name) {
            match opt_seq_get(wvals, i as u128) {
                Some(v) => {
                    entries_put(es, String::from_str(name), json_duplicate(v));
                },
                None => {},
            }
        }
    }
    assert(names@.skip(n as int).len() == 0);
}

fn prompt_node_exec(node: &Json, prims: &Vec<(i64, Json)>, table: &Vec<(i64, String, i64)>) -> (r:
    Result<Option<(String, Json)>, String>)
    ensures
        match r {
            Ok(Some(e)) => prompt_node(node.model(), prim_view(prims@), table_view(table@)) == Ok::<
                Option<(Seq<char>, JsonModel)>,
                Seq<char>,
            >(Some((e.0@, e.1.model()))),
            Ok(None) => prompt_node(node.model(), prim_view(prims@), table_view(table@)) == Ok::<
                Option<(Seq<char>, JsonModel)>,
                Seq<char>,
            >(None),
            Err(e) => prompt_node(node.model(), prim_view(prims@), table_view(table@)) == Err::<
                Option<(Seq<char>, JsonModel)>,
                Seq<char>,
            >(e@),
        },
{
    let id = match node.get("id") {
        Some(x) => x.scalar_text(),
        None => {
            return Err(String::from_str("visual workflow node has no id"));
        },
    };
    if id.as_str().is_empty() {
        return Err(String::from_str("visual workflow node has no id"));
    }
    let class_type: String = match node.get("type") {
        Some(Json::Str(t)) => t.clone(),
        _ => {
            return Err(node_error(id.as_str(), " has no type"));
        },
    };
    if class_type.as_str().is_empty() {
        return Err(node_error(id.as_str(), " has no type"));
    }
    if text_eq(class_type.as_str(), "PrimitiveNode") || text_eq(class_type.as_str(), "MarkdownNote") {
        return Ok(None);
    }
    let input_nodes: Option<&Vec<Json>> = match node.get("inputs") {
        Some(Json::Array(a)) => Some(a),
        _ => None,
    };
    let wvals: Option<&Vec<Json>> = match node.get("widgets_values") {
        Some(Json::Array(a)) => Some(a),
        _ => None,
    };
    let names = visual_widget_names(class_type.as_str());
    let mut es: Vec<(String, Json)> = match input_nodes {
        Some(ins) => match prompt_inputs(ins, id.as_str(), &names, wvals, prims, table) {
            Ok(es) => es,
            Err(e) => {
                return Err(e);
            },
        },
        None => {
            let v: Vec<(String, Json)> = Vec::new();
            assert(entry_models(v@) =~= Seq::empty());
            v
        },
    };
    widget_defaults_exec(&mut es, &names, input_nodes, wvals);
    let mut members: Vec<(String, Json)> = Vec::new();
    members.push((String::from_str("class_type"), Json::Str(class_type)));
    members.push((String::from_str("inputs"), Json::Object(es)));
    proof {
        lemma_entry_models_len(members@);
        lemma_entry_models_index(members@, 0);
        lemma_entry_models_index(members@, 1);
    }
    assert(entry_models(members@) =~= seq![
        ("class_type"@, members@[0].1.model()),
        ("inputs"@, members@[1].1.model()),
    ]);
    Ok(Some((id, Json::Object(members))))
}

fn all_have_class_type_exec(es: &Vec<(String, Json)>) -> (r: bool)
    ensures
        r == all_have_class_type(entry_models(es@)),
{
    let ghost m = entry_models(es@);
    proof {
        lemma_entry_models_len(es@);
    }
    let n = es.len();
    for i in 0..n
        invariant
            n == es.len(),
            m == entry_models(es@),
            m.len() == n,
            forall|k: int| 0 <= k < i ==> jget(#[trigger] m[k].1, "class_type"@).is_some(),
    {
        proof {
            lemma_entry_models_index(es@, i as int);
        }
        if es[i].1.get("class_type").is_none() {
            assert(jget(m[i as int].1, "class_type"@).is_none());
            assert(!all_have_class_type(m));
            return false;
        }
    }
    true
}

/// The API prompt that ComfyUI runs for a workflow.
pub fn workflow_to_api_prompt(value: &Json) -> (r: Result<Json, String>)
    ensures
        match r {
            Ok(p) => api_prompt_spec(value.model()) == Ok::<JsonModel, Seq<char>>(p.model()),
            Err(e) => api_prompt_spec(value.model()) == Err::<JsonModel, Seq<char>>(e@),
        },
{
    let object = match value {
        Json::Object(es) => es,
        _ => {
            return Err(String::from_str("workflow must be a JSON object"));
        },
    };
    if all_have_class_type_exec(object) {
        return Ok(json_duplicate(value));
    }
    let nodes = match entries_find(object, "nodes") {
        Some(Json::Array(ns)) => ns,
        _ => {
            return Err(String::from_str("workflow is neither an API prompt nor a visual graph"));
        },
    };
    let empty: Vec<Json> = Vec::new();
    assert(models(empty@) =~= Seq::empty());
    let links: &Vec<Json> = match entries_find(object, "links") {
        Some(Json::Array(l)) => l,
        _ => &empty,
    };
    let mut prims = primitive_outputs_exec(nodes);
    let more = primitive_links_exec(links, nodes);
    let ghost p1 = prim_view(prims@);
    for j in 0..more.len()
        invariant
            prim_view(prims@) == p1 + prim_view(more@).take(j as int),
    {
        let ghost before = prim_view(prims@);
        prims.push((more[j].0, json_duplicate(&more[j].1)));
        assert(prim_view(more@).take(j + 1) =~= prim_view(more@).take(j as int).push(prim_view(more@)[j as int]));
        assert(prim_view(prims@) =~= before.push((more@[j as int].0, more@[j as int].1.model())));
    }
    assert(prim_view(more@).take(more.len() as int) =~= prim_view(more@));
    let table = link_table_exec(links);
    let ghost m = models(nodes@);
    assert(models(links@) == match oarr(entries_get(entry_models(object@), "links"@)) {
        Some(l) => l,
        None => Seq::empty(),
    });
    assert(prim_view(prims@) == primitive_outputs(m) + primitive_links(models(links@), m));
    let ghost pv = prim_view(prims@);
    let ghost tv = table_view(table@);
    proof {
        lemma_models_len(nodes@);
    }
    let mut prompt: Vec<(String, Json)> = Vec::new();
    assert(entry_models(prompt@) =~= Seq::empty());
    assert(m.skip(0) =~= m);
    let ghost outcome = api_prompt_spec(value.model());
    assert(outcome == match nodes_fold(m, pv, tv, Seq::empty()) {
        Err(e) => Err(e),
        Ok(p) => if p.len() == 0 {
            Err("visual workflow has no nodes"@)
        } else {
            Ok(JsonModel::Object(p))
        },
    });
    let n = nodes.len();
    for i in 0..n
        invariant
            n == nodes.len(),
            m == models(nodes@),
            m.len() == n,
            pv == prim_view(prims@),
            tv == table_view(table@),
            outcome == api_prompt_spec(value.model()),
            outcome == match nodes_fold(m, pv, tv, Seq::empty()) {
                Err(e) => Err(e),
                Ok(p) => if p.len() == 0 {
                    Err("visual workflow has no nodes"@)
                } else {
                    Ok(JsonModel::Object(p))
                },
            },
            nodes_fold(m, pv, tv, Seq::empty()) == nodes_fold(
                m.skip(i as int),
                pv,
                tv,
                entry_models(prompt@),
            ),
    {
        proof {
            lemma_models_index(nodes@, i as int);
        }
        assert(m.skip(i as int).drop_first() =~= m.skip(i + 1));
        assert(m.skip(i as int)[0] == m[i as int]);
        match prompt_node_exec(&nodes[i], &prims, &table) {
            Err(e) => {
                assert(nodes_fold(m.skip(i as int), pv, tv, entry_models(prompt@)) == Err::<Seq<(Seq<char>, JsonModel)>, Seq<char>>(e@));
                assert(nodes_fold(m, pv, tv, Seq::empty()) == Err::<Seq<(Seq<char>, JsonModel)>, Seq<char>>(e@));
                return Err(e);
            },
            Ok(None) => {},
            Ok(Some((id, entry))) => {
                entries_put(&mut prompt, id, entry);
            },
        }
    }
    assert(m.skip(n as int) =~= Seq::<JsonModel>::empty());
    proof {
        lemma_entry_models_len(prompt@);
    }
    if prompt.len() == 0 {
        return Err(String::from_str("visual workflow has no nodes"));
    }
    Ok(Json::Object(prompt))
}


proof fn lemma_prompt_node_has_class_type(
    node: JsonModel,
    prims: Seq<(i64, JsonModel)>,
    table: Seq<(i64, Seq<char>, i64)>,
)
    ensures
        match prompt_node(node, prims, table) {
            Ok(Some((id, entry))) => jget(entry, "class_type"@).is_some(),
            _ => true,
        },
{
    match prompt_node(node, prims, table) {
        Ok(Some((id, entry))) => {
            match entry {
                JsonModel::Object(es) => {
                    assert(es[0].0 == "class_type"@);
                },
                _ => {},
            }
        },
        _ => {},
    }
}

proof fn lemma_insert_keeps_class_types(
    es: Seq<(Seq<char>, JsonModel)>,
    key: Seq<char>,
    value: JsonModel,
)
    requires
        all_have_class_type(es),
        jget(value, "class_type"@).is_some(),
    ensures
        all_have_class_type(entries_insert(es, key, value)),
    decreases es.len(),
{
    let r = entries_insert(es, key, value);
    if es.len() == 0 {
    } else if es[0].0 == key {
        assert forall|i: int| 0 <= i < r.len() implies jget(#[trigger] r[i].1, "class_type"@).is_some() by {
            if i > 0 {
                assert(r[i] == es.drop_first()[i - 1]);
                assert(es.drop_first()[i - 1] == es[i]);
            }
        }
    } else if crate::json::text_lt(key, es[0].0) {
        assert forall|i: int| 0 <= i < r.len() implies jget(#[trigger] r[i].1, "class_type"@).is_some() by {
            if i > 0 {
                assert(r[i] == es[i - 1]);
            }
        }
    } else {
        let rest = es.drop_first();
        assert forall|i: int| 0 <= i < rest.len() implies jget(#[trigger] rest[i].1, "class_type"@).is_some() by {
            assert(rest[i] == es[i + 1]);
        }
        lemma_insert_keeps_class_types(rest, key, value);
        let t = entries_insert(rest, key, value);
        assert forall|i: int| 0 <= i < r.len() implies jget(#[trigger] r[i].1, "class_type"@).is_some() by {
            if i > 0 {
                assert(r[i] == t[i - 1]);
            } else {
                assert(r[0] == es[0]);
            }
        }
    }
}

proof fn lemma_fold_keeps_class_types(
    nodes: Seq<JsonModel>,
    prims: Seq<(i64, JsonModel)>,
    table: Seq<(i64, Seq<char>, i64)>,
    prompt: Seq<(Seq<char>, JsonModel)>,
)
    requires
        all_have_class_type(prompt),
    ensures
        match nodes_fold(nodes, prims, table, prompt) {
            Ok(r) => all_have_class_type(r),
            Err(_) => true,
        },
    decreases nodes.len(),
{
    if nodes.len() > 0 {
        lemma_prompt_node_has_class_type(nodes[0], prims, table);
        match prompt_node(nodes[0], prims, table) {
            Err(_) => {},
            Ok(None) => {
                lemma_fold_keeps_class_types(nodes.drop_first(), prims, table, prompt);
            },
            Ok(Some((id, entry))) => {
                lemma_insert_keeps_class_types(prompt, id, entry);
                lemma_fold_keeps_class_types(
                    nodes.drop_first(),
                    prims,
                    table,
                    entries_insert(prompt, id, entry),
                );
            },
        }
    }
}

/// A converted prompt passes through: converting what a conversion gave back returns
/// it unchanged, since each of its nodes has a `class_type`.
pub proof fn law_converted_prompt_passes_through(v: JsonModel)
    requires
        api_prompt_spec(v) is Ok,
    ensures
        api_prompt_spec(api_prompt_spec(v)->Ok_0) == api_prompt_spec(v),
{
    match v {
        JsonModel::Object(es) => {
            if !all_have_class_type(es) {
                let nodes = oarr(entries_get(es, "nodes"@)).unwrap();
                let links = match oarr(entries_get(es, "links"@)) {
                    Some(l) => l,
                    None => Seq::empty(),
                };
                let prims = primitive_outputs(nodes) + primitive_links(links, nodes);
                lemma_fold_keeps_class_types(nodes, prims, link_table(links), Seq::empty());
            }
        },
        _ => {},
    }
}

proof fn lemma_get_after_insert(
    es: Seq<(Seq<char>, JsonModel)>,
    key: Seq<char>,
    value: JsonModel,
    other: Seq<char>,
)
    ensures
        entries_get(entries_insert(es, key, value), other) == (if other == key {
            Some(value)
        } else {
            entries_get(es, other)
        }),
    decreases es.len(),
{
    let r = entries_insert(es, key, value);
    reveal_with_fuel(entries_get, 3);
    if es.len() == 0 {
        assert(r[0] == (key, value));
        assert(r.drop_first() =~= Seq::<(Seq<char>, JsonModel)>::empty());
    } else if es[0].0 == key {
        assert(r[0] == (key, value));
        assert(r.drop_first() =~= es.drop_first());
    } else if crate::json::text_lt(key, es[0].0) {
        assert(r[0] == (key, value));
        assert(r.drop_first() =~= es);
    } else {
        lemma_get_after_insert(es.drop_first(), key, value, other);
        assert(r[0] == es[0]);
        assert(r.drop_first() =~= entries_insert(es.drop_first(), key, value));
    }
}

proof fn lemma_widget_defaults_fill(
    names: Seq<&str>,
    start: int,
    wv: Seq<JsonModel>,
    es: Seq<(Seq<char>, JsonModel)>,
)
    requires
        0 <= start,
        start + names.len() <= wv.len(),
        forall|i: int, j: int| 0 <= i < j < names.len() ==> names[i]@ != names[j]@,
        forall|i: int| 0 <= i < names.len() ==> entries_get(es, (#[trigger] names[i])@).is_none(),
    ensures
        forall|j: int|
            0 <= j < names.len() ==> entries_get(
                widget_defaults(names, start, None, Some(wv), es),
                (#[trigger] names[j])@,
            ) == Some(wv[start + j]),
    decreases names.len(),
{
    if names.len() > 0 {
        let name = names[0]@;
        let es2 = entries_insert(es, name, wv[start]);
        let rest = names.drop_first();
        assert forall|i: int| 0 <= i < rest.len() implies entries_get(es2, (#[trigger] rest[i])@).is_none() by {
            assert(rest[i] == names[i + 1]);
            lemma_get_after_insert(es, name, wv[start], rest[i]@);
        }
        assert forall|i: int, j: int| 0 <= i < j < rest.len() implies rest[i]@ != rest[j]@ by {
            assert(rest[i] == names[i + 1] && rest[j] == names[j + 1]);
        }
        lemma_widget_defaults_fill(rest, start + 1, wv, es2);
        let out = widget_defaults(names, start, None, Some(wv), es);
        assert(out == widget_defaults(rest, start + 1, None, Some(wv), es2));
        assert forall|j: int| 0 <= j < names.len() implies entries_get(out, (#[trigger] names[j])@)
            == Some(wv[start + j]) by {
            if j > 0 {
                assert(names[j] == rest[j - 1]);
            } else {
                assert forall|i: int| 0 <= i < rest.len() implies rest[i]@ != name by {
                    assert(rest[i] == names[i + 1]);
                }
                lemma_widget_defaults_keep(rest, start + 1, wv, es2, name);
                lemma_get_after_insert(es, name, wv[start], name);
            }
        }
    }
}

proof fn lemma_widget_defaults_keep(
    names: Seq<&str>,
    start: int,
    wv: Seq<JsonModel>,
    es: Seq<(Seq<char>, JsonModel)>,
    key: Seq<char>,
)
    requires
        forall|i: int| 0 <= i < names.len() ==> (#[trigger] names[i])@ != key,
    ensures
        entries_get(widget_defaults(names, start, None, Some(wv), es), key) == entries_get(es, key),
    decreases names.len(),
{
    if names.len() > 0 {
        let name = names[0]@;
        let rest = names.drop_first();
        assert forall|i: int| 0 <= i < rest.len() implies (#[trigger] rest[i])@ != key by {
            assert(rest[i] == names[i + 1]);
        }
        let es2 = if entries_get(es, name).is_none() {
            match opt_seq_at(Some(wv), start) {
                Some(v) => entries_insert(es, name, v),
                None => es,
            }
        } else {
            es
        };
        lemma_widget_defaults_keep(rest, start + 1, wv, es2, key);
        if entries_get(es, name).is_none() && 0 <= start < wv.len() {
            lemma_get_after_insert(es, name, wv[start], key);
        }
    }
}

/// A visual KSampler node without inputs of its own converts to an API node whose inputs
/// take its widget values in the KSampler's widget order: the seed, its control mode,
/// the steps, the CFG, the sampler, the scheduler and the denoise, from the first value
/// to the seventh.
pub proof fn law_ksampler_widgets_fill_their_inputs(
    node: JsonModel,
    prims: Seq<(i64, JsonModel)>,
    table: Seq<(i64, Seq<char>, i64)>,
    id: Seq<char>,
    wv: Seq<JsonModel>,
)
    requires
        oscalar(jget(node, "id"@)) == Some(id),
        id.len() > 0,
        ostr(jget(node, "type"@)) == Some("KSampler"@),
        jget(node, "inputs"@).is_none(),
        oarr(jget(node, "widgets_values"@)) == Some(wv),
        wv.len() >= 7,
    ensures
        prompt_node(node, prims, table) matches Ok(Some((i, e))) && i == id && jget(
            e,
            "class_type"@,
        ) == Some(JsonModel::Str("KSampler"@)) && (crate::json::oobj(jget(e, "inputs"@)) matches Some(ins)
            && entries_get(ins, "seed"@) == Some(wv[0]) && entries_get(
            ins,
            "control_after_generate"@,
        ) == Some(wv[1]) && entries_get(ins, "steps"@) == Some(wv[2]) && entries_get(ins, "cfg"@)
            == Some(wv[3]) && entries_get(ins, "sampler_name"@) == Some(wv[4]) && entries_get(
            ins,
            "scheduler"@,
        ) == Some(wv[5]) && entries_get(ins, "denoise"@) == Some(wv[6])),
{
    reveal_strlit("KSampler");
    reveal_strlit("CheckpointLoaderSimple");
    reveal_strlit("LoraLoaderModelOnly");
    reveal_strlit("ModelSamplingAuraFlow");
    reveal_strlit("EmptyAceStep1.5LatentAudio");
    reveal_strlit("PrimitiveNode");
    reveal_strlit("MarkdownNote");
    reveal_strlit("seed");
    reveal_strlit("control_after_generate");
    reveal_strlit("steps");
    reveal_strlit("cfg");
    reveal_strlit("sampler_name");
    reveal_strlit("scheduler");
    reveal_strlit("denoise");
    let names = widget_names_spec("KSampler"@);
    assert(names == seq!["seed", "control_after_generate", "steps", "cfg", "sampler_name", "scheduler", "denoise"]);
    assert(names[0]@ == "seed"@ && names[1]@ == "control_after_generate"@ && names[2]@ == "steps"@);
    assert(names[3]@ == "cfg"@ && names[4]@ == "sampler_name"@ && names[5]@ == "scheduler"@);
    assert(names[6]@ == "denoise"@);
    assert forall|i: int, j: int| 0 <= i < j < names.len() implies names[i]@ != names[j]@ by {
        assert(names[i]@.len() != names[j]@.len());
    }
    let empty = Seq::<(Seq<char>, JsonModel)>::empty();
    lemma_widget_defaults_fill(names, 0, wv, empty);
    let ins = widget_defaults(names, 0, None, Some(wv), empty);
    assert(entries_get(ins, names[0]@) == Some(wv[0]));
    assert(entries_get(ins, names[1]@) == Some(wv[1]));
    assert(entries_get(ins, names[2]@) == Some(wv[2]));
    assert(entries_get(ins, names[3]@) == Some(wv[3]));
    assert(entries_get(ins, names[4]@) == Some(wv[4]));
    assert(entries_get(ins, names[5]@) == Some(wv[5]));
    assert(entries_get(ins, names[6]@) == Some(wv[6]));
    let e = JsonModel::Object(
        seq![("class_type"@, JsonModel::Str("KSampler"@)), ("inputs"@, JsonModel::Object(ins))],
    );
    assert(prompt_node(node, prims, table) == Ok::<Option<(Seq<char>, JsonModel)>, Seq<char>>(
        Some((id, e)),
    ));
    reveal_strlit("class_type");
    reveal_strlit("inputs");
    assert(e->Object_0[0].0 == "class_type"@);
    assert(e->Object_0[1].0 == "inputs"@);
    assert("inputs"@ != "class_type"@);
    reveal_with_fuel(entries_get, 3);
    assert(e->Object_0.drop_first() =~= seq![("inputs"@, JsonModel::Object(ins))]);
    assert(seq![("inputs"@, JsonModel::Object(ins))].drop_first() =~= Seq::<(Seq<char>, JsonModel)>::empty());
    assert(jget(e, "inputs"@) == Some(JsonModel::Object(ins)));
}
} // verus!
