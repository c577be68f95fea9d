//! A JSON document as the workflow logic sees it.
//!
//! Objects keep their members in ascending key order, as `serde_json`'s default map does;
//! a number is held as the text that `serde_json` prints for it.
use vstd::prelude::*;
use crate::text::{chars_of, i64_text, int_text, parse_i64, parse_i64_seq};

verus! {

/// The mathematical value of a JSON document.
pub enum JsonModel {
    Null,
    Bool(bool),
    Number(Seq<char>),
    Str(Seq<char>),
    Array(Seq<JsonModel>),
    Object(Seq<(Seq<char>, JsonModel)>),
}

/// A JSON document.
pub enum Json {
    Null,
    Bool(bool),
    /// The number's decimal text, such as `42`, `-3` or `0.8`.
    Number(String),
    Str(String),
    Array(Vec<Json>),
    Object(Vec<(String, Json)>),
}

pub open spec fn models(items: Seq<Json>) -> Seq<JsonModel>
    decreases items,
{
    if items.len() == 0 {
        Seq::empty()
    } else {
        models(items.drop_last()).push(items.last().model())
    }
}

pub open spec fn entry_models(items: Seq<(String, Json)>) -> Seq<(Seq<char>, JsonModel)>
    decreases items,
{
    if items.len() == 0 {
        Seq::empty()
    } else {
        entry_models(items.drop_last()).push((items.last().0@, items.last().1.model()))
    }
}

impl Json {
    pub open spec fn model(self) -> JsonModel
        decreases self,
    {
        match self {
            Json::Null => JsonModel::Null,
            Json::Bool(b) => JsonModel::Bool(b),
            Json::Number(t) => JsonModel::Number(t@),
            Json::Str(s) => JsonModel::Str(s@),
            Json::Array(items) => JsonModel::Array(models(items@)),
            Json::Object(items) => JsonModel::Object(entry_models(items@)),
        }
    }
}

impl View for Json {
    type V = JsonModel;

    open spec fn view(&self) -> JsonModel {
        self.model()
    }
}

pub broadcast proof fn lemma_models_len(items: Seq<Json>)
    ensures
        #[trigger] models(items).len() == items.len(),
    decreases items.len(),
{
    if items.len() > 0 {
        lemma_models_len(items.drop_last());
    }
}

pub broadcast proof fn lemma_models_index(items: Seq<Json>, i: int)
    requires
        0 <= i < items.len(),
    ensures
        #[trigger] models(items)[i] == items[i].model(),
    decreases items.len(),
{
    lemma_models_len(items.drop_last());
    if i < items.len() - 1 {
        lemma_models_index(items.drop_last(), i);
    }
}

pub broadcast proof fn lemma_entry_models_len(items: Seq<(String, Json)>)
    ensures
        #[trigger] entry_models(items).len() == items.len(),
    decreases items.len(),
{
    if items.len() > 0 {
        lemma_entry_models_len(items.drop_last());
    }
}

pub broadcast proof fn lemma_entry_models_index(items: Seq<(String, Json)>, i: int)
    requires
        0 <= i < items.len(),
    ensures
        #[trigger] entry_models(items)[i] == (items[i].0@, items[i].1.model()),
    decreases items.len(),
{
    lemma_entry_models_len(items.drop_last());
    if i < items.len() - 1 {
        lemma_entry_models_index(items.drop_last(), i);
    }
}

pub broadcast group group_json_models {
    lemma_models_len,
    lemma_models_index,
    lemma_entry_models_len,
    lemma_entry_models_index,
}

/// The number of values in a document, counting itself.
pub open spec fn json_size(j: Json) -> nat
    decreases j,
{
    match j {
        Json::Array(items) => 1 + sizes(items@),
        Json::Object(items) => 1 + entry_sizes(items@),
        _ => 1,
    }
}

pub open spec fn sizes(items: Seq<Json>) -> nat
    decreases items,
{
    if items.len() == 0 {
        0
    } else {
        sizes(items.drop_last()) + json_size(items.last())
    }
}

pub open spec fn entry_sizes(items: Seq<(String, Json)>) -> nat
    decreases items,
{
    if items.len() == 0 {
        0
    } else {
        entry_sizes(items.drop_last()) + json_size(items.last().1)
    }
}

pub proof fn lemma_sizes_index(items: Seq<Json>, i: int)
    requires
        0 <= i < items.len(),
    ensures
        json_size(items[i]) <= sizes(items),
    decreases items.len(),
{
    if i < items.len() - 1 {
        lemma_sizes_index(items.drop_last(), i);
    }
}

pub proof fn lemma_entry_sizes_index(items: Seq<(String, Json)>, i: int)
    requires
        0 <= i < items.len(),
    ensures
        json_size(items[i].1) <= entry_sizes(items),
    decreases items.len(),
{
    if i < items.len() - 1 {
        lemma_entry_sizes_index(items.drop_last(), i);
    }
}

/// An element of an array is smaller than the array.
pub proof fn lemma_array_child_smaller(j: Json, items: Vec<Json>, i: int)
    requires
        j == Json::Array(items),
        0 <= i < items@.len(),
    ensures
        json_size(items@[i]) < json_size(j),
{
    lemma_sizes_index(items@, i);
}

/// A member of an object is smaller than the object.
pub proof fn lemma_object_child_smaller(j: Json, items: Vec<(String, Json)>, i: int)
    requires
        j == Json::Object(items),
        0 <= i < items@.len(),
    ensures
        json_size(items@[i].1) < json_size(j),
{
    lemma_entry_sizes_index(items@, i);
}

/// The value of the first member named `key`.
pub open spec fn entries_get(es: Seq<(Seq<char>, JsonModel)>, key: Seq<char>) -> Option<JsonModel>
    decreases es.len(),
{
    if es.len() == 0 {
        None
    } else if es[0].0 == key {
        Some(es[0].1)
    } else {
        entries_get(es.drop_first(), key)
    }
}

/// `Value::get` with a key: the member of an object, `None` for anything else.
pub open spec fn jget(v: JsonModel, key: Seq<char>) -> Option<JsonModel> {
    match v {
        JsonModel::Object(es) => entries_get(es, key),
        _ => None,
    }
}

/// `Value::get` with an index: the element of an array, `None` for anything else.
pub open spec fn jindex(v: JsonModel, i: int) -> Option<JsonModel> {
    match v {
        JsonModel::Array(items) => if 0 <= i < items.len() {
            Some(items[i])
        } else {
            None
        },
        _ => None,
    }
}

pub open spec fn seq_at(items: Seq<JsonModel>, i: int) -> Option<JsonModel> {
    if 0 <= i < items.len() {
        Some(items[i])
    } else {
        None
    }
}

pub open spec fn jstr(v: JsonModel) -> Option<Seq<char>> {
    match v {
        JsonModel::Str(s) => Some(s),
        _ => None,
    }
}

pub open spec fn ostr(v: Option<JsonModel>) -> Option<Seq<char>> {
    match v {
        Some(x) => jstr(x),
        None => None,
    }
}

pub open spec fn ji64(v: JsonModel) -> Option<i64> {
    match v {
        JsonModel::Number(t) => parse_i64_seq(t),
        _ => None,
    }
}

pub open spec fn oi64(v: Option<JsonModel>) -> Option<i64> {
    match v {
        Some(x) => ji64(x),
        None => None,
    }
}

pub open spec fn jarr(v: JsonModel) -> Option<Seq<JsonModel>> {
    match v {
        JsonModel::Array(items) => Some(items),
        _ => None,
    }
}

pub open spec fn oarr(v: Option<JsonModel>) -> Option<Seq<JsonModel>> {
    match v {
        Some(x) => jarr(x),
        None => None,
    }
}

pub open spec fn jobj(v: JsonModel) -> Option<Seq<(Seq<char>, JsonModel)>> {
    match v {
        JsonModel::Object(es) => Some(es),
        _ => None,
    }
}

pub open spec fn oobj(v: Option<JsonModel>) -> Option<Seq<(Seq<char>, JsonModel)>> {
    match v {
        Some(x) => jobj(x),
        None => None,
    }
}

/// The text of a string, number or boolean; empty for anything else.
pub open spec fn scalar_text(v: JsonModel) -> Seq<char> {
    match v {
        JsonModel::Str(s) => s,
        JsonModel::Number(t) => t,
        JsonModel::Bool(b) => if b {
            "true"@
        } else {
            "false"@
        },
        _ => Seq::empty(),
    }
}

pub open spec fn oscalar(v: Option<JsonModel>) -> Option<Seq<char>> {
    match v {
        Some(x) => Some(scalar_text(x)),
        None => None,
    }
}

/// The model of an optional reference.
pub open spec fn opt_model(o: Option<&Json>) -> Option<JsonModel> {
    match o {
        Some(x) => Some(x.model()),
        None => None,
    }
}

/// Lexicographic order of texts by character, which for UTF-8 strings is the byte
/// order `String`'s `Ord` uses.
pub open spec fn text_lt(a: Seq<char>, b: Seq<char>) -> bool
    decreases a.len(),
{
    if a.len() == 0 {
        b.len() > 0
    } else if b.len() == 0 {
        false
    } else if a[0] != b[0] {
        (a[0] as u32) < (b[0] as u32)
    } else {
        text_lt(a.drop_first(), b.drop_first())
    }
}

/// Inserting a member into an object kept in key order, as a `BTreeMap` does:
/// an existing member of that name takes the new value in place.
pub open spec fn entries_insert(
    es: Seq<(Seq<char>, JsonModel)>,
    key: Seq<char>,
    value: JsonModel,
) -> Seq<(Seq<char>, JsonModel)>
    decreases es.len(),
{
    if es.len() == 0 {
        seq![(key, value)]
    } else if es[0].0 == key {
        seq![(key, value)] + es.drop_first()
    } else if text_lt(key, es[0].0) {
        seq![(key, value)] + es
    } else {
        seq![es[0]] + entries_insert(es.drop_first(), key, value)
    }
}

/// Removing the member named `key`, if there is one.
pub open spec fn entries_remove(es: Seq<(Seq<char>, JsonModel)>, key: Seq<char>) -> Seq<
    (Seq<char>, JsonModel),
>
    decreases es.len(),
{
    if es.len() == 0 {
        es
    } else if es[0].0 == key {
        es.drop_first()
    } else {
        seq![es[0]] + entries_remove(es.drop_first(), key)
    }
}

/// Text equality.
pub fn text_eq(a: &str, b: &str) -> (r: bool)
    ensures
        r == (a@ == b@),
{
    let x = chars_of(a);
    let y = chars_of(b);
    if x.len() != y.len() {
        return false;
    }
    let n = x.len();
    for i in 0..n
        invariant
            n == x.len(),
            n == y.len(),
            x@ == a@,
            y@ == b@,
            forall|k: int| 0 <= k < i ==> x@[k] == y@[k],
    {
        if x[i] != y[i] {
            return false;
        }
    }
    assert(x@ =~= y@);
    true
}

pub fn text_less(a: &Vec<char>, b: &Vec<char>) -> (r: bool)
    ensures
        r == text_lt(a@, b@),
{
    let mut i: usize = 0;
    assert(a@.skip(0) =~= a@);
    assert(b@.skip(0) =~= b@);
    while i < a.len() && i < b.len() && a[i] == b[i]
        invariant
            i <= a.len(),
            i <= b.len(),
            text_lt(a@, b@) == text_lt(a@.skip(i as int), b@.skip(i as int)),
        decreases a.len() - i,
    {
        assert(a@.skip(i as int).drop_first() =~= a@.skip(i + 1));
        assert(b@.skip(i as int).drop_first() =~= b@.skip(i + 1));
        i = i + 1;
    }
    if i == a.len() {
        i < b.len()
    } else if i == b.len() {
        false
    } else {
        (a[i] as u32) < (b[i] as u32)
    }
}

/// The first member of `entries` named `key`.
pub fn entries_find<'a>(entries: &'a Vec<(String, Json)>, key: &str) -> (r: Option<&'a Json>)
    ensures
        opt_model(r) == entries_get(entry_models(entries@), key@),
{
    broadcast use group_json_models;

    let n = entries.len();
    let ghost es = entry_models(entries@);
    assert(es.skip(0) =~= es);
    for i in 0..n
        invariant
            n == entries.len(),
            es.len() == n,
            es == entry_models(entries@),
            entries_get(es, key@) == entries_get(es.skip(i as int), key@),
    {
        proof {
            lemma_entry_models_index(entries@, i as int);
        }
        assert(es.skip(i as int)[0] == es[i as int]);
        assert(es.skip(i as int).drop_first() =~= es.skip(i + 1));
        if text_eq(entries[i].0.as_str(), key) {
            return Some(&entries[i].1);
        }
    }
    assert(es.skip(n as int).len() == 0);
    None
}

/// Whether `entries` has a member named `key`.
pub fn entries_contains(entries: &Vec<(String, Json)>, key: &str) -> (r: bool)
    ensures
        r == entries_get(entry_models(entries@), key@).is_some(),
{
    entries_find(entries, key).is_some()
}

/// `map.insert(key, value)` on an object's members.
pub fn entries_put(entries: &mut Vec<(String, Json)>, key: String, value: Json)
    ensures
        entry_models(final(entries)@) == entries_insert(
            entry_models(old(entries)@),
            key@,
            value.model(),
        ),
{
    broadcast use group_json_models;

    let ghost old_es = entry_models(entries@);
    let key_chars = chars_of(key.as_str());
    let n = entries.len();
    let mut i: usize = 0;
    let mut done = false;
    assert(old_es.skip(0) =~= old_es);
    assert(old_es.take(0) =~= Seq::<(Seq<char>, JsonModel)>::empty());
    while i < n && !done
        invariant
            n == entries.len(),
            old_es.len() == n,
            0 <= i <= n,
            old_es == entry_models(entries@),
            key_chars@ == key@,
            entries_insert(old_es, key@, value.model()) == old_es.take(i as int) + entries_insert(
                old_es.skip(i as int),
                key@,
                value.model(),
            ),
            done ==> i < n && (old_es[i as int].0 == key@ || text_lt(key@, old_es[i as int].0)),
        decreases n - i, if done { 0int } else { 1int },
    {
        let here = chars_of(entries[i].0.as_str());
        proof {
            lemma_entry_models_index(entries@, i as int);
        }
        assert(old_es.skip(i as int)[0] == old_es[i as int]);
        assert(old_es.skip(i as int).drop_first() =~= old_es.skip(i + 1));
        if text_eq(entries[i].0.as_str(), key.as_str()) || text_less(&key_chars, &here) {
            done = true;
        } else {
            assert(old_es.take(i + 1) =~= old_es.take(i as int).push(old_es[i as int]));
            assert(old_es.take(i as int) + (seq![old_es[i as int]] + entries_insert(
                old_es.skip(i + 1),
                key@,
                value.model(),
            )) =~= old_es.take(i + 1) + entries_insert(old_es.skip(i + 1), key@, value.model()));
            i = i + 1;
        }
    }
    let ghost vm = value.model();
    let ghost km = key@;
    if i < n && text_eq(entries[i].0.as_str(), key.as_str()) {
        let ghost before = entries@;
        proof {
            lemma_entry_models_index(entries@, i as int);
            lemma_entry_models_len(entries@);
        }
        assert(old_es.skip(i as int)[0] == old_es[i as int]);
        entries.set(i, (key, value));
        proof {
            lemma_entry_models_len(entries@);
        }
        assert(entry_models(entries@) =~= old_es.take(i as int) + (seq![(km, vm)]
            + old_es.skip(i as int).drop_first())) by {
            assert forall|k: int| 0 <= k < entries@.len() implies entry_models(entries@)[k]
                == (old_es.take(i as int) + (seq![(km, vm)] + old_es.skip(
                i as int,
            ).drop_first()))[k] by {
                if k != i {
                    assert(entries@[k] == before[k]);
                }
            }
        }
    } else {
        let ghost before = entries@;
        proof {
            lemma_entry_models_len(entries@);
            if i < n {
                lemma_entry_models_index(entries@, i as int);
                assert(old_es.skip(i as int)[0] == old_es[i as int]);
            }
        }
        entries.insert(i, (key, value));
        proof {
            lemma_entry_models_len(entries@);
        }
        if i == n {
            assert(old_es.skip(i as int) =~= Seq::<(Seq<char>, JsonModel)>::empty());
        }
        assert(entry_models(entries@) =~= old_es.take(i as int) + (seq![(km, vm)] + old_es.skip(
            i as int,
        ))) by {
            assert forall|k: int| 0 <= k < entries@.len() implies entry_models(entries@)[k]
                == (old_es.take(i as int) + (seq![(km, vm)] + old_es.skip(i as int)))[k] by {
                lemma_entry_models_index(entries@, k);
                if k < i {
                    lemma_entry_models_index(before, k);
                    assert(entries@[k] == before[k]);
                } else if k > i {
                    lemma_entry_models_index(before, k - 1);
                    assert(entries@[k] == before[k - 1]);
                }
            }
        }
    }
}

/// Removes the member named `key` from an object's members.
pub fn entries_delete(entries: &mut Vec<(String, Json)>, key: &str)
    ensures
        entry_models(final(entries)@) == entries_remove(entry_models(old(entries)@), key@),
{
    broadcast use group_json_models;

    let ghost old_es = entry_models(entries@);
    let n = entries.len();
    let mut i: usize = 0;
    assert(old_es.skip(0) =~= old_es);
    assert(old_es.take(0) =~= Seq::<(Seq<char>, JsonModel)>::empty());
    while i < n
        invariant
            n == entries.len(),
            old_es.len() == n,
            0 <= i <= n,
            old_es == entry_models(entries@),
            entries@ == old(entries)@,
            entries_remove(old_es, key@) == old_es.take(i as int) + entries_remove(
                old_es.skip(i as int),
                key@,
            ),
        decreases n - i,
    {
        proof {
            lemma_entry_models_index(entries@, i as int);
        }
        assert(old_es.skip(i as int)[0] == old_es[i as int]);
        assert(old_es.skip(i as int).drop_first() =~= old_es.skip(i + 1));
        if text_eq(entries[i].0.as_str(), key) {
            let ghost before = entries@;
            entries.remove(i);
            proof {
                lemma_entry_models_len(entries@);
                lemma_entry_models_len(before);
            }
            assert(entry_models(entries@) =~= old_es.take(i as int) + old_es.skip(i + 1)) by {
                assert forall|k: int| 0 <= k < entries@.len() implies entry_models(entries@)[k]
                    == (old_es.take(i as int) + old_es.skip(i + 1))[k] by {
                    lemma_entry_models_index(entries@, k);
                    if k < i {
                        lemma_entry_models_index(before, k);
                        assert(entries@[k] == before[k]);
                    } else {
                        lemma_entry_models_index(before, k + 1);
                        assert(entries@[k] == before[k + 1]);
                    }
                }
            }
            assert(old_es[i as int].0 == key@);
            assert(entries_remove(old_es.skip(i as int), key@) == old_es.skip(i + 1));
            assert(entry_models(entries@) == entries_remove(old_es, key@));
            return ;
        }
        assert(old_es.take(i + 1) =~= old_es.take(i as int).push(old_es[i as int]));
        assert(old_es.take(i as int) + (seq![old_es[i as int]] + entries_remove(
            old_es.skip(i + 1),
            key@,
        )) =~= old_es.take(i + 1) + entries_remove(old_es.skip(i + 1), key@));
        i = i + 1;
    }
    assert(old_es.skip(n as int).len() == 0);
    assert(old_es.take(n as int) =~= old_es);
}

/// A copy of a document with the same value.
pub fn json_duplicate(j: &Json) -> (r: Json)
    ensures
        r.model() == j.model(),
    decreases json_size(*j),
{
    broadcast use group_json_models;

        match j {
            Json::Null => Json::Null,
            Json::Bool(b) => Json::Bool(*b),
            Json::Number(t) => Json::Number(t.clone()),
            Json::Str(s) => Json::Str(s.clone()),
            Json::Array(items) => {
                let mut out: Vec<Json> = Vec::new();
                let n = items.len();
                for i in 0..n
                    invariant
                        n == items.len(),
                        j == Json::Array(*items),
                        out.len() == i,
                        forall|k: int| 0 <= k < i ==> out@[k].model() == items@[k].model(),
                {
                    proof {
                        lemma_array_child_smaller(*j, *items, i as int);
                    }
                    let c = json_duplicate(&items[i]);
                    out.push(c);
                }
                assert(models(out@) =~= models(items@));
                Json::Array(out)
            },
            Json::Object(entries) => {
                let mut out: Vec<(String, Json)> = Vec::new();
                let n = entries.len();
                for i in 0..n
                    invariant
                        n == entries.len(),
                        j == Json::Object(*entries),
                        out.len() == i,
                        forall|k: int|
                            0 <= k < i ==> out@[k].0@ == entries@[k].0@ && out@[k].1.model()
                                == entries@[k].1.model(),
                {
                    proof {
                        lemma_object_child_smaller(*j, *entries, i as int);
                    }
                    let c = json_duplicate(&entries[i].1);
                    out.push((entries[i].0.clone(), c));
                }
                assert(entry_models(out@) =~= entry_models(entries@));
                Json::Object(out)
            },
        }
}

impl Json {
    /// A copy with the same value.
    pub fn duplicate(&self) -> (r: Json)
        ensures
            r.model() == self.model(),
    {
        json_duplicate(self)
    }

    /// `Value::get` with a key.
    pub fn get(&self, key: &str) -> (r: Option<&Json>)
        ensures
            opt_model(r) == jget(self.model(), key@),
    {
        match self {
            Json::Object(entries) => entries_find(entries, key),
            _ => None,
        }
    }

    /// `Value::get` with an index.
    pub fn at(&self, i: usize) -> (r: Option<&Json>)
        ensures
            opt_model(r) == jindex(self.model(), i as int),
    {
        broadcast use group_json_models;

        match self {
            Json::Array(items) => {
                assert(models(items@).len() == items@.len());
                if i < items.len() {
                    Some(&items[i])
                } else {
                    None
                }
            },
            _ => None,
        }
    }

    pub fn as_str(&self) -> (r: Option<&String>)
        ensures
            match r {
                Some(s) => jstr(self.model()) == Some(s@),
                None => jstr(self.model()).is_none(),
            },
    {
        match self {
            Json::Str(s) => Some(s),
            _ => None,
        }
    }

    pub fn as_i64(&self) -> (r: Option<i64>)
        ensures
            r == ji64(self.model()),
    {
        match self {
            Json::Number(t) => parse_i64(t.as_str()),
            _ => None,
        }
    }

    pub fn as_array(&self) -> (r: Option<&Vec<Json>>)
        ensures
            match r {
                Some(items) => jarr(self.model()) == Some(models(items@)),
                None => jarr(self.model()).is_none(),
            },
    {
        match self {
            Json::Array(items) => Some(items),
            _ => None,
        }
    }

    pub fn as_object(&self) -> (r: Option<&Vec<(String, Json)>>)
        ensures
            match r {
                Some(es) => jobj(self.model()) == Some(entry_models(es@)),
                None => jobj(self.model()).is_none(),
            },
    {
        match self {
            Json::Object(es) => Some(es),
            _ => None,
        }
    }

    pub fn is_string(&self) -> (r: bool)
        ensures
            r == (self.model() is Str),
    {
        match self {
            Json::Str(_) => true,
            _ => false,
        }
    }

    pub fn is_object(&self) -> (r: bool)
        ensures
            r == (self.model() is Object),
    {
        match self {
            Json::Object(_) => true,
            _ => false,
        }
    }

    pub fn is_array(&self) -> (r: bool)
        ensures
            r == (self.model() is Array),
    {
        match self {
            Json::Array(_) => true,
            _ => false,
        }
    }

    /// The text of a string, number or boolean; empty for anything else.
    pub fn scalar_text(&self) -> (r: String)
        ensures
            r@ == scalar_text(self.model()),
    {
        match self {
            Json::Str(s) => s.clone(),
            Json::Number(t) => t.clone(),
            Json::Bool(b) => {
                if *b {
                    String::from_str("true")
                } else {
                    String::from_str("false")
                }
            },
            _ => String::new(),
        }
    }

    /// `json!(n)` for an integer.
    pub fn from_i64(n: i64) -> (r: Json)
        ensures
            r.model() == JsonModel::Number(int_text(n as int)),
    {
        Json::Number(i64_text(n))
    }

    /// `Value::String`.
    pub fn from_text(s: &str) -> (r: Json)
        ensures
            r.model() == JsonModel::Str(s@),
    {
        Json::Str(String::from_str(s))
    }
}

/// `Option<&Value>::map(scalar_text)`.
pub fn opt_scalar(v: Option<&Json>) -> (r: Option<String>)
    ensures
        match r {
            Some(s) => oscalar(opt_model(v)) == Some(s@),
            None => oscalar(opt_model(v)).is_none(),
        },
{
    match v {
        Some(x) => Some(x.scalar_text()),
        None => None,
    }
}


/// Whether two documents have the same value, as `Value`'s `==` decides.
pub fn json_equal(a: &Json, b: &Json) -> (r: bool)
    ensures
        r == (a.model() == b.model()),
    decreases json_size(*a),
{
    broadcast use group_json_models;

    match (a, b) {
        (Json::Null, Json::Null) => true,
        (Json::Bool(x), Json::Bool(y)) => *x == *y,
        (Json::Number(x), Json::Number(y)) => text_eq(x.as_str(), y.as_str()),
        (Json::Str(x), Json::Str(y)) => text_eq(x.as_str(), y.as_str()),
        (Json::Array(xs), Json::Array(ys)) => {
            proof {
                lemma_models_len(xs@);
                lemma_models_len(ys@);
            }
            if xs.len() != ys.len() {
                return false;
            }
            let n = xs.len();
            for i in 0..n
                invariant
                    n == xs.len(),
                    n == ys.len(),
                    a == Json::Array(*xs),
                    b == Json::Array(*ys),
                    models(xs@).len() == n,
                    models(ys@).len() == n,
                    forall|k: int| 0 <= k < i ==> xs@[k].model() == ys@[k].model(),
            {
                proof {
                    lemma_array_child_smaller(*a, *xs, i as int);
                }
                proof {
                    lemma_models_index(xs@, i as int);
                    lemma_models_index(ys@, i as int);
                }
                if !json_equal(&xs[i], &ys[i]) {
                    assert(models(xs@)[i as int] != models(ys@)[i as int]);
                    return false;
                }
            }
            assert forall|k: int| 0 <= k < n implies models(xs@)[k] == models(ys@)[k] by {
                lemma_models_index(xs@, k);
                lemma_models_index(ys@, k);
            }
            assert(models(xs@) =~= models(ys@));
            true
        },
        (Json::Object(xs), Json::Object(ys)) => {
            proof {
                lemma_entry_models_len(xs@);
                lemma_entry_models_len(ys@);
            }
            if xs.len() != ys.len() {
                return false;
            }
            let n = xs.len();
            for i in 0..n
                invariant
                    n == xs.len(),
                    n == ys.len(),
                    a == Json::Object(*xs),
                    b == Json::Object(*ys),
                    entry_models(xs@).len() == n,
                    entry_models(ys@).len() == n,
                    forall|k: int|
                        0 <= k < i ==> xs@[k].0@ == ys@[k].0@ && xs@[k].1.model()
                            == ys@[k].1.model(),
            {
                proof {
                    lemma_object_child_smaller(*a, *xs, i as int);
                }
                proof {
                    lemma_entry_models_index(xs@, i as int);
                    lemma_entry_models_index(ys@, i as int);
                }
                if !text_eq(xs[i].0.as_str(), ys[i].0.as_str()) || !json_equal(&xs[i].1, &ys[i].1) {
                    assert(entry_models(xs@)[i as int] != entry_models(ys@)[i as int]);
                    return false;
                }
            }
            assert forall|k: int| 0 <= k < n implies entry_models(xs@)[k] == entry_models(ys@)[k] by {
                lemma_entry_models_index(xs@, k);
                lemma_entry_models_index(ys@, k);
            }
            assert(entry_models(xs@) =~= entry_models(ys@));
            true
        },
        _ => false,
    }
}

/// A lower-case hex digit.
pub open spec fn hex_digit(n: int) -> char {
    if n < 10 {
        (48 + n) as char
    } else {
        (87 + n) as char
    }
}

/// How `serde_json` writes a character inside a JSON string: `"` and `\` behind a
/// backslash; backspace, form feed, line feed, carriage return and tab as `\b`, `\f`,
/// `\n`, `\r`, `\t`; the other characters below U+0020 as `\u00` and two hex digits;
/// every other character as it is.
pub open spec fn escaped_char(c: char) -> Seq<char> {
    if c == '"' {
        seq!['\\', '"']
    } else if c == '\\' {
        seq!['\\', '\\']
    } else if c == '\x08' {
        seq!['\\', 'b']
    } else if c == '\x0c' {
        seq!['\\', 'f']
    } else if c == '\n' {
        seq!['\\', 'n']
    } else if c == '\r' {
        seq!['\\', 'r']
    } else if c == '\t' {
        seq!['\\', 't']
    } else if (c as int) < 32 {
        seq!['\\', 'u', '0', '0', hex_digit((c as int) / 16), hex_digit((c as int) % 16)]
    } else {
        seq![c]
    }
}

/// The characters of a text, each written as `escaped_char` writes it.
pub open spec fn escaped(s: Seq<char>) -> Seq<char>
    decreases s.len(),
{
    if s.len() == 0 {
        Seq::empty()
    } else {
        escaped(s.drop_last()) + escaped_char(s.last())
    }
}

/// The JSON text of a string: its escaped characters between double quotes.
pub open spec fn quoted_text(s: Seq<char>) -> Seq<char> {
    seq!['"'] + escaped(s) + seq!['"']
}

/// `serde_json::to_string` on a string slice: the text between double quotes, each
/// character escaped as `serde_json`'s escape table says (see `escaped_char`). Writing
/// into memory cannot fail, so the error arm is never taken.
#[verifier::external_body]
fn json_quoted(s: &str) -> (r: String)
    ensures
        r@ == quoted_text(s@),
{
    match serde_json::to_string(s) {
        Ok(t) => t,
        Err(_) => String::new(),
    }
}

/// The compact JSON text of a document, as `Value`'s `Display` prints it.
pub open spec fn json_text_spec(v: JsonModel) -> Seq<char>
    decreases v,
{
    match v {
        JsonModel::Null => "null"@,
        JsonModel::Bool(b) => if b {
            "true"@
        } else {
            "false"@
        },
        JsonModel::Number(t) => t,
        JsonModel::Str(s) => quoted_text(s),
        JsonModel::Array(items) => "["@ + items_text(items) + "]"@,
        JsonModel::Object(es) => "{"@ + members_text(es) + "}"@,
    }
}

/// The items of an array, separated by commas.
pub open spec fn items_text(items: Seq<JsonModel>) -> Seq<char>
    decreases items,
{
    if items.len() == 0 {
        Seq::empty()
    } else if items.len() == 1 {
        json_text_spec(items[0])
    } else {
        json_text_spec(items[0]) + ","@ + items_text(items.drop_first())
    }
}

/// The members of an object, as `"key":value`, separated by commas.
pub open spec fn members_text(es: Seq<(Seq<char>, JsonModel)>) -> Seq<char>
    decreases es,
{
    if es.len() == 0 {
        Seq::empty()
    } else if es.len() == 1 {
        quoted_text(es[0].0) + ":"@ + json_text_spec(es[0].1)
    } else {
        quoted_text(es[0].0) + ":"@ + json_text_spec(es[0].1) + ","@ + members_text(es.drop_first())
    }
}

/// The compact JSON text of a document.
pub fn json_text(v: &Json) -> (r: String)
    ensures
        r@ == json_text_spec(v.model()),
    decreases json_size(*v),
{
    broadcast use group_json_models;

    match v {
        Json::Null => String::from_str("null"),
        Json::Bool(b) => if *b {
            String::from_str("true")
        } else {
            String::from_str("false")
        },
        Json::Number(t) => t.clone(),
        Json::Str(s) => json_quoted(s.as_str()),
        Json::Array(items) => {
            let ghost m = models(items@);
            proof {
                lemma_models_len(items@);
            }
            let n = items.len();
            let mut body = String::new();
            let mut i = n;
            assert(m.skip(n as int) =~= Seq::<JsonModel>::empty());
            while i > 0
                invariant
                    i <= n,
                    n == items.len(),
                    m == models(items@),
                    m.len() == n,
                    v == Json::Array(*items),
                    body@ == items_text(m.skip(i as int)),
                decreases i,
            {
                i = i - 1;
                proof {
                    lemma_array_child_smaller(*v, *items, i as int);
                }
                proof {
                    lemma_models_index(items@, i as int);
                }
                let t = json_text(&items[i]);
                assert(m.skip(i as int).drop_first() =~= m.skip(i + 1));
                assert(m.skip(i as int)[0] == m[i as int]);
                let mut next = t;
                if i + 1 < n {
                    next.append(",");
                }
                next.append(body.as_str());
                body = next;
            }
            assert(m.skip(0) =~= m);
            let mut out = String::from_str("[");
            out.append(body.as_str());
            out.append("]");
            out
        },
        Json::Object(es) => {
            let ghost m = entry_models(es@);
            proof {
                lemma_entry_models_len(es@);
            }
            let n = es.len();
            let mut body = String::new();
            let mut i = n;
            assert(m.skip(n as int) =~= Seq::<(Seq<char>, JsonModel)>::empty());
            while i > 0
                invariant
                    i <= n,
                    n == es.len(),
                    m == entry_models(es@),
                    m.len() == n,
                    v == Json::Object(*es),
                    body@ == members_text(m.skip(i as int)),
                decreases i,
            {
                i = i - 1;
                proof {
                    lemma_object_child_smaller(*v, *es, i as int);
                }
                proof {
                    lemma_entry_models_index(es@, i as int);
                }
                let mut next = json_quoted(es[i].0.as_str());
                next.append(":");
                let t = json_text(&es[i].1);
                next.append(t.as_str());
                assert(m.skip(i as int).drop_first() =~= m.skip(i + 1));
                assert(m.skip(i as int)[0] == m[i as int]);
                if i + 1 < n {
                    next.append(",");
                }
                next.append(body.as_str());
                body = next;
            }
            assert(m.skip(0) =~= m);
            let mut out = String::from_str("{");
            out.append(body.as_str());
            out.append("}");
            out
        },
    }
}


/// The object with the first member named `key` given `value`; unchanged when there is
/// no such member.
pub open spec fn entries_set(
    es: Seq<(Seq<char>, JsonModel)>,
    key: Seq<char>,
    value: JsonModel,
) -> Seq<(Seq<char>, JsonModel)>
    decreases es.len(),
{
    if es.len() == 0 {
        es
    } else if es[0].0 == key {
        es.update(0, (key, value))
    } else {
        seq![es[0]] + entries_set(es.drop_first(), key, value)
    }
}

proof fn lemma_entry_models_update(v: Seq<(String, Json)>, i: int, x: (String, Json))
    requires
        0 <= i < v.len(),
    ensures
        entry_models(v.update(i, x)) == entry_models(v).update(i, (x.0@, x.1.model())),
{
    lemma_entry_models_len(v);
    lemma_entry_models_len(v.update(i, x));
    assert forall|k: int| 0 <= k < v.len() implies entry_models(v.update(i, x))[k] == entry_models(
        v,
    ).update(i, (x.0@, x.1.model()))[k] by {
        lemma_entry_models_index(v, k);
        lemma_entry_models_index(v.update(i, x), k);
    }
    assert(entry_models(v.update(i, x)) =~= entry_models(v).update(i, (x.0@, x.1.model())));
}

proof fn lemma_models_update(v: Seq<Json>, i: int, x: Json)
    requires
        0 <= i < v.len(),
    ensures
        models(v.update(i, x)) == models(v).update(i, x.model()),
{
    lemma_models_len(v);
    lemma_models_len(v.update(i, x));
    assert forall|k: int| 0 <= k < v.len() implies models(v.update(i, x))[k] == models(v).update(
        i,
        x.model(),
    )[k] by {
        lemma_models_index(v, k);
        lemma_models_index(v.update(i, x), k);
    }
    assert(models(v.update(i, x)) =~= models(v).update(i, x.model()));
}

/// The place of the first member named `key`.
pub open spec fn entries_index(es: Seq<(Seq<char>, JsonModel)>, key: Seq<char>) -> Option<int>
    decreases es.len(),
{
    if es.len() == 0 {
        None
    } else if es[0].0 == key {
        Some(0)
    } else {
        match entries_index(es.drop_first(), key) {
            Some(k) => Some(k + 1),
            None => None,
        }
    }
}

pub proof fn lemma_entries_index(es: Seq<(Seq<char>, JsonModel)>, key: Seq<char>, value: JsonModel)
    ensures
        match entries_index(es, key) {
            Some(k) => 0 <= k < es.len() && es[k].0 == key && entries_get(es, key) == Some(es[k].1)
                && entries_set(es, key, value) == es.update(k, (key, value)),
            None => entries_get(es, key).is_none() && entries_set(es, key, value) == es,
        },
    decreases es.len(),
{
    if es.len() > 0 && es[0].0 != key {
        lemma_entries_index(es.drop_first(), key, value);
        match entries_index(es.drop_first(), key) {
            Some(k) => {
                assert(seq![es[0]] + es.drop_first().update(k, (key, value)) =~= es.update(
                    k + 1,
                    (key, value),
                ));
            },
            None => {
                assert(seq![es[0]] + es.drop_first() =~= es);
            },
        }
    }
}

/// The place of the first member named `key`.
pub fn entries_position(entries: &Vec<(String, Json)>, key: &str) -> (r: Option<usize>)
    ensures
        match r {
            Some(i) => entries_index(entry_models(entries@), key@) == Some(i as int),
            None => entries_index(entry_models(entries@), key@).is_none(),
        },
{
    let ghost es = entry_models(entries@);
    proof {
        lemma_entry_models_len(entries@);
    }
    assert(es.skip(0) =~= es);
    let n = entries.len();
    for i in 0..n
        invariant
            n == entries.len(),
            es == entry_models(entries@),
            es.len() == n,
            entries_index(es, key@) == match entries_index(es.skip(i as int), key@) {
                Some(k) => Some(k + i),
                None => None,
            },
    {
        proof {
            lemma_entry_models_index(entries@, i as int);
        }
        assert(es.skip(i as int)[0] == es[i as int]);
        assert(es.skip(i as int).drop_first() =~= es.skip(i + 1));
        if text_eq(entries[i].0.as_str(), key) {
            return Some(i);
        }
    }
    assert(es.skip(n as int).len() == 0);
    None
}

/// Gives the first member named `key` the value `value`, as `Map::get_mut` and an
/// assignment do; nothing changes when there is no such member.
pub fn entries_replace(entries: &mut Vec<(String, Json)>, key: &str, value: Json)
    ensures
        entry_models(final(entries)@) == entries_set(entry_models(old(entries)@), key@, value.model()),
{
    proof {
        lemma_entries_index(entry_models(entries@), key@, value.model());
        lemma_entry_models_len(entries@);
    }
    match entries_position(entries, key) {
        Some(i) => {
            let k = entries[i].0.clone();
            proof {
                lemma_entry_models_index(entries@, i as int);
                lemma_entry_models_update(entries@, i as int, (k, value));
            }
            entries.set(i, (k, value));
        },
        None => {},
    }
}

/// A copy of `items` with element `i` replaced by `value`.
pub fn items_with(items: &Vec<Json>, i: usize, value: Json) -> (r: Vec<Json>)
    requires
        i < items.len(),
    ensures
        models(r@) == models(items@).update(i as int, value.model()),
{
    let mut out: Vec<Json> = Vec::new();
    let n = items.len();
    for k in 0..n
        invariant
            n == items.len(),
            out.len() == k,
            forall|j: int| 0 <= j < k ==> out@[j].model() == items@[j].model(),
    {
        out.push(json_duplicate(&items[k]));
    }
    proof {
        lemma_models_len(out@);
        lemma_models_len(items@);
        assert forall|j: int| 0 <= j < n implies models(out@)[j] == models(items@)[j] by {
            lemma_models_index(out@, j);
            lemma_models_index(items@, j);
        }
        assert(models(out@) =~= models(items@));
        lemma_models_update(out@, i as int, value);
    }
    out.set(i, value);
    out
}

/// A copy of `entries` with the value of member `i` replaced by `value`.
pub fn entries_with(entries: &Vec<(String, Json)>, i: usize, value: Json) -> (r: Vec<(String, Json)>)
    requires
        i < entries.len(),
    ensures
        entry_models(r@) == entry_models(entries@).update(
            i as int,
            (entry_models(entries@)[i as int].0, value.model()),
        ),
{
    let mut out: Vec<(String, Json)> = Vec::new();
    let n = entries.len();
    for k in 0..n
        invariant
            n == entries.len(),
            out.len() == k,
            forall|j: int|
                0 <= j < k ==> out@[j].0@ == entries@[j].0@ && out@[j].1.model()
                    == entries@[j].1.model(),
    {
        out.push((entries[k].0.clone(), json_duplicate(&entries[k].1)));
    }
    let key = entries[i].0.clone();
    proof {
        lemma_entry_models_len(out@);
        lemma_entry_models_len(entries@);
        assert forall|j: int| 0 <= j < n implies entry_models(out@)[j] == entry_models(entries@)[j] by {
            lemma_entry_models_index(out@, j);
            lemma_entry_models_index(entries@, j);
        }
        assert(entry_models(out@) =~= entry_models(entries@));
        lemma_entry_models_update(out@, i as int, (key, value));
        lemma_entry_models_index(entries@, i as int);
    }
    out.set(i, (key, value));
    out
}

/// A place found by `entries_index` is a place of the object.
pub proof fn lemma_entries_index_bound(es: Seq<(Seq<char>, JsonModel)>, key: Seq<char>)
    ensures
        match entries_index(es, key) {
            Some(k) => 0 <= k < es.len() && es[k].0 == key,
            None => true,
        },
    decreases es.len(),
{
    if es.len() > 0 && es[0].0 != key {
        lemma_entries_index_bound(es.drop_first(), key);
    }
}

/// Reading a member after setting one: the member set reads as its new value, when it
/// was there; every other member reads as before.
pub proof fn lemma_get_after_set(
    es: Seq<(Seq<char>, JsonModel)>,
    key: Seq<char>,
    value: JsonModel,
    other: Seq<char>,
)
    ensures
        entries_get(entries_set(es, key, value), other) == if other == key && entries_get(
            es,
            key,
        ).is_some() {
            Some(value)
        } else {
            entries_get(es, other)
        },
    decreases es.len(),
{
    if es.len() > 0 {
        if es[0].0 == key {
            let t = es.update(0, (key, value));
            assert(t.drop_first() =~= es.drop_first());
        } else {
            lemma_get_after_set(es.drop_first(), key, value, other);
            let t = seq![es[0]] + entries_set(es.drop_first(), key, value);
            assert(t[0] == es[0]);
            assert(t.drop_first() =~= entries_set(es.drop_first(), key, value));
        }
    }
}

/// A copy of a list of documents.
pub fn copy_items(items: &Vec<Json>) -> (r: Vec<Json>)
    ensures
        models(r@) == models(items@),
{
    let mut out: Vec<Json> = Vec::new();
    let n = items.len();
    for k in 0..n
        invariant
            n == items.len(),
            out.len() == k,
            forall|j: int| 0 <= j < k ==> out@[j].model() == items@[j].model(),
    {
        out.push(json_duplicate(&items[k]));
    }
    proof {
        lemma_models_len(out@);
        lemma_models_len(items@);
        assert forall|j: int| 0 <= j < n implies models(out@)[j] == models(items@)[j] by {
            lemma_models_index(out@, j);
            lemma_models_index(items@, j);
        }
    }
    assert(models(out@) =~= models(items@));
    out
}

} // verus!
