//! Reading the replies of a ComfyUI server: where in a run's history the generated audio
//! file is, and what extension the downloaded copy takes.
use vstd::prelude::*;
use crate::file_system::{lower_extension, lower_extension_exec};
use crate::json::{
    entries_get, entry_models, lemma_entry_models_index, lemma_entry_models_len,
    lemma_models_index, lemma_models_len, models, ostr, Json, JsonModel,
};

verus! {

/// An audio file that a run produced, as the server names it.
#[derive(Clone, Debug, PartialEq)]
pub struct AudioOutput {
    pub filename: String,
    pub subfolder: String,
    pub output_type: String,
}

pub struct OutputModel {
    pub filename: Seq<char>,
    pub subfolder: Seq<char>,
    pub output_type: Seq<char>,
}

impl View for AudioOutput {
    type V = OutputModel;

    open spec fn view(&self) -> OutputModel {
        OutputModel {
            filename: self.filename@,
            subfolder: self.subfolder@,
            output_type: self.output_type@,
        }
    }
}

/// A file name whose lower-case extension is that of an audio format the server writes.
pub open spec fn is_audio_name(name: Seq<char>) -> bool {
    match lower_extension(name) {
        Some(e) => e == "flac"@ || e == "wav"@ || e == "mp3"@ || e == "ogg"@ || e == "opus"@,
        None => false,
    }
}

/// The output an object describes itself, when its `filename` is a text naming an
/// audio file; its `subfolder` defaults to empty and its `type` to `output`.
pub open spec fn own_output(es: Seq<(Seq<char>, JsonModel)>) -> Option<OutputModel> {
    match ostr(entries_get(es, "filename"@)) {
        Some(f) => if is_audio_name(f) {
            Some(
                OutputModel {
                    filename: f,
                    subfolder: match ostr(entries_get(es, "subfolder"@)) {
                        Some(s) => s,
                        None => Seq::empty(),
                    },
                    output_type: match ostr(entries_get(es, "type"@)) {
                        Some(t) => t,
                        None => "output"@,
                    },
                },
            )
        } else {
            None
        },
        None => None,
    }
}

/// The first audio output in a reply, searching depth first: an object's own output
/// before those of its members, members and elements in order.
pub open spec fn find_output(v: JsonModel) -> Option<OutputModel>
    decreases v,
{
    match v {
        JsonModel::Object(es) => match own_output(es) {
            Some(o) => Some(o),
            None => output_in_members(es),
        },
        JsonModel::Array(items) => output_in_items(items),
        _ => None,
    }
}

pub open spec fn output_in_members(es: Seq<(Seq<char>, JsonModel)>) -> Option<OutputModel>
    decreases es,
{
    if es.len() == 0 {
        None
    } else {
        match find_output(es[0].1) {
            Some(o) => Some(o),
            None => output_in_members(es.drop_first()),
        }
    }
}

pub open spec fn output_in_items(items: Seq<JsonModel>) -> Option<OutputModel>
    decreases items,
{
    if items.len() == 0 {
        None
    } else {
        match find_output(items[0]) {
            Some(o) => Some(o),
            None => output_in_items(items.drop_first()),
        }
    }
}

pub open spec fn output_model(o: Option<AudioOutput>) -> Option<OutputModel> {
    match o {
        Some(x) => Some(x@),
        None => None,
    }
}

fn text_or(v: Option<&Json>, fallback: &str) -> (r: String)
    ensures
        r@ == match ostr(crate::json::opt_model(v)) {
            Some(t) => t,
            None => fallback@,
        },
{
    match v {
        Some(Json::Str(t)) => t.clone(),
        _ => String::from_str(fallback),
    }
}

fn own_output_exec(es: &Vec<(String, Json)>) -> (r: Option<AudioOutput>)
    ensures
        output_model(r) == own_output(entry_models(es@)),
{
    let name = match crate::json::entries_find(es, "filename") {
        Some(Json::Str(f)) => f,
        _ => {
            return None;
        },
    };
    let audio = match lower_extension_exec(name.as_str()) {
        Some(e) => {
            let e = e.as_str();
            crate::json::text_eq(e, "flac") || crate::json::text_eq(e, "wav")
                || crate::json::text_eq(e, "mp3") || crate::json::text_eq(e, "ogg")
                || crate::json::text_eq(e, "opus")
        },
        None => false,
    };
    assert(audio == is_audio_name(name@));
    if !audio {
        return None;
    }
    proof {
        reveal_strlit("");
    }
    let subfolder = text_or(crate::json::entries_find(es, "subfolder"), "");
    let output_type = text_or(crate::json::entries_find(es, "type"), "output");
    let filename = name.clone();
    assert(filename@ == name@);
    assert(""@ =~= Seq::<char>::empty());
    Some(AudioOutput { filename, subfolder, output_type })
}

/// The first audio output in a reply of the server (see `find_output`).
pub fn find_audio_output(value: &Json) -> (r: Option<AudioOutput>)
    ensures
        output_model(r) == find_output(value.model()),
    decreases crate::json::json_size(*value),
{
    match value {
        Json::Object(es) => {
            match own_output_exec(es) {
                Some(o) => {
                    return Some(o);
                },
                None => {},
            }
            let ghost m = entry_models(es@);
            proof {
                lemma_entry_models_len(es@);
            }
            assert(find_output(value.model()) == output_in_members(m));
            assert(m.skip(0) =~= m);
            let n = es.len();
            for i in 0..n
                invariant
                    n == es.len(),
                    m == entry_models(es@),
                    m.len() == n,
                    value == Json::Object(*es),
                    find_output(value.model()) == output_in_members(m),
                    output_in_members(m) == output_in_members(m.skip(i as int)),
            {
                proof {
                    lemma_entry_models_index(es@, i as int);
                    crate::json::lemma_object_child_smaller(*value, *es, i as int);
                }
                assert(m.skip(i as int)[0] == m[i as int]);
                assert(m.skip(i as int).drop_first() =~= m.skip(i + 1));
                match find_audio_output(&es[i].1) {
                    Some(o) => {
                        return Some(o);
                    },
                    None => {},
                }
            }
            assert(m.skip(n as int).len() == 0);
            None
        },
        Json::Array(items) => {
            let ghost m = models(items@);
            proof {
                lemma_models_len(items@);
            }
            assert(find_output(value.model()) == output_in_items(m));
            assert(m.skip(0) =~= m);
            let n = items.len();
            for i in 0..n
                invariant
                    n == items.len(),
                    m == models(items@),
                    m.len() == n,
                    value == Json::Array(*items),
                    find_output(value.model()) == output_in_items(m),
                    output_in_items(m) == output_in_items(m.skip(i as int)),
            {
                proof {
                    lemma_models_index(items@, i as int);
                    crate::json::lemma_array_child_smaller(*value, *items, i as int);
                }
                assert(m.skip(i as int)[0] == m[i as int]);
                assert(m.skip(i as int).drop_first() =~= m.skip(i + 1));
                match find_audio_output(&items[i]) {
                    Some(o) => {
                        return Some(o);
                    },
                    None => {},
                }
            }
            assert(m.skip(n as int).len() == 0);
            None
        },
        _ => None,
    }
}

/// The extension the downloaded copy of an output takes: that of its name in lower case,
/// `flac` for a WAV file (it is re-encoded), `audio` when the name has none.
pub open spec fn output_extension_spec(filename: Seq<char>) -> Seq<char> {
    match lower_extension(filename) {
        Some(e) => if e == "wav"@ {
            "flac"@
        } else {
            e
        },
        None => "audio"@,
    }
}

/// The extension the downloaded copy of an output takes (see `output_extension_spec`).
pub fn output_file_extension(output: &AudioOutput) -> (r: String)
    ensures
        r@ == output_extension_spec(output.filename@),
{
    match lower_extension_exec(output.filename.as_str()) {
        Some(e) => if crate::json::text_eq(e.as_str(), "wav") {
            String::from_str("flac")
        } else {
            e
        },
        None => String::from_str("audio"),
    }
}

} // verus!
