//! Where the metadata of an audio file lives, and the index of audio files that the
//! workspace keeps.
use vstd::prelude::*;
use crate::json::text_eq;
use crate::paths::{
    absolute_path, components, extension_of, file_name, file_name_of, is_absolute, is_normal,
    join_path, last_dot, last_dot_exec, path_components, push_path, render, render_path,
    same_path, same_path_exec, set_name, stem_of, strip_prefix, strip_prefix_spec, with_name,
};

verus! {

/// A LoRA file and the tag given to it.
#[derive(Clone, Debug)]
pub struct LoraMetadata {
    pub filename: String,
    pub custom_tag: String,
}

/// One stem file of an export.
#[derive(Clone, Debug)]
pub struct StemFile {
    pub kind: String,
    pub path: String,
    pub hash: String,
}

/// One stem separation of an audio file.
#[derive(Clone, Debug)]
pub struct StemExport {
    pub parent_path: String,
    pub parent_hash: String,
    pub model: String,
    pub format: String,
    pub output_folder: String,
    pub stems: Vec<StemFile>,
    pub exported_at: String,
}

/// The stem separations made in a folder.
#[derive(Clone, Debug)]
pub struct StemExportManifest {
    pub exports: Vec<StemExport>,
}

/// The beats between the points that comment ends snap to, for the quantization chosen
/// in the list: one to four beats for the first four entries, then eight and sixteen;
/// none (no snapping) for any other entry.
pub fn comment_quantization_beats(index: i32) -> (r: u32)
    ensures
        r == if 1 <= index <= 4 {
            index as u32
        } else if index == 5 {
            8
        } else if index == 6 {
            16
        } else {
            0
        },
{
    if 1 <= index && index <= 4 {
        index as u32
    } else if index == 5 {
        8
    } else if index == 6 {
        16
    } else {
        0
    }
}

/// What the workspace index records of an audio file, apart from its comments and
/// play position.
#[derive(Clone, Debug)]
pub struct AudioFileMetadata {
    pub checksum: String,
    pub original_file_name: String,
    pub current_file_name: String,
    pub file_path: String,
    pub rating: u8,
    pub label_id: Option<u64>,
    pub tag_ids: Vec<u64>,
    pub user_comments: String,
    pub custom_tag: String,
    pub modified_date: String,
    pub waveform_cache_key: String,
}

impl AudioFileMetadata {
    /// The rating, at most five stars.
    pub fn normalized_rating(&self) -> (r: u8)
        ensures
            r == if self.rating > 5 {
                5
            } else {
                self.rating
            },
    {
        if self.rating > 5 {
            5
        } else {
            self.rating
        }
    }

    /// A record of a file with nothing but its names and place.
    pub fn downloaded(
        checksum: String,
        original_file_name: String,
        current_file_name: String,
        file_path: String,
    ) -> (r: Self)
        ensures
            r.checksum@ == checksum@,
            r.original_file_name@ == original_file_name@,
            r.current_file_name@ == current_file_name@,
            r.file_path@ == file_path@,
            r.rating == 0,
            r.label_id.is_none(),
            r.tag_ids@.len() == 0,
            r.user_comments@.len() == 0,
            r.custom_tag@.len() == 0,
            r.modified_date@.len() == 0,
            r.waveform_cache_key@.len() == 0,
    {
        AudioFileMetadata {
            checksum,
            original_file_name,
            current_file_name,
            file_path,
            rating: 0,
            label_id: None,
            tag_ids: Vec::new(),
            user_comments: String::new(),
            custom_tag: String::new(),
            modified_date: String::new(),
            waveform_cache_key: String::new(),
        }
    }
}

pub open spec fn texts_of(v: Seq<String>) -> Seq<Seq<char>> {
    v.map_values(|s: String| s@)
}

/// `folder/.adbstudio/<sub>`.
pub open spec fn private_dir(folder: Seq<char>, sub: Seq<char>) -> Seq<char> {
    push_path(push_path(folder, ".adbstudio"@), sub)
}

/// The workflow kept beside an audio file: its name with `.workflow.json` added.
pub open spec fn adjacent_with_suffix(audio: Seq<char>, suffix: Seq<char>) -> Option<Seq<char>> {
    match file_name_of(audio) {
        Some(name) => Some(render(is_absolute(audio), with_name(components(audio), name + suffix))),
        None => None,
    }
}

/// Where the workflow of an audio file inside `folder` is: beside the file when one is
/// there (`adjacent_is_file`), else under `.adbstudio/workflows` at the file's place in
/// the folder. `None` for a file outside the folder or without a name.
pub open spec fn workflow_path_spec(folder: Seq<char>, audio: Seq<char>, adjacent_is_file: bool) -> Option<
    Seq<char>,
> {
    match strip_prefix_spec(audio, folder) {
        Some(rel) => if rel.len() > 0 && is_normal(rel.last()) {
            let name = rel.last() + ".workflow.json"@;
            if adjacent_is_file {
                Some(render(is_absolute(audio), with_name(components(audio), name)))
            } else {
                Some(push_path(private_dir(folder, "workflows"@), render(false, with_name(rel, name))))
            }
        } else {
            None
        },
        None => None,
    }
}

/// The path of a file with its last component renamed.
fn renamed(path: &str, name: &str) -> (r: String)
    ensures
        r@ == render(is_absolute(path@), with_name(components(path@), name@)),
{
    let mut cs = path_components(path);
    set_name(&mut cs, name);
    render_path(absolute_path(path), &cs)
}

/// The path a workflow kept beside the audio file would have.
pub fn adjacent_workflow_path(audio_path: &str) -> (r: Option<String>)
    ensures
        match r {
            Some(p) => adjacent_with_suffix(audio_path@, ".workflow.json"@) == Some(p@),
            None => adjacent_with_suffix(audio_path@, ".workflow.json"@).is_none(),
        },
{
    match file_name(audio_path) {
        Some(name) => {
            let mut n = name;
            n.append(".workflow.json");
            Some(renamed(audio_path, n.as_str()))
        },
        None => None,
    }
}

/// Where the workflow of an audio file is (see `workflow_path_spec`).
pub fn workflow_path(folder: &str, audio_path: &str, adjacent_is_file: bool) -> (r: Option<String>)
    ensures
        match r {
            Some(p) => workflow_path_spec(folder@, audio_path@, adjacent_is_file) == Some(p@),
            None => workflow_path_spec(folder@, audio_path@, adjacent_is_file).is_none(),
        },
{
    let mut rel = match strip_prefix(audio_path, folder) {
        Some(r) => r,
        None => {
            return None;
        },
    };
    let n = rel.len();
    if n == 0 || !crate::paths::is_normal_exec(rel[n - 1].as_str()) {
        return None;
    }
    let mut name = rel[n - 1].clone();
    name.append(".workflow.json");
    if adjacent_is_file {
        return Some(renamed(audio_path, name.as_str()));
    }
    set_name(&mut rel, name.as_str());
    let r = render_path(false, &rel);
    let d = join_path(folder, ".adbstudio");
    let w = join_path(d.as_str(), "workflows");
    Some(join_path(w.as_str(), r.as_str()))
}

/// Where the metadata of a recreated workflow is: beside the audio file when one is
/// there, else beside the workflow, with `.metadata.json` added to the name.
pub open spec fn recreated_metadata_path_spec(
    folder: Seq<char>,
    audio: Seq<char>,
    adjacent_is_file: bool,
    workflow_adjacent_is_file: bool,
) -> Option<Seq<char>> {
    match adjacent_with_suffix(audio, ".metadata.json"@) {
        Some(adjacent) => if adjacent_is_file {
            Some(adjacent)
        } else {
            match workflow_path_spec(folder, audio, workflow_adjacent_is_file) {
                Some(w) => adjacent_with_suffix(w, ".metadata.json"@),
                None => None,
            }
        },
        None => None,
    }
}

/// The path the metadata of a recreated workflow would have beside the audio file.
pub fn adjacent_metadata_path(audio_path: &str) -> (r: Option<String>)
    ensures
        match r {
            Some(p) => adjacent_with_suffix(audio_path@, ".metadata.json"@) == Some(p@),
            None => adjacent_with_suffix(audio_path@, ".metadata.json"@).is_none(),
        },
{
    match file_name(audio_path) {
        Some(name) => {
            let mut n = name;
            n.append(".metadata.json");
            Some(renamed(audio_path, n.as_str()))
        },
        None => None,
    }
}

/// Where the metadata of a recreated workflow is (see `recreated_metadata_path_spec`).
pub fn recreated_metadata_path(
    folder: &str,
    audio_path: &str,
    adjacent_is_file: bool,
    workflow_adjacent_is_file: bool,
) -> (r: Option<String>)
    ensures
        match r {
            Some(p) => recreated_metadata_path_spec(
                folder@,
                audio_path@,
                adjacent_is_file,
                workflow_adjacent_is_file,
            ) == Some(p@),
            None => recreated_metadata_path_spec(
                folder@,
                audio_path@,
                adjacent_is_file,
                workflow_adjacent_is_file,
            ).is_none(),
        },
{
    let adjacent = match adjacent_metadata_path(audio_path) {
        Some(a) => a,
        None => {
            return None;
        },
    };
    if adjacent_is_file {
        return Some(adjacent);
    }
    match workflow_path(folder, audio_path, workflow_adjacent_is_file) {
        Some(w) => adjacent_metadata_path(w.as_str()),
        None => None,
    }
}

/// The components with the extension of the last one set to `ext`
/// (`PathBuf::set_extension`); unchanged when the last one is no name.
pub open spec fn with_extension(cs: Seq<Seq<char>>, ext: Seq<char>) -> Seq<Seq<char>> {
    if cs.len() > 0 && is_normal(cs.last()) {
        cs.update(cs.len() - 1, stem_of(cs.last()) + "."@ + ext)
    } else {
        cs
    }
}

/// Where the comments of an audio file inside `folder` are kept: under
/// `.adbstudio/comment` at the file's place, with the extension `json`.
pub open spec fn comment_path_spec(folder: Seq<char>, audio: Seq<char>) -> Option<Seq<char>> {
    match strip_prefix_spec(audio, folder) {
        Some(rel) => Some(
            push_path(private_dir(folder, "comment"@), render(false, with_extension(rel, "json"@))),
        ),
        None => None,
    }
}

/// Where the comments of an audio file are kept (see `comment_path_spec`).
pub fn comment_path(folder: &str, audio_path: &str) -> (r: Option<String>)
    ensures
        match r {
            Some(p) => comment_path_spec(folder@, audio_path@) == Some(p@),
            None => comment_path_spec(folder@, audio_path@).is_none(),
        },
{
    let mut rel = match strip_prefix(audio_path, folder) {
        Some(r) => r,
        None => {
            return None;
        },
    };
    let ghost before = rel@.map_values(|c: String| c@);
    let n = rel.len();
    if n > 0 && crate::paths::is_normal_exec(rel[n - 1].as_str()) {
        let last = rel[n - 1].as_str();
        proof {
            crate::paths::lemma_last_dot_bound(last@);
        }
        let stem = match last_dot_exec(last) {
            Some(k) => {
                let v = crate::text::chars_of(last);
                let t = crate::text::slice_chars(&v, 0, k);
                assert(t@ =~= last@.take(k as int));
                crate::text::string_of(t.as_slice())
            },
            None => String::from_str(last),
        };
        let mut name = stem;
        name.append(".");
        name.append("json");
        rel.set(n - 1, name);
        assert(rel@.map_values(|c: String| c@) =~= with_extension(before, "json"@));
    } else {
        assert(rel@.map_values(|c: String| c@) =~= with_extension(before, "json"@));
    }
    let r = render_path(false, &rel);
    let d = join_path(folder, ".adbstudio");
    let c = join_path(d.as_str(), "comment");
    Some(join_path(c.as_str(), r.as_str()))
}

pub struct AudioModel {
    pub checksum: Seq<char>,
    pub original_file_name: Seq<char>,
    pub current_file_name: Seq<char>,
    pub file_path: Seq<char>,
    pub rating: u8,
    pub label_id: Option<u64>,
    pub tag_ids: Seq<u64>,
    pub user_comments: Seq<char>,
    pub custom_tag: Seq<char>,
    pub modified_date: Seq<char>,
    pub waveform_cache_key: Seq<char>,
}

impl View for AudioFileMetadata {
    type V = AudioModel;

    open spec fn view(&self) -> AudioModel {
        AudioModel {
            checksum: self.checksum@,
            original_file_name: self.original_file_name@,
            current_file_name: self.current_file_name@,
            file_path: self.file_path@,
            rating: self.rating,
            label_id: self.label_id,
            tag_ids: self.tag_ids@,
            user_comments: self.user_comments@,
            custom_tag: self.custom_tag@,
            modified_date: self.modified_date@,
            waveform_cache_key: self.waveform_cache_key@,
        }
    }
}

pub open spec fn audio_models(v: Seq<AudioFileMetadata>) -> Seq<AudioModel> {
    v.map_values(|m: AudioFileMetadata| m@)
}

/// The name of the file a path names, or the empty text.
pub open spec fn name_or_empty(path: Seq<char>) -> Seq<char> {
    match file_name_of(path) {
        Some(n) => n,
        None => Seq::empty(),
    }
}

/// The record that a download of `original` to `path` updates: the same content, the
/// same path, or the same names.
pub open spec fn is_download_record(
    m: AudioModel,
    checksum: Seq<char>,
    path: Seq<char>,
    original: Seq<char>,
) -> bool {
    (checksum.len() > 0 && m.checksum == checksum) || m.file_path == path || (m.current_file_name
        == name_or_empty(path) && m.original_file_name == original)
}

pub open spec fn first_download_record(
    ms: Seq<AudioModel>,
    checksum: Seq<char>,
    path: Seq<char>,
    original: Seq<char>,
) -> Option<int>
    decreases ms.len(),
{
    if ms.len() == 0 {
        None
    } else if is_download_record(ms[0], checksum, path, original) {
        Some(0)
    } else {
        match first_download_record(ms.drop_first(), checksum, path, original) {
            Some(k) => Some(k + 1),
            None => None,
        }
    }
}

/// The index after recording that `original` was downloaded to `path` with content
/// `checksum`: the record it matches takes the new names, or a new record is added.
pub open spec fn record_download_spec(
    ms: Seq<AudioModel>,
    checksum: Seq<char>,
    path: Seq<char>,
    original: Seq<char>,
) -> Seq<AudioModel> {
    match first_download_record(ms, checksum, path, original) {
        Some(k) => ms.update(
            k,
            AudioModel {
                checksum,
                original_file_name: original,
                current_file_name: name_or_empty(path),
                file_path: path,
                ..ms[k]
            },
        ),
        None => ms.push(
            AudioModel {
                checksum,
                original_file_name: original,
                current_file_name: name_or_empty(path),
                file_path: path,
                rating: 0,
                label_id: None,
                tag_ids: Seq::empty(),
                user_comments: Seq::empty(),
                custom_tag: Seq::empty(),
                modified_date: Seq::empty(),
                waveform_cache_key: Seq::empty(),
            },
        ),
    }
}

fn name_or_empty_exec(path: &str) -> (r: String)
    ensures
        r@ == name_or_empty(path@),
{
    match file_name(path) {
        Some(n) => n,
        None => {
            let e = String::new();
            assert(e@ =~= Seq::<char>::empty());
            e
        },
    }
}

/// Records in the index that `original_file_name` was downloaded to `current_path`,
/// whose content has the checksum `checksum` (see `record_download_spec`).
pub fn record_downloaded_audio(
    index: &mut Vec<AudioFileMetadata>,
    checksum: &str,
    original_file_name: &str,
    current_path: &str,
)
    ensures
        audio_models(final(index)@) == record_download_spec(
            audio_models(old(index)@),
            checksum@,
            current_path@,
            original_file_name@,
        ),
{
    let ghost ms = audio_models(index@);
    let current_name = name_or_empty_exec(current_path);
    let n = index.len();
    assert(ms.skip(0) =~= ms);
    let mut found: Option<usize> = None;
    let mut i: usize = 0;
    while i < n && found.is_none()
        invariant
            n == index.len(),
            ms == audio_models(index@),
            i <= n,
            current_name@ == name_or_empty(current_path@),
            found.is_none() ==> first_download_record(ms, checksum@, current_path@, original_file_name@)
                == match first_download_record(
                    ms.skip(i as int),
                    checksum@,
                    current_path@,
                    original_file_name@,
                ) {
                    Some(k) => Some(k + i),
                    None => None,
                },
            found.is_some() ==> first_download_record(ms, checksum@, current_path@, original_file_name@)
                == Some(found.unwrap() as int) && found.unwrap() < n,
        decreases n - i, if found.is_none() { 1int } else { 0int },
    {
        assert(ms.skip(i as int)[0] == ms[i as int]);
        assert(ms.skip(i as int).drop_first() =~= ms.skip(i + 1));
        let m = &index[i];
        if (!checksum.is_empty() && text_eq(m.checksum.as_str(), checksum)) || text_eq(
            m.file_path.as_str(),
            current_path,
        ) || (text_eq(m.current_file_name.as_str(), current_name.as_str()) && text_eq(
            m.original_file_name.as_str(),
            original_file_name,
        )) {
            found = Some(i);
        } else {
            i = i + 1;
        }
    }
    if found.is_none() {
        assert(ms.skip(i as int).len() == 0);
    }
    match found {
        Some(k) => {
            let ghost before = index@;
            assert(audio_models(before)[k as int] == before[k as int]@);
            let mut m = index.remove(k);
            assert(m@ == ms[k as int]);
            m.checksum = String::from_str(checksum);
            m.original_file_name = String::from_str(original_file_name);
            m.current_file_name = current_name;
            m.file_path = String::from_str(current_path);
            let ghost mm = m@;
            assert(mm == AudioModel {
                checksum: checksum@,
                original_file_name: original_file_name@,
                current_file_name: name_or_empty(current_path@),
                file_path: current_path@,
                ..ms[k as int]
            });
            index.insert(k, m);
            assert(index@ =~= before.update(k as int, m));
            assert(audio_models(index@) =~= ms.update(k as int, mm));
            assert(first_download_record(ms, checksum@, current_path@, original_file_name@) == Some(
                k as int,
            ));
            assert(record_download_spec(ms, checksum@, current_path@, original_file_name@)
                == ms.update(k as int, mm));
        },
        None => {
            let m = AudioFileMetadata::downloaded(
                String::from_str(checksum),
                String::from_str(original_file_name),
                current_name,
                String::from_str(current_path),
            );
            let ghost mm = m@;
            assert(mm.tag_ids =~= Seq::<u64>::empty());
            assert(mm.user_comments =~= Seq::<char>::empty());
            assert(mm.custom_tag =~= Seq::<char>::empty());
            assert(mm.modified_date =~= Seq::<char>::empty());
            assert(mm.waveform_cache_key =~= Seq::<char>::empty());
            index.push(m);
            assert(audio_models(index@) =~= ms.push(mm));
        },
    }
}

/// Whether the index records a download of `original_file_name` to a path that is
/// there: `existing_paths` are the recorded paths that exist on disk.
pub fn has_downloaded_audio(
    index: &Vec<AudioFileMetadata>,
    original_file_name: &str,
    existing_paths: &Vec<String>,
) -> (r: bool)
    ensures
        r == exists|i: int|
            0 <= i < index@.len() && #[trigger] index@[i].original_file_name@ == original_file_name@
                && index@[i].file_path@.len() > 0 && texts_of(existing_paths@).contains(
                index@[i].file_path@,
            ),
{
    let n = index.len();
    for i in 0..n
        invariant
            n == index.len(),
            forall|k: int|
                0 <= k < i ==> !(#[trigger] index@[k].original_file_name@ == original_file_name@
                    && index@[k].file_path@.len() > 0 && texts_of(existing_paths@).contains(
                    index@[k].file_path@,
                )),
    {
        let m = &index[i];
        if text_eq(m.original_file_name.as_str(), original_file_name)
            && !m.file_path.as_str().is_empty() && crate::comfyui::graph::texts_contain(
            existing_paths,
            m.file_path.as_str(),
        ) {
            assert(texts_of(existing_paths@) =~= crate::comfyui::graph::texts(existing_paths@));
            return true;
        }
        assert(texts_of(existing_paths@) =~= crate::comfyui::graph::texts(existing_paths@));
    }
    false
}

/// A record after moving `source` to `destination`: a file at or under `source` takes
/// the path at the same place under `destination`, and that path's file name.
pub open spec fn moved_record(m: AudioModel, source: Seq<char>, destination: Seq<char>) -> AudioModel {
    match strip_prefix_spec(m.file_path, source) {
        Some(rel) => {
            let p = push_path(destination, render(false, rel));
            AudioModel { file_path: p, current_file_name: name_or_empty(p), ..m }
        },
        None => m,
    }
}

/// Updates the index after `source` (a file or a folder) was moved to `destination`;
/// `true` when a record changed its path.
pub fn rename_audio_metadata(index: &mut Vec<AudioFileMetadata>, source: &str, destination: &str) -> (r:
    bool)
    ensures
        audio_models(final(index)@) == audio_models(old(index)@).map_values(
            |m: AudioModel| moved_record(m, source@, destination@),
        ),
        r == exists|i: int|
            0 <= i < old(index)@.len() && strip_prefix_spec(
                #[trigger] audio_models(old(index)@)[i].file_path,
                source@,
            ).is_some(),
{
    let ghost ms = audio_models(index@);
    let mut out: Vec<AudioFileMetadata> = Vec::new();
    let mut changed = false;
    let n = index.len();
    while index.len() > 0
        invariant
            n == out.len() + index.len(),
            audio_models(out@) == ms.take(out.len() as int).map_values(
                |m: AudioModel| moved_record(m, source@, destination@),
            ),
            audio_models(index@) == ms.skip(out.len() as int),
            ms.len() == n,
            changed == exists|i: int|
                0 <= i < out.len() && strip_prefix_spec(#[trigger] ms[i].file_path, source@).is_some(),
        decreases index.len(),
    {
        let ghost k = out.len() as int;
        let ghost rest = index@;
        assert(audio_models(rest)[0] == rest[0]@);
        assert(ms.skip(k)[0] == ms[k]);
        let mut m = index.remove(0);
        assert(m@ == ms[k]);
        assert(index@ == rest.drop_first());
        assert(audio_models(rest.drop_first()) =~= audio_models(rest).drop_first());
        assert(ms.skip(k).drop_first() =~= ms.skip(k + 1));
        assert(audio_models(index@) =~= ms.skip(k + 1));
        match strip_prefix(m.file_path.as_str(), source) {
            Some(rel) => {
                let r = render_path(false, &rel);
                let p = join_path(destination, r.as_str());
                m.current_file_name = name_or_empty_exec(p.as_str());
                m.file_path = p;
                changed = true;
            },
            None => {},
        }
        let ghost before = out@;
        out.push(m);
        assert(audio_models(out@) =~= audio_models(before).push(moved_record(ms[k], source@, destination@)));
        assert(ms.take(k + 1) =~= ms.take(k).push(ms[k]));
        assert(audio_models(out@) =~= ms.take(k + 1).map_values(
            |m: AudioModel| moved_record(m, source@, destination@),
        ));
    }
    assert(ms.take(n as int) =~= ms);
    *index = out;
    changed
}


proof fn lemma_first_download_record(
    ms: Seq<AudioModel>,
    checksum: Seq<char>,
    path: Seq<char>,
    original: Seq<char>,
)
    ensures
        match first_download_record(ms, checksum, path, original) {
            Some(k) => 0 <= k < ms.len() && is_download_record(ms[k], checksum, path, original)
                && forall|i: int| 0 <= i < k ==> !is_download_record(#[trigger] ms[i], checksum, path, original),
            None => forall|i: int| 0 <= i < ms.len() ==> !is_download_record(#[trigger] ms[i], checksum, path, original),
        },
    decreases ms.len(),
{
    if ms.len() > 0 && !is_download_record(ms[0], checksum, path, original) {
        lemma_first_download_record(ms.drop_first(), checksum, path, original);
        assert forall|i: int| 0 < i < ms.len() implies ms[i] == ms.drop_first()[i - 1] by {}
    }
}

proof fn lemma_first_download_record_at(
    ms: Seq<AudioModel>,
    checksum: Seq<char>,
    path: Seq<char>,
    original: Seq<char>,
    k: int,
)
    requires
        0 <= k < ms.len(),
        is_download_record(ms[k], checksum, path, original),
        forall|i: int| 0 <= i < k ==> !is_download_record(#[trigger] ms[i], checksum, path, original),
    ensures
        first_download_record(ms, checksum, path, original) == Some(k),
{
    lemma_first_download_record(ms, checksum, path, original);
    match first_download_record(ms, checksum, path, original) {
        Some(j) => {
            if j < k {
                assert(!is_download_record(ms[j], checksum, path, original));
            } else if k < j {
                assert(!is_download_record(ms[k], checksum, path, original));
            }
        },
        None => {
            assert(!is_download_record(ms[k], checksum, path, original));
        },
    }
}

/// A recorded download is found again: afterwards the index holds a record of the
/// original name at the path it was downloaded to. Recording it once more changes
/// nothing, so a download is recorded once.
pub proof fn law_download_is_recorded_once(
    ms: Seq<AudioModel>,
    checksum: Seq<char>,
    path: Seq<char>,
    original: Seq<char>,
)
    ensures
        ({
            let after = record_download_spec(ms, checksum, path, original);
            &&& exists|i: int|
                0 <= i < after.len() && (#[trigger] after[i]).original_file_name == original
                    && after[i].file_path == path
            &&& record_download_spec(after, checksum, path, original) == after
        }),
{
    lemma_first_download_record(ms, checksum, path, original);
    let after = record_download_spec(ms, checksum, path, original);
    match first_download_record(ms, checksum, path, original) {
        Some(k) => {
            assert(after[k].file_path == path);
            assert forall|i: int| 0 <= i < k implies !is_download_record(
                #[trigger] after[i],
                checksum,
                path,
                original,
            ) by {
                assert(after[i] == ms[i]);
            }
            lemma_first_download_record_at(after, checksum, path, original, k);
            assert(record_download_spec(after, checksum, path, original) =~= after);
        },
        None => {
            let k = ms.len() as int;
            assert(after[k].file_path == path);
            assert forall|i: int| 0 <= i < k implies !is_download_record(
                #[trigger] after[i],
                checksum,
                path,
                original,
            ) by {
                assert(after[i] == ms[i]);
            }
            lemma_first_download_record_at(after, checksum, path, original, k);
            assert(record_download_spec(after, checksum, path, original) =~= after);
        },
    }
}

/// The tag ids of an audio file after a tag is given (added at the end unless it is
/// there) or taken away (every copy).
pub open spec fn assigned_tags(ids: Seq<u64>, tag: u64, add: bool) -> Seq<u64> {
    if add {
        if ids.contains(tag) {
            ids
        } else {
            ids.push(tag)
        }
    } else {
        without_tag(ids, tag)
    }
}

/// The ids other than `tag`, in order.
pub open spec fn without_tag(ids: Seq<u64>, tag: u64) -> Seq<u64>
    decreases ids.len(),
{
    if ids.len() == 0 {
        ids
    } else if ids.last() == tag {
        without_tag(ids.drop_last(), tag)
    } else {
        without_tag(ids.drop_last(), tag).push(ids.last())
    }
}

proof fn lemma_without_tag(ids: Seq<u64>, tag: u64)
    ensures
        !without_tag(ids, tag).contains(tag),
    decreases ids.len(),
{
    if ids.len() > 0 {
        lemma_without_tag(ids.drop_last(), tag);
        let rest = without_tag(ids.drop_last(), tag);
        if ids.last() != tag {
            assert forall|i: int| 0 <= i < rest.len() + 1 implies rest.push(ids.last())[i] != tag by {
                if i < rest.len() {
                    assert(rest.push(ids.last())[i] == rest[i]);
                }
            }
        }
    }
}

/// Gives an audio file the tag `tag_id`, or takes it away (see `assigned_tags`).
pub fn assign_tag(tag_ids: &mut Vec<u64>, tag_id: u64, add: bool)
    ensures
        final(tag_ids)@ == assigned_tags(old(tag_ids)@, tag_id, add),
{
    let ghost ids = tag_ids@;
    if add {
        let mut present = false;
        let n = tag_ids.len();
        for j in 0..n
            invariant
                n == tag_ids.len(),
                tag_ids@ == ids,
                present == ids.take(j as int).contains(tag_id),
        {
            assert(ids.take(j + 1) =~= ids.take(j as int).push(ids[j as int]));
            if tag_ids[j] == tag_id {
                present = true;
                assert(ids.take(j + 1)[j as int] == tag_id);
            }
        }
        assert(ids.take(n as int) =~= ids);
        if !present {
            tag_ids.push(tag_id);
        }
        assert(tag_ids@ == assigned_tags(ids, tag_id, true));
    } else {
        let mut kept: Vec<u64> = Vec::new();
        let n = tag_ids.len();
        for j in 0..n
            invariant
                n == tag_ids.len(),
                tag_ids@ == ids,
                kept@ == without_tag(ids.take(j as int), tag_id),
        {
            assert(ids.take(j + 1).drop_last() =~= ids.take(j as int));
            if tag_ids[j] != tag_id {
                kept.push(tag_ids[j]);
            }
            assert(ids.take(j + 1).last() == ids[j as int]);
        }
        assert(ids.take(n as int) =~= ids);
        assert(kept@ == assigned_tags(ids, tag_id, false));
        *tag_ids = kept;
    }
}

/// Giving a tag leaves the file with it, once; taking it away leaves the file without it.
/// Giving a tag twice is giving it once.
pub proof fn law_tag_assignment(ids: Seq<u64>, tag: u64)
    ensures
        assigned_tags(ids, tag, true).contains(tag),
        !assigned_tags(ids, tag, false).contains(tag),
        assigned_tags(assigned_tags(ids, tag, true), tag, true) == assigned_tags(ids, tag, true),
{
    let given = assigned_tags(ids, tag, true);
    if !ids.contains(tag) {
        assert(given[ids.len() as int] == tag);
    }
    assert(given.contains(tag));
    let taken = assigned_tags(ids, tag, false);
    lemma_without_tag(ids, tag);
}

/// The place under `.adbstudio/workflows` that mirrors `path` inside `folder`; `path`
/// itself stands in for its place when it is outside the folder.
pub open spec fn mirrored_workflow_spec(folder: Seq<char>, path: Seq<char>) -> Seq<char> {
    push_path(
        private_dir(folder, "workflows"@),
        match strip_prefix_spec(path, folder) {
            Some(rel) => render(false, rel),
            None => path,
        },
    )
}

/// The place under `.adbstudio/workflows` that mirrors `path` (see
/// `mirrored_workflow_spec`).
pub fn mirrored_workflow(folder: &str, path: &str) -> (r: String)
    ensures
        r@ == mirrored_workflow_spec(folder@, path@),
{
    let rel = match strip_prefix(path, folder) {
        Some(cs) => render_path(false, &cs),
        None => String::from_str(path),
    };
    let d = join_path(folder, ".adbstudio");
    let w = join_path(d.as_str(), "workflows");
    join_path(w.as_str(), rel.as_str())
}

pub open spec fn or_empty(o: Option<Seq<char>>) -> Seq<char> {
    match o {
        Some(t) => t,
        None => Seq::empty(),
    }
}

/// Where the workflow of a renamed file or folder moves from and to, when it has one: for
/// a folder (`is_directory`), the mirrored folders of its old and new place; for an audio
/// file, its workflow paths before and after (empty where there is none); nothing for
/// any other file.
pub open spec fn workflow_move_spec(
    folder: Seq<char>,
    source: Seq<char>,
    destination: Seq<char>,
    is_directory: bool,
    source_adjacent_is_file: bool,
    destination_adjacent_is_file: bool,
) -> Option<(Seq<char>, Seq<char>)> {
    if is_directory {
        Some((mirrored_workflow_spec(folder, source), mirrored_workflow_spec(folder, destination)))
    } else if crate::audio::is_audio_spec(source) {
        Some(
            (
                or_empty(workflow_path_spec(folder, source, source_adjacent_is_file)),
                or_empty(workflow_path_spec(folder, destination, destination_adjacent_is_file)),
            ),
        )
    } else {
        None
    }
}

fn workflow_path_or_empty(folder: &str, path: &str, adjacent_is_file: bool) -> (r: String)
    ensures
        r@ == or_empty(workflow_path_spec(folder@, path@, adjacent_is_file)),
{
    match workflow_path(folder, path, adjacent_is_file) {
        Some(p) => p,
        None => {
            let e = String::new();
            assert(e@ =~= Seq::<char>::empty());
            e
        },
    }
}

/// Where the workflow of a renamed file or folder moves (see `workflow_move_spec`).
pub fn workflow_move(
    folder: &str,
    source: &str,
    destination: &str,
    is_directory: bool,
    source_adjacent_is_file: bool,
    destination_adjacent_is_file: bool,
) -> (r: Option<(String, String)>)
    ensures
        match r {
            Some((a, b)) => workflow_move_spec(
                folder@,
                source@,
                destination@,
                is_directory,
                source_adjacent_is_file,
                destination_adjacent_is_file,
            ) == Some((a@, b@)),
            None => workflow_move_spec(
                folder@,
                source@,
                destination@,
                is_directory,
                source_adjacent_is_file,
                destination_adjacent_is_file,
            ).is_none(),
        },
{
    if is_directory {
        Some((mirrored_workflow(folder, source), mirrored_workflow(folder, destination)))
    } else if crate::audio::is_audio(source) {
        Some(
            (
                workflow_path_or_empty(folder, source, source_adjacent_is_file),
                workflow_path_or_empty(folder, destination, destination_adjacent_is_file),
            ),
        )
    } else {
        None
    }
}

/// Where the comment files of a moved file or folder move from and to: for a folder
/// (`is_directory`), its mirrored places under `.adbstudio/comment`; for a file, its
/// comment paths; nothing when either end is outside the folder.
pub open spec fn comment_move_spec(
    folder: Seq<char>,
    source: Seq<char>,
    destination: Seq<char>,
    is_directory: bool,
) -> Option<(Seq<char>, Seq<char>)> {
    if is_directory {
        match (strip_prefix_spec(source, folder), strip_prefix_spec(destination, folder)) {
            (Some(a), Some(b)) => Some(
                (
                    push_path(push_path(folder, ".adbstudio/comment"@), render(false, a)),
                    push_path(push_path(folder, ".adbstudio/comment"@), render(false, b)),
                ),
            ),
            _ => None,
        }
    } else {
        match (comment_path_spec(folder, source), comment_path_spec(folder, destination)) {
            (Some(a), Some(b)) => Some((a, b)),
            _ => None,
        }
    }
}

/// Where the comment files of a moved file or folder move (see `comment_move_spec`).
pub fn comment_move(folder: &str, source: &str, destination: &str, is_directory: bool) -> (r: Option<
    (String, String),
>)
    ensures
        match r {
            Some((a, b)) => comment_move_spec(folder@, source@, destination@, is_directory) == Some(
                (a@, b@),
            ),
            None => comment_move_spec(folder@, source@, destination@, is_directory).is_none(),
        },
{
    if is_directory {
        let a = match strip_prefix(source, folder) {
            Some(cs) => cs,
            None => {
                return None;
            },
        };
        let b = match strip_prefix(destination, folder) {
            Some(cs) => cs,
            None => {
                return None;
            },
        };
        let base = join_path(folder, ".adbstudio/comment");
        let ra = render_path(false, &a);
        let rb = render_path(false, &b);
        Some((join_path(base.as_str(), ra.as_str()), join_path(base.as_str(), rb.as_str())))
    } else {
        let a = match comment_path(folder, source) {
            Some(p) => p,
            None => {
                return None;
            },
        };
        match comment_path(folder, destination) {
            Some(b) => Some((a, b)),
            None => None,
        }
    }
}

/// The record of a comment file after `source` moved to `destination`: its path is
/// `destination` when it was `source`, else its place under `destination`; `None` for a
/// record of a file outside `source`.
pub open spec fn moved_comment_spec(m: AudioModel, source: Seq<char>, destination: Seq<char>) -> Option<
    AudioModel,
> {
    if same_path(m.file_path, source) {
        Some(AudioModel { file_path: destination, current_file_name: name_or_empty(destination), ..m })
    } else {
        match strip_prefix_spec(m.file_path, source) {
            Some(rel) => {
                let p = push_path(destination, render(false, rel));
                Some(AudioModel { file_path: p, current_file_name: name_or_empty(p), ..m })
            },
            None => None,
        }
    }
}

/// The record of a comment file after a move (see `moved_comment_spec`).
pub fn moved_comment(m: AudioFileMetadata, source: &str, destination: &str) -> (r: Option<
    AudioFileMetadata,
>)
    ensures
        match r {
            Some(x) => moved_comment_spec(m@, source@, destination@) == Some(x@),
            None => moved_comment_spec(m@, source@, destination@).is_none(),
        },
{
    let path = if same_path_exec(m.file_path.as_str(), source) {
        String::from_str(destination)
    } else {
        match strip_prefix(m.file_path.as_str(), source) {
            Some(rel) => {
                let r = render_path(false, &rel);
                join_path(destination, r.as_str())
            },
            None => {
                return None;
            },
        }
    };
    let name = name_or_empty_exec(path.as_str());
    let mut out = m;
    out.file_path = path;
    out.current_file_name = name;
    Some(out)
}

/// Whether a stored record stands for an audio file: it has the file's checksum (when
/// that is known, that is, not empty), or its path is `path`.
pub open spec fn same_audio(m: AudioModel, checksum: Seq<char>, path: Option<Seq<char>>) -> bool {
    (checksum.len() > 0 && m.checksum == checksum) || path == Some(m.file_path)
}

/// The place of the first record of the index that stands for the audio file.
pub open spec fn first_same_audio(
    ms: Seq<AudioModel>,
    checksum: Seq<char>,
    path: Option<Seq<char>>,
) -> Option<int>
    decreases ms.len(),
{
    if ms.len() == 0 {
        None
    } else if same_audio(ms[0], checksum, path) {
        Some(0)
    } else {
        match first_same_audio(ms.drop_first(), checksum, path) {
            Some(k) => Some(k + 1),
            None => None,
        }
    }
}

proof fn lemma_first_same_audio(ms: Seq<AudioModel>, checksum: Seq<char>, path: Option<Seq<char>>)
    ensures
        match first_same_audio(ms, checksum, path) {
            Some(k) => 0 <= k < ms.len() && same_audio(ms[k], checksum, path) && forall|i: int|
                0 <= i < k ==> !same_audio(#[trigger] ms[i], checksum, path),
            None => forall|i: int| 0 <= i < ms.len() ==> !same_audio(#[trigger] ms[i], checksum, path),
        },
    decreases ms.len(),
{
    if ms.len() > 0 && !same_audio(ms[0], checksum, path) {
        lemma_first_same_audio(ms.drop_first(), checksum, path);
        assert forall|i: int| 0 < i < ms.len() implies ms[i] == ms.drop_first()[i - 1] by {}
    }
}

proof fn lemma_first_same_audio_at(
    ms: Seq<AudioModel>,
    checksum: Seq<char>,
    path: Option<Seq<char>>,
    k: int,
)
    requires
        0 <= k < ms.len(),
        same_audio(ms[k], checksum, path),
        forall|i: int| 0 <= i < k ==> !same_audio(#[trigger] ms[i], checksum, path),
    ensures
        first_same_audio(ms, checksum, path) == Some(k),
{
    lemma_first_same_audio(ms, checksum, path);
    match first_same_audio(ms, checksum, path) {
        Some(j) => {
            if j < k {
                assert(!same_audio(ms[j], checksum, path));
            } else if k < j {
                assert(!same_audio(ms[k], checksum, path));
            }
        },
        None => {
            assert(!same_audio(ms[k], checksum, path));
        },
    }
}

pub open spec fn text_opt(o: Option<&str>) -> Option<Seq<char>> {
    match o {
        Some(t) => Some(t@),
        None => None,
    }
}

pub open spec fn model_opt(o: Option<AudioFileMetadata>) -> Option<AudioModel> {
    match o {
        Some(m) => Some(m@),
        None => None,
    }
}

/// The place of the first record that stands for the audio file (see `same_audio`).
pub fn find_same_audio(index: &Vec<AudioFileMetadata>, checksum: &str, path: Option<&str>) -> (r:
    Option<usize>)
    ensures
        match r {
            Some(k) => first_same_audio(audio_models(index@), checksum@, text_opt(path)) == Some(
                k as int,
            ),
            None => first_same_audio(audio_models(index@), checksum@, text_opt(path)).is_none(),
        },
{
    let ghost ms = audio_models(index@);
    let n = index.len();
    let mut i: usize = 0;
    while i < n
        invariant
            n == index.len(),
            ms == audio_models(index@),
            i <= n,
            forall|j: int| 0 <= j < i ==> !same_audio(#[trigger] ms[j], checksum@, text_opt(path)),
        decreases n - i,
    {
        let m = &index[i];
        assert(ms[i as int] == index@[i as int]@);
        let by_path = match path {
            Some(p) => text_eq(m.file_path.as_str(), p),
            None => false,
        };
        if (!checksum.is_empty() && text_eq(m.checksum.as_str(), checksum)) || by_path {
            proof {
                lemma_first_same_audio_at(ms, checksum@, text_opt(path), i as int);
            }
            return Some(i);
        }
        i = i + 1;
    }
    proof {
        lemma_first_same_audio(ms, checksum@, text_opt(path));
        match first_same_audio(ms, checksum@, text_opt(path)) {
            Some(k) => {
                assert(!same_audio(ms[k], checksum@, text_opt(path)));
            },
            None => {},
        }
    }
    None
}

/// The index after storing `m`: it takes the place of the first record of the same audio
/// file (the same checksum, or the same path), or it is added at the end.
pub open spec fn store_spec(ms: Seq<AudioModel>, m: AudioModel) -> Seq<AudioModel> {
    match first_same_audio(ms, m.checksum, Some(m.file_path)) {
        Some(k) => ms.update(k, m),
        None => ms.push(m),
    }
}

/// Stores a record in the index (see `store_spec`).
pub fn store_audio_metadata(index: &mut Vec<AudioFileMetadata>, metadata: AudioFileMetadata)
    ensures
        audio_models(final(index)@) == store_spec(audio_models(old(index)@), metadata@),
{
    let ghost ms = audio_models(index@);
    let ghost mm = metadata@;
    let found = find_same_audio(index, metadata.checksum.as_str(), Some(metadata.file_path.as_str()));
    proof {
        lemma_first_same_audio(ms, mm.checksum, Some(mm.file_path));
    }
    match found {
        Some(k) => {
            index.set(k, metadata);
            assert(audio_models(index@) =~= ms.update(k as int, mm));
        },
        None => {
            index.push(metadata);
            assert(audio_models(index@) =~= ms.push(mm));
        },
    }
}

fn copy_metadata(m: &AudioFileMetadata) -> (r: AudioFileMetadata)
    ensures
        r@ == m@,
{
    let tag_ids = m.tag_ids.clone();
    assert(tag_ids@ =~= m.tag_ids@);
    AudioFileMetadata {
        checksum: m.checksum.clone(),
        original_file_name: m.original_file_name.clone(),
        current_file_name: m.current_file_name.clone(),
        file_path: m.file_path.clone(),
        rating: m.rating,
        label_id: m.label_id,
        tag_ids,
        user_comments: m.user_comments.clone(),
        custom_tag: m.custom_tag.clone(),
        modified_date: m.modified_date.clone(),
        waveform_cache_key: m.waveform_cache_key.clone(),
    }
}

/// A record as it is saved for the audio file at `path`: it takes the file's path and
/// name, and the checksum of its content (`file_checksum`) when it has none.
pub open spec fn saved_spec(m: AudioModel, file_checksum: Seq<char>, path: Seq<char>) -> AudioModel {
    AudioModel {
        checksum: if m.checksum.len() == 0 {
            file_checksum
        } else {
            m.checksum
        },
        file_path: path,
        current_file_name: name_or_empty(path),
        ..m
    }
}

/// Saves the metadata of the audio file at `audio_path`: the record is stored in the
/// index (see `saved_spec` and `store_spec`), and the results are the saved record and
/// the comment file to write it to, `None` for a file outside the workspace, which has
/// no comment file (the index is updated all the same). `file_checksum` is the checksum
/// of the file's content, used only where the record has none.
pub fn save_audio_metadata_checked(
    index: &mut Vec<AudioFileMetadata>,
    folder: &str,
    audio_path: &str,
    metadata: AudioFileMetadata,
    file_checksum: &str,
) -> (r: (AudioFileMetadata, Option<String>))
    ensures
        r.0@ == saved_spec(metadata@, file_checksum@, audio_path@),
        audio_models(final(index)@) == store_spec(audio_models(old(index)@), r.0@),
        match r.1 {
            Some(p) => comment_path_spec(folder@, audio_path@) == Some(p@),
            None => comment_path_spec(folder@, audio_path@).is_none(),
        },
{
    let mut m = metadata;
    if m.checksum.as_str().is_empty() {
        m.checksum = String::from_str(file_checksum);
    }
    m.file_path = String::from_str(audio_path);
    m.current_file_name = name_or_empty_exec(audio_path);
    let kept = copy_metadata(&m);
    store_audio_metadata(index, m);
    (kept, comment_path(folder, audio_path))
}

/// A record with nothing in it.
pub open spec fn empty_audio() -> AudioModel {
    AudioModel {
        checksum: Seq::empty(),
        original_file_name: Seq::empty(),
        current_file_name: Seq::empty(),
        file_path: Seq::empty(),
        rating: 0,
        label_id: None,
        tag_ids: Seq::empty(),
        user_comments: Seq::empty(),
        custom_tag: Seq::empty(),
        modified_date: Seq::empty(),
        waveform_cache_key: Seq::empty(),
    }
}

/// The record that loading the metadata of the file at `path`, whose content has
/// `checksum` (empty where it could not be read), starts from: the record of its comment
/// file (`sidecar`) where there is one; else the first record with that checksum; else
/// the first with that path; else an empty record.
pub open spec fn found_audio(
    ms: Seq<AudioModel>,
    sidecar: Option<AudioModel>,
    checksum: Seq<char>,
    path: Seq<char>,
) -> AudioModel {
    match sidecar {
        Some(m) => m,
        None => match first_same_audio(ms, checksum, None) {
            Some(k) => ms[k],
            None => match first_same_audio(ms, Seq::empty(), Some(path)) {
                Some(k) => ms[k],
                None => empty_audio(),
            },
        },
    }
}

/// Whether a loaded record is linked anew to the file: the file's checksum is known and
/// the record has another.
pub open spec fn relinks(
    ms: Seq<AudioModel>,
    sidecar: Option<AudioModel>,
    checksum: Seq<char>,
    path: Seq<char>,
) -> bool {
    checksum.len() > 0 && found_audio(ms, sidecar, checksum, path).checksum != checksum
}

/// The loaded record: the found one, which takes the file's checksum and path where it
/// is linked anew.
pub open spec fn loaded_audio(
    ms: Seq<AudioModel>,
    sidecar: Option<AudioModel>,
    checksum: Seq<char>,
    path: Seq<char>,
) -> AudioModel {
    let m = found_audio(ms, sidecar, checksum, path);
    if relinks(ms, sidecar, checksum, path) {
        AudioModel { checksum, file_path: path, ..m }
    } else {
        m
    }
}

/// Loads the metadata of the audio file at `audio_path` (see `loaded_audio`). Where the
/// record is linked anew, it is stored in the index too, and the second result is
/// `true`: the index is to be saved.
pub fn load_audio_metadata(
    index: &mut Vec<AudioFileMetadata>,
    sidecar: Option<AudioFileMetadata>,
    checksum: &str,
    audio_path: &str,
) -> (r: (AudioFileMetadata, bool))
    ensures
        r.0@ == loaded_audio(audio_models(old(index)@), model_opt(sidecar), checksum@, audio_path@),
        r.1 == relinks(audio_models(old(index)@), model_opt(sidecar), checksum@, audio_path@),
        audio_models(final(index)@) == if r.1 {
            store_spec(audio_models(old(index)@), r.0@)
        } else {
            audio_models(old(index)@)
        },
{
    let ghost ms = audio_models(index@);
    let ghost side = model_opt(sidecar);
    proof {
        reveal_strlit("");
        assert(""@ =~= Seq::<char>::empty());
        lemma_first_same_audio(ms, checksum@, None);
        lemma_first_same_audio(ms, ""@, Some(audio_path@));
    }
    let mut m = match sidecar {
        Some(m) => m,
        None => match find_same_audio(index, checksum, None) {
            Some(k) => {
                assert(ms[k as int] == index@[k as int]@);
                copy_metadata(&index[k])
            },
            None => match find_same_audio(index, "", Some(audio_path)) {
                Some(k) => {
                    assert(ms[k as int] == index@[k as int]@);
                    copy_metadata(&index[k])
                },
                None => {
                    let e = AudioFileMetadata::downloaded(
                        String::new(),
                        String::new(),
                        String::new(),
                        String::new(),
                    );
                    let ghost em = e@;
                    assert(em.checksum =~= Seq::<char>::empty());
                    assert(em.original_file_name =~= Seq::<char>::empty());
                    assert(em.current_file_name =~= Seq::<char>::empty());
                    assert(em.file_path =~= Seq::<char>::empty());
                    assert(em.tag_ids =~= Seq::<u64>::empty());
                    assert(em.user_comments =~= Seq::<char>::empty());
                    assert(em.custom_tag =~= Seq::<char>::empty());
                    assert(em.modified_date =~= Seq::<char>::empty());
                    assert(em.waveform_cache_key =~= Seq::<char>::empty());
                    assert(em == empty_audio());
                    e
                },
            },
        },
    };
    assert(m@ == found_audio(ms, side, checksum@, audio_path@));
    if !checksum.is_empty() && !text_eq(m.checksum.as_str(), checksum) {
        m.checksum = String::from_str(checksum);
        m.file_path = String::from_str(audio_path);
        let kept = copy_metadata(&m);
        store_audio_metadata(index, m);
        (kept, true)
    } else {
        (m, false)
    }
}

/// What is saved for an audio file is what a later load gives back: once a record is
/// stored, loading by its checksum and its path, with no comment file to read, finds that
/// record and leaves the index as it is.
pub proof fn law_stored_metadata_loads_back(ms: Seq<AudioModel>, m: AudioModel)
    ensures
        found_audio(store_spec(ms, m), None, m.checksum, m.file_path) == m,
        loaded_audio(store_spec(ms, m), None, m.checksum, m.file_path) == m,
        !relinks(store_spec(ms, m), None, m.checksum, m.file_path),
{
    let c = m.checksum;
    let p = m.file_path;
    let ms2 = store_spec(ms, m);
    lemma_first_same_audio(ms, c, Some(p));
    let k = match first_same_audio(ms, c, Some(p)) {
        Some(k) => k,
        None => ms.len() as int,
    };
    assert(ms2[k] == m);
    assert forall|i: int| 0 <= i < k implies #[trigger] ms2[i] == ms[i] && !same_audio(
        ms[i],
        c,
        Some(p),
    ) by {}
    if c.len() > 0 {
        assert forall|i: int| 0 <= i < k implies !same_audio(#[trigger] ms2[i], c, None) by {
            assert(ms2[i] == ms[i]);
        }
        lemma_first_same_audio_at(ms2, c, None, k);
    } else {
        assert(first_same_audio(ms2, c, None).is_none()) by {
            lemma_first_same_audio(ms2, c, None);
            match first_same_audio(ms2, c, None) {
                Some(j) => {
                    assert(same_audio(ms2[j], c, None));
                },
                None => {},
            }
        }
        assert(c =~= Seq::<char>::empty());
        assert forall|i: int| 0 <= i < k implies !same_audio(
            #[trigger] ms2[i],
            Seq::empty(),
            Some(p),
        ) by {
            assert(ms2[i] == ms[i]);
        }
        lemma_first_same_audio_at(ms2, Seq::empty(), Some(p), k);
    }
}

/// Saving the metadata of a file and loading it again gives back what was saved, from
/// its comment file as from the index: with the saved record as the comment file's
/// content, or with no comment file, loading the file by the saved checksum finds the
/// saved record and links nothing anew.
pub proof fn law_saved_metadata_loads_back(
    ms: Seq<AudioModel>,
    m: AudioModel,
    file_checksum: Seq<char>,
    path: Seq<char>,
)
    ensures
        ({
            let saved = saved_spec(m, file_checksum, path);
            let index = store_spec(ms, saved);
            &&& loaded_audio(index, Some(saved), saved.checksum, path) == saved
            &&& !relinks(index, Some(saved), saved.checksum, path)
            &&& loaded_audio(index, None, saved.checksum, path) == saved
            &&& !relinks(index, None, saved.checksum, path)
        }),
{
    law_stored_metadata_loads_back(ms, saved_spec(m, file_checksum, path));
}

/// What the checksum cache keeps of a file: its place in the workspace, its size and
/// modification time, and the checksum of its content.
#[derive(Clone, Debug)]
pub struct ChecksumCacheEntry {
    pub path: String,
    pub size: u64,
    pub modified_nanos: u128,
    pub checksum: String,
}

pub struct ChecksumEntryModel {
    pub path: Seq<char>,
    pub size: u64,
    pub modified_nanos: u128,
    pub checksum: Seq<char>,
}

impl View for ChecksumCacheEntry {
    type V = ChecksumEntryModel;

    open spec fn view(&self) -> ChecksumEntryModel {
        ChecksumEntryModel {
            path: self.path@,
            size: self.size,
            modified_nanos: self.modified_nanos,
            checksum: self.checksum@,
        }
    }
}

pub open spec fn entry_models(v: Seq<ChecksumCacheEntry>) -> Seq<ChecksumEntryModel> {
    v.map_values(|e: ChecksumCacheEntry| e@)
}

/// The key under which the checksum cache keeps a file: its path relative to the
/// workspace, with slashes only. `None` for a file outside the workspace.
pub open spec fn checksum_key_spec(folder: Seq<char>, path: Seq<char>) -> Option<Seq<char>> {
    match strip_prefix_spec(path, folder) {
        Some(rel) => Some(crate::audio::forward_slashes(render(false, rel))),
        None => None,
    }
}

/// The key of a file in the checksum cache (see `checksum_key_spec`).
pub fn checksum_key(folder: &str, path: &str) -> (r: Option<String>)
    ensures
        match r {
            Some(k) => checksum_key_spec(folder@, path@) == Some(k@),
            None => checksum_key_spec(folder@, path@).is_none(),
        },
{
    match crate::audio::relative_path(folder, path) {
        Ok(k) => Some(k),
        Err(_) => None,
    }
}

/// Whether a cache entry holds the checksum of the file with this key, size and
/// modification time.
pub open spec fn entry_fits(e: ChecksumEntryModel, key: Seq<char>, size: u64, modified_nanos: u128) -> bool {
    e.path == key && e.size == size && e.modified_nanos == modified_nanos
}

/// The first cache entry that fits the file.
pub open spec fn first_fitting(
    es: Seq<ChecksumEntryModel>,
    key: Seq<char>,
    size: u64,
    modified_nanos: u128,
) -> Option<int>
    decreases es.len(),
{
    if es.len() == 0 {
        None
    } else if entry_fits(es[0], key, size, modified_nanos) {
        Some(0)
    } else {
        match first_fitting(es.drop_first(), key, size, modified_nanos) {
            Some(k) => Some(k + 1),
            None => None,
        }
    }
}

proof fn lemma_first_fitting(es: Seq<ChecksumEntryModel>, key: Seq<char>, size: u64, modified_nanos: u128)
    ensures
        match first_fitting(es, key, size, modified_nanos) {
            Some(k) => 0 <= k < es.len() && entry_fits(es[k], key, size, modified_nanos) && forall|
                i: int,
            | 0 <= i < k ==> !entry_fits(#[trigger] es[i], key, size, modified_nanos),
            None => forall|i: int|
                0 <= i < es.len() ==> !entry_fits(#[trigger] es[i], key, size, modified_nanos),
        },
    decreases es.len(),
{
    if es.len() > 0 && !entry_fits(es[0], key, size, modified_nanos) {
        lemma_first_fitting(es.drop_first(), key, size, modified_nanos);
        assert forall|i: int| 0 < i < es.len() implies es[i] == es.drop_first()[i - 1] by {}
    }
}

/// The checksum that the cache holds for the file: that of the first entry with its
/// key, size and modification time; `None` when no entry fits, and the file is to be
/// read.
pub open spec fn cached_spec(es: Seq<ChecksumEntryModel>, key: Seq<char>, size: u64, modified_nanos: u128) -> Option<
    Seq<char>,
> {
    match first_fitting(es, key, size, modified_nanos) {
        Some(k) => Some(es[k].checksum),
        None => None,
    }
}

/// The checksum that the cache holds for a file (see `cached_spec`).
pub fn cached_checksum(
    cache: &Vec<ChecksumCacheEntry>,
    key: &str,
    size: u64,
    modified_nanos: u128,
) -> (r: Option<String>)
    ensures
        match r {
            Some(c) => cached_spec(entry_models(cache@), key@, size, modified_nanos) == Some(c@),
            None => cached_spec(entry_models(cache@), key@, size, modified_nanos).is_none(),
        },
{
    let ghost es = entry_models(cache@);
    proof {
        lemma_first_fitting(es, key@, size, modified_nanos);
    }
    let n = cache.len();
    for i in 0..n
        invariant
            n == cache.len(),
            es == entry_models(cache@),
            forall|j: int| 0 <= j < i ==> !entry_fits(#[trigger] es[j], key@, size, modified_nanos),
            match first_fitting(es, key@, size, modified_nanos) {
                Some(k) => 0 <= k < es.len() && entry_fits(es[k], key@, size, modified_nanos)
                    && forall|j: int|
                    0 <= j < k ==> !entry_fits(#[trigger] es[j], key@, size, modified_nanos),
                None => forall|j: int|
                    0 <= j < es.len() ==> !entry_fits(#[trigger] es[j], key@, size, modified_nanos),
            },
    {
        let e = &cache[i];
        assert(es[i as int] == cache@[i as int]@);
        if text_eq(e.path.as_str(), key) && e.size == size && e.modified_nanos == modified_nanos {
            proof {
                match first_fitting(es, key@, size, modified_nanos) {
                    Some(k) => {
                        if k < i {
                            assert(!entry_fits(es[k], key@, size, modified_nanos));
                        } else if i < k {
                            assert(!entry_fits(es[i as int], key@, size, modified_nanos));
                        }
                    },
                    None => {
                        assert(!entry_fits(es[i as int], key@, size, modified_nanos));
                    },
                }
            }
            return Some(e.checksum.clone());
        }
    }
    proof {
        match first_fitting(es, key@, size, modified_nanos) {
            Some(k) => {
                assert(!entry_fits(es[k], key@, size, modified_nanos));
            },
            None => {},
        }
    }
    None
}

/// The cache after keeping a newly read checksum: the entries of other files stay in
/// their order, and the new entry replaces any of its own file at the end.
pub open spec fn remember_spec(es: Seq<ChecksumEntryModel>, entry: ChecksumEntryModel) -> Seq<
    ChecksumEntryModel,
> {
    es.filter(|e: ChecksumEntryModel| e.path != entry.path).push(entry)
}

/// Keeps a newly read checksum in the cache (see `remember_spec`).
pub fn remember_checksum(cache: &mut Vec<ChecksumCacheEntry>, entry: ChecksumCacheEntry)
    ensures
        entry_models(final(cache)@) == remember_spec(entry_models(old(cache)@), entry@),
{
    let ghost es = entry_models(cache@);
    let ghost pred = |e: ChecksumEntryModel| e.path != entry@.path;
    let mut kept: Vec<ChecksumCacheEntry> = Vec::new();
    let n = cache.len();
    for i in 0..n
        invariant
            n == cache.len(),
            es == entry_models(cache@),
            pred == (|e: ChecksumEntryModel| e.path != entry@.path),
            entry_models(kept@) == es.take(i as int).filter(pred),
    {
        let e = &cache[i];
        assert(es[i as int] == cache@[i as int]@);
        proof {
            reveal(Seq::filter);
            assert(es.take(i + 1).drop_last() =~= es.take(i as int));
            assert(es.take(i + 1).last() == es[i as int]);
        }
        if !text_eq(e.path.as_str(), entry.path.as_str()) {
            let ghost before = kept@;
            kept.push(
                ChecksumCacheEntry {
                    path: e.path.clone(),
                    size: e.size,
                    modified_nanos: e.modified_nanos,
                    checksum: e.checksum.clone(),
                },
            );
            assert(entry_models(kept@) =~= entry_models(before).push(es[i as int]));
        }
    }
    assert(es.take(n as int) =~= es);
    let ghost mm = entry@;
    kept.push(entry);
    assert(entry_models(kept@) =~= es.filter(pred).push(mm));
    *cache = kept;
}

/// A checksum kept in the cache is found again: looking up the file with the key, size
/// and modification time it was kept under gives its checksum, and the cache holds one
/// entry for that file.
pub proof fn law_remembered_checksum_is_found(es: Seq<ChecksumEntryModel>, entry: ChecksumEntryModel)
    ensures
        cached_spec(remember_spec(es, entry), entry.path, entry.size, entry.modified_nanos) == Some(
            entry.checksum,
        ),
        forall|i: int|
            0 <= i < remember_spec(es, entry).len() && #[trigger] remember_spec(es, entry)[i].path
                == entry.path ==> i == remember_spec(es, entry).len() - 1,
{
    let pred = |e: ChecksumEntryModel| e.path != entry.path;
    let kept = es.filter(pred);
    let rs = remember_spec(es, entry);
    assert forall|i: int| 0 <= i < kept.len() implies #[trigger] kept[i].path != entry.path by {
        es.lemma_filter_pred(pred, i);
    }
    assert forall|i: int| 0 <= i < kept.len() implies !entry_fits(
        #[trigger] rs[i],
        entry.path,
        entry.size,
        entry.modified_nanos,
    ) by {
        assert(rs[i] == kept[i]);
    }
    lemma_first_fitting(rs, entry.path, entry.size, entry.modified_nanos);
    let k = kept.len() as int;
    assert(rs[k] == entry);
    match first_fitting(rs, entry.path, entry.size, entry.modified_nanos) {
        Some(j) => {
            if j < k {
                assert(!entry_fits(rs[j], entry.path, entry.size, entry.modified_nanos));
            } else if k < j {
                assert(!entry_fits(rs[k], entry.path, entry.size, entry.modified_nanos));
            }
        },
        None => {
            assert(!entry_fits(rs[k], entry.path, entry.size, entry.modified_nanos));
        },
    }
    assert forall|i: int|
        0 <= i < rs.len() && #[trigger] rs[i].path == entry.path implies i == rs.len() - 1 by {
        if i < k {
            assert(rs[i] == kept[i]);
        }
    }
}

/// The SHA-256 digest of a content, as 64 lower-case hex digits.
pub uninterp spec fn sha256_hex_of(content: Seq<u8>) -> Seq<char>;

/// `format!("{:x}", Sha256::digest(content))` of the `sha2` crate: the result is a
/// function of the content alone, 64 characters, each a lower-case hex digit (the 32
/// bytes of the digest, two digits each). Which digest it is, is not stated.
#[verifier::external_body]
pub(crate) fn sha256_hex(content: &[u8]) -> (r: String)
    ensures
        r@ == sha256_hex_of(content@),
        r@.len() == 64,
        forall|i: int|
            0 <= i < r@.len() ==> ('0' <= #[trigger] r@[i] <= '9' || 'a' <= r@[i] <= 'f'),
{
    format!("{:x}", <sha2::Sha256 as sha2::Digest>::digest(content))
}

/// The checksum of a file of the workspace at `path`, whose size and modification time
/// are `size` and `modified_nanos`; `content` is the file's content where it was read.
/// - `Err` for a file outside the workspace (no key, see `checksum_key_spec`); the cache
///   stays as it is.
/// - `Ok(Some(c))` with the cached checksum where an entry fits (see `cached_spec`); the
///   cache stays as it is.
/// - Else `Ok(None)` where the content was not read: it is to be read and given.
/// - Else `Ok(Some(c))` with the SHA-256 of the content, which the cache keeps under
///   the file's key, size and modification time (see `remember_spec`).
pub fn checksum_for_file(
    cache: &mut Vec<ChecksumCacheEntry>,
    folder: &str,
    path: &str,
    size: u64,
    modified_nanos: u128,
    content: Option<&[u8]>,
) -> (r: Result<Option<String>, String>)
    ensures
        match checksum_key_spec(folder@, path@) {
            None => r is Err && r->Err_0@ == "file is outside workspace"@,
            Some(key) => match cached_spec(entry_models(old(cache)@), key, size, modified_nanos) {
                Some(c) => r is Ok && r->Ok_0 is Some && r->Ok_0->Some_0@ == c,
                None => match content {
                    None => r == Ok::<Option<String>, String>(None),
                    Some(b) => r is Ok && r->Ok_0 is Some && r->Ok_0->Some_0@ == sha256_hex_of(b@),
                },
            },
        },
        entry_models(final(cache)@) == match checksum_key_spec(folder@, path@) {
            Some(key) => match (cached_spec(entry_models(old(cache)@), key, size, modified_nanos), content) {
                (None, Some(b)) => remember_spec(
                    entry_models(old(cache)@),
                    ChecksumEntryModel { path: key, size, modified_nanos, checksum: sha256_hex_of(b@) },
                ),
                _ => entry_models(old(cache)@),
            },
            None => entry_models(old(cache)@),
        },
{
    let key = match checksum_key(folder, path) {
        Some(k) => k,
        None => {
            return Err(String::from_str("file is outside workspace"));
        },
    };
    match cached_checksum(cache, key.as_str(), size, modified_nanos) {
        Some(c) => {
            return Ok(Some(c));
        },
        None => {},
    }
    match content {
        None => Ok(None),
        Some(b) => {
            let checksum = sha256_hex(b);
            let kept = checksum.clone();
            remember_checksum(cache, ChecksumCacheEntry { path: key, size, modified_nanos, checksum });
            Ok(Some(kept))
        },
    }
}
} // verus!
