//! Audio files: which files are audio, the order they are listed in, the text shown for
//! them, and the jobs run on them.
use vstd::prelude::*;
use vstd::utf8::encode_utf8;
use crate::json::{text_eq, text_lt};
use crate::paths::{
    absolute_path, components, file_name, is_absolute, join_path, path_components, push_path,
    render, render_path, same_path, same_path_exec, stem_of, strip_prefix, strip_prefix_spec,
};
use crate::file_system::{lower_extension, lower_extension_exec};
use crate::text::{chars_of, nat_text, slice_chars, string_of, trim, trim_seq, u64_text};

verus! {

/// An audio file by its extension: FLAC, MP3, Ogg, Opus or WAV.
pub open spec fn is_audio_spec(path: Seq<char>) -> bool {
    match lower_extension(path) {
        Some(e) => e == "flac"@ || e == "mp3"@ || e == "ogg"@ || e == "opus"@ || e == "wav"@,
        None => false,
    }
}

/// Whether a path names an audio file (see `is_audio_spec`).
pub fn is_audio(path: &str) -> (r: bool)
    ensures
        r == is_audio_spec(path@),
{
    match lower_extension_exec(path) {
        Some(e) => {
            let t = e.as_str();
            text_eq(t, "flac") || text_eq(t, "mp3") || text_eq(t, "ogg") || text_eq(t, "opus")
                || text_eq(t, "wav")
        },
        None => false,
    }
}

/// A conversion of one file: read from `source`, written to `temporary`, then moved to
/// `destination`.
#[derive(Clone, Debug)]
pub struct ConversionJob {
    pub source: String,
    pub temporary: String,
    pub destination: String,
}

/// A stem separation of one file of the workspace.
#[derive(Clone, Debug)]
pub struct StemJob {
    pub workspace: String,
    pub source: String,
    pub output_folder: String,
    pub format: String,
    pub overwrite: bool,
}

/// The rank of a component in path order: the root, `.`, `..`, then names.
pub open spec fn component_rank(c: Seq<char>) -> int {
    if c == "."@ {
        2
    } else if c == ".."@ {
        3
    } else {
        4
    }
}

/// A path as `Path`'s order sees it: the root first for an absolute path, then each
/// component with its rank.
pub open spec fn order_key(path: Seq<char>) -> Seq<(int, Seq<char>)> {
    let cs = components(path).map_values(|c: Seq<char>| (component_rank(c), c));
    if is_absolute(path) {
        seq![(1int, Seq::<char>::empty())] + cs
    } else {
        cs
    }
}

/// One component key before another.
pub open spec fn key_lt(a: (int, Seq<char>), b: (int, Seq<char>)) -> bool {
    a.0 < b.0 || (a.0 == b.0 && a.0 == 4 && text_lt(a.1, b.1))
}

pub open spec fn key_eq(a: (int, Seq<char>), b: (int, Seq<char>)) -> bool {
    a.0 == b.0 && (a.0 != 4 || a.1 == b.1)
}

/// Lexicographic order of component keys.
pub open spec fn keys_lt(a: Seq<(int, Seq<char>)>, b: Seq<(int, Seq<char>)>) -> bool
    decreases a.len(),
{
    if a.len() == 0 {
        b.len() > 0
    } else if b.len() == 0 {
        false
    } else if key_lt(a[0], b[0]) {
        true
    } else if key_eq(a[0], b[0]) {
        keys_lt(a.drop_first(), b.drop_first())
    } else {
        false
    }
}

/// `Path`'s order.
pub open spec fn path_lt(a: Seq<char>, b: Seq<char>) -> bool {
    keys_lt(order_key(a), order_key(b))
}

/// The first place, in a list in path order, of a path that `p` comes before.
pub open spec fn path_place(s: Seq<Seq<char>>, p: Seq<char>) -> int
    decreases s.len(),
{
    if s.len() == 0 {
        0
    } else if path_lt(p, s[0]) {
        0
    } else {
        1 + path_place(s.drop_first(), p)
    }
}

/// Paths in path order; equal ones keep their order.
pub open spec fn sorted_paths(s: Seq<Seq<char>>) -> Seq<Seq<char>>
    decreases s.len(),
{
    if s.len() == 0 {
        s
    } else {
        let t = sorted_paths(s.drop_last());
        t.insert(path_place(t, s.last()), s.last())
    }
}

/// The paths that name audio files, in order.
pub open spec fn audio_only(s: Seq<Seq<char>>) -> Seq<Seq<char>>
    decreases s.len(),
{
    if s.len() == 0 {
        s
    } else if is_audio_spec(s.last()) {
        audio_only(s.drop_last()).push(s.last())
    } else {
        audio_only(s.drop_last())
    }
}

pub open spec fn texts_of(v: Seq<String>) -> Seq<Seq<char>> {
    v.map_values(|s: String| s@)
}

pub open spec fn key_views(v: Seq<(u8, String)>) -> Seq<(int, Seq<char>)> {
    v.map_values(|k: (u8, String)| (k.0 as int, k.1@))
}

fn keys_of(path: &str) -> (r: Vec<(u8, String)>)
    ensures
        key_views(r@) == order_key(path@),
{
    let cs = path_components(path);
    let ghost m = cs@.map_values(|c: String| c@);
    let mut out: Vec<(u8, String)> = Vec::new();
    let absolute = absolute_path(path);
    if absolute {
        out.push((1u8, String::new()));
    }
    let ghost head = out@.map_values(|k: (u8, String)| (k.0 as int, k.1@));
    assert(head =~= if absolute {
        seq![(1int, Seq::<char>::empty())]
    } else {
        Seq::<(int, Seq<char>)>::empty()
    });
    let n = cs.len();
    for i in 0..n
        invariant
            n == cs.len(),
            m == cs@.map_values(|c: String| c@),
            m == components(path@),
            out@.map_values(|k: (u8, String)| (k.0 as int, k.1@)) == head + m.take(i as int).map_values(
                |c: Seq<char>| (component_rank(c), c),
            ),
    {
        let c = cs[i].as_str();
        let rank: u8 = if text_eq(c, ".") {
            2
        } else if text_eq(c, "..") {
            3
        } else {
            4
        };
        let ghost before = out@.map_values(|k: (u8, String)| (k.0 as int, k.1@));
        out.push((rank, cs[i].clone()));
        assert(m.take(i + 1) =~= m.take(i as int).push(m[i as int]));
        assert(out@.map_values(|k: (u8, String)| (k.0 as int, k.1@)) =~= before.push(
            (component_rank(m[i as int]), m[i as int]),
        ));
        assert(out@.map_values(|k: (u8, String)| (k.0 as int, k.1@)) =~= head + m.take(i + 1).map_values(
            |c: Seq<char>| (component_rank(c), c),
        ));
    }
    assert(m.take(n as int) =~= m);
    assert(key_views(out@) =~= order_key(path@));
    out
}

fn path_lt_exec(a: &str, b: &str) -> (r: bool)
    ensures
        r == path_lt(a@, b@),
{
    let ka = keys_of(a);
    let kb = keys_of(b);
    let ghost ma = key_views(ka@);
    let ghost mb = key_views(kb@);
    let mut i: usize = 0;
    assert(ma.skip(0) =~= ma);
    assert(mb.skip(0) =~= mb);
    loop
        invariant
            i <= ka.len(),
            i <= kb.len(),
            ma == key_views(ka@),
            mb == key_views(kb@),
            ma == order_key(a@),
            mb == order_key(b@),
            keys_lt(ma, mb) == keys_lt(ma.skip(i as int), mb.skip(i as int)),
        decreases ka.len() - i,
    {
        if i == ka.len() {
            assert(ma.skip(i as int).len() == 0);
            assert(mb.skip(i as int).len() == kb.len() - i);
            return i < kb.len();
        }
        if i == kb.len() {
            assert(ma.skip(i as int).len() > 0);
            assert(mb.skip(i as int).len() == 0);
            return false;
        }
        let x = &ka[i];
        let y = &kb[i];
        assert(ma.skip(i as int)[0] == (x.0 as int, x.1@));
        assert(mb.skip(i as int)[0] == (y.0 as int, y.1@));
        assert(ma.skip(i as int).len() > 0 && mb.skip(i as int).len() > 0);
        if x.0 < y.0 || (x.0 == y.0 && x.0 == 4 && text_lt_exec(x.1.as_str(), y.1.as_str())) {
            assert(key_lt(ma.skip(i as int)[0], mb.skip(i as int)[0]));
            return true;
        }
        assert(!key_lt(ma.skip(i as int)[0], mb.skip(i as int)[0]));
        if !(x.0 == y.0 && (x.0 != 4 || text_eq(x.1.as_str(), y.1.as_str()))) {
            assert(!key_eq(ma.skip(i as int)[0], mb.skip(i as int)[0]));
            return false;
        }
        assert(key_eq(ma.skip(i as int)[0], mb.skip(i as int)[0]));
        assert(ma.skip(i as int).drop_first() =~= ma.skip(i + 1));
        assert(mb.skip(i as int).drop_first() =~= mb.skip(i + 1));
        i = i + 1;
    }
}

fn text_lt_exec(a: &str, b: &str) -> (r: bool)
    ensures
        r == text_lt(a@, b@),
{
    let x = chars_of(a);
    let y = chars_of(b);
    crate::json::text_less(&x, &y)
}

/// The audio files among `paths`, in path order (`paths` are the files found under a
/// folder).
pub fn collect_files(paths: &Vec<String>) -> (r: Vec<String>)
    ensures
        texts_of(r@) == sorted_paths(audio_only(texts_of(paths@))),
{
    let ghost input = texts_of(paths@);
    let mut audio: Vec<String> = Vec::new();
    let n = paths.len();
    assert(audio_only(input.take(0)) =~= Seq::<Seq<char>>::empty());
    for i in 0..n
        invariant
            n == paths.len(),
            input == texts_of(paths@),
            texts_of(audio@) == audio_only(input.take(i as int)),
    {
        assert(input.take(i + 1).drop_last() =~= input.take(i as int));
        assert(input.take(i + 1).last() == paths@[i as int]@);
        let ghost before = texts_of(audio@);
        if is_audio(paths[i].as_str()) {
            audio.push(paths[i].clone());
            assert(texts_of(audio@) =~= before.push(paths@[i as int]@));
        }
    }
    assert(input.take(n as int) =~= input);
    let ghost filtered = texts_of(audio@);
    let mut out: Vec<String> = Vec::new();
    let m = audio.len();
    assert(filtered.take(0) =~= Seq::<Seq<char>>::empty());
    for i in 0..m
        invariant
            m == audio.len(),
            filtered == texts_of(audio@),
            texts_of(out@) == sorted_paths(filtered.take(i as int)),
    {
        assert(filtered.take(i + 1).drop_last() =~= filtered.take(i as int));
        assert(filtered.take(i + 1).last() == audio@[i as int]@);
        let ghost cur = texts_of(out@);
        assert(cur.skip(0) =~= cur);
        let mut p: usize = 0;
        while p < out.len() && !path_lt_exec(audio[i].as_str(), out[p].as_str())
            invariant
                p <= out.len(),
                cur == texts_of(out@),
                i < audio.len(),
                path_place(cur, audio@[i as int]@) == p + path_place(
                    cur.skip(p as int),
                    audio@[i as int]@,
                ),
            decreases out.len() - p,
        {
            assert(cur.skip(p as int)[0] == cur[p as int]);
            assert(cur.skip(p as int).drop_first() =~= cur.skip(p + 1));
            p = p + 1;
        }
        assert(path_place(cur, audio@[i as int]@) == p) by {
            if p < out.len() {
                assert(cur.skip(p as int)[0] == cur[p as int]);
            } else {
                assert(cur.skip(p as int).len() == 0);
            }
        }
        out.insert(p, audio[i].clone());
        assert(texts_of(out@) =~= cur.insert(p as int, audio@[i as int]@));
    }
    assert(filtered.take(m as int) =~= filtered);
    out
}

/// The sources a file operation on `source` works on: the selected paths when `source`
/// is one of them, else `source` alone.
pub fn selected_sources(selected: &Vec<String>, source: &str) -> (r: Vec<String>)
    ensures
        (exists|i: int| 0 <= i < selected@.len() && same_path(#[trigger] selected@[i]@, source@))
            ==> texts_of(r@) == texts_of(selected@),
        !(exists|i: int| 0 <= i < selected@.len() && same_path(#[trigger] selected@[i]@, source@))
            ==> texts_of(r@) == seq![source@],
{
    let n = selected.len();
    let mut found = false;
    for i in 0..n
        invariant
            n == selected.len(),
            found == exists|k: int| 0 <= k < i && same_path(#[trigger] selected@[k]@, source@),
    {
        if same_path_exec(selected[i].as_str(), source) {
            found = true;
        }
    }
    if found {
        let mut out: Vec<String> = Vec::new();
        for i in 0..n
            invariant
                n == selected.len(),
                texts_of(out@) == texts_of(selected@).take(i as int),
        {
            let ghost before = out@;
            let c = selected[i].clone();
            out.push(c);
            assert(texts_of(out@) =~= texts_of(before).push(selected@[i as int]@));
            assert(texts_of(out@) =~= texts_of(selected@).take(i + 1));
        }
        assert(texts_of(selected@).take(n as int) =~= texts_of(selected@));
        out
    } else {
        let out = vec![String::from_str(source)];
        assert(texts_of(out@) =~= seq![source@]);
        out
    }
}

/// The row of a path in the list of audio rows: the last row with that path.
pub open spec fn row_index_spec(rows: Seq<Seq<char>>, path: Seq<char>) -> Option<int>
    decreases rows.len(),
{
    if rows.len() == 0 {
        None
    } else if same_path(rows.last(), path) {
        Some(rows.len() - 1)
    } else {
        row_index_spec(rows.drop_last(), path)
    }
}

/// The row at which a path is listed, `rows` being the paths of the rows in order.
pub fn row_index(rows: &Vec<String>, path: &str) -> (r: Option<usize>)
    ensures
        match r {
            Some(i) => row_index_spec(texts_of(rows@), path@) == Some(i as int),
            None => row_index_spec(texts_of(rows@), path@).is_none(),
        },
{
    let ghost m = texts_of(rows@);
    let mut i = rows.len();
    assert(m.take(i as int) =~= m);
    while i > 0
        invariant
            i <= rows.len(),
            m == texts_of(rows@),
            row_index_spec(m, path@) == row_index_spec(m.take(i as int), path@),
        decreases i,
    {
        assert(m.take(i as int).drop_last() =~= m.take(i - 1));
        assert(m.take(i as int).last() == rows@[i - 1]@);
        if same_path_exec(rows[i - 1].as_str(), path) {
            return Some(i - 1);
        }
        i = i - 1;
    }
    None
}

/// The parts of a text between line feeds.
pub open spec fn lines_of(s: Seq<char>) -> Seq<Seq<char>>
    decreases s.len(),
{
    if s.len() == 0 {
        seq![Seq::empty()]
    } else {
        let p = lines_of(s.drop_last());
        if s.last() == '\n' {
            p.push(Seq::empty())
        } else {
            p.update(p.len() - 1, p.last().push(s.last()))
        }
    }
}

proof fn lemma_lines_nonempty(s: Seq<char>)
    ensures
        lines_of(s).len() >= 1,
    decreases s.len(),
{
    if s.len() > 0 {
        lemma_lines_nonempty(s.drop_last());
    }
}

/// The first of the lines, trimmed, that is not blank.
pub open spec fn first_text_line(ls: Seq<Seq<char>>) -> Seq<char>
    decreases ls.len(),
{
    if ls.len() == 0 {
        Seq::empty()
    } else if trim_seq(ls[0]).len() > 0 {
        trim_seq(ls[0])
    } else {
        first_text_line(ls.drop_first())
    }
}

/// The subtitle of an audio row: the first line of its comments that is not blank,
/// trimmed.
pub fn user_comment_subtitle(user_comments: &str) -> (r: String)
    ensures
        r@ == first_text_line(lines_of(user_comments@)),
{
    let v = chars_of(user_comments);
    let n = v.len();
    let mut lines: Vec<Vec<char>> = Vec::new();
    let mut current: Vec<char> = Vec::new();
    assert(v@.take(0) =~= Seq::<char>::empty());
    assert(lines@.map_values(|l: Vec<char>| l@) =~= lines_of(v@.take(0)).drop_last());
    for i in 0..n
        invariant
            n == v.len(),
            v@ == user_comments@,
            lines_of(v@.take(i as int)).len() >= 1,
            current@ == lines_of(v@.take(i as int)).last(),
            lines@.map_values(|l: Vec<char>| l@) == lines_of(v@.take(i as int)).drop_last(),
    {
        let ghost ls = lines_of(v@.take(i as int));
        assert(v@.take(i + 1).drop_last() =~= v@.take(i as int));
        if v[i] == '\n' {
            let ghost before = lines@.map_values(|l: Vec<char>| l@);
            lines.push(current);
            assert(lines@.map_values(|l: Vec<char>| l@) =~= before.push(ls.last()));
            assert(ls =~= ls.drop_last().push(ls.last()));
            current = Vec::new();
            assert(current@ =~= Seq::<char>::empty());
        } else {
            current.push(v[i]);
            assert(lines_of(v@.take(i + 1)).drop_last() =~= ls.drop_last());
        }
    }
    assert(v@.take(n as int) =~= v@);
    let ghost ls = lines_of(v@);
    let ghost before = lines@.map_values(|l: Vec<char>| l@);
    lines.push(current);
    assert(lines@.map_values(|l: Vec<char>| l@) =~= before.push(ls.last()));
    assert(ls =~= ls.drop_last().push(ls.last()));
    let ghost all = lines@.map_values(|l: Vec<char>| l@);
    assert(all == ls);
    let m = lines.len();
    assert(all.skip(0) =~= all);
    for i in 0..m
        invariant
            m == lines.len(),
            all == lines@.map_values(|l: Vec<char>| l@),
            all == lines_of(user_comments@),
            first_text_line(all) == first_text_line(all.skip(i as int)),
    {
        assert(all.skip(i as int)[0] == lines@[i as int]@);
        assert(all.skip(i as int).drop_first() =~= all.skip(i + 1));
        let t = crate::text::trim_chars(&lines[i]);
        if t.len() > 0 {
            assert(first_text_line(all.skip(i as int)) == t@);
            return string_of(t.as_slice());
        }
        assert(first_text_line(all.skip(i as int)) == first_text_line(all.skip(i + 1)));
    }
    assert(all.skip(m as int).len() == 0);
    let e = String::new();
    assert(e@ =~= first_text_line(all));
    e
}

/// A number as at least two digits.
pub open spec fn two_digits(n: nat) -> Seq<char> {
    if n < 10 {
        seq!['0'] + nat_text(n)
    } else {
        nat_text(n)
    }
}

/// A duration as `MM:SS`: the whole minutes, at least two digits, and the seconds.
pub fn format_duration(total_seconds: u64) -> (r: String)
    ensures
        r@ == two_digits((total_seconds / 60) as nat) + ":"@ + two_digits((total_seconds % 60) as nat),
{
    let minutes = total_seconds / 60;
    let seconds = total_seconds % 60;
    let mut out = String::new();
    if minutes < 10 {
        out.append("0");
    }
    out.append(u64_text(minutes).as_str());
    out.append(":");
    if seconds < 10 {
        out.append("0");
    }
    out.append(u64_text(seconds).as_str());
    proof {
        reveal_strlit("0");
    }
    out
}

/// The stem output folder, trimmed: empty for the workspace itself, refused when it
/// would lead out of the workspace.
pub open spec fn output_folder_spec(value: Seq<char>) -> Result<Seq<char>, Seq<char>> {
    let v = trim_seq(value);
    if v.len() == 0 {
        Ok(Seq::empty())
    } else if is_absolute(v) || components(v).contains(".."@) {
        Err("Stem output folder must be inside the workspace"@)
    } else {
        Ok(v)
    }
}

fn has_parent_component(cs: &Vec<String>) -> (r: bool)
    ensures
        r == cs@.map_values(|c: String| c@).contains(".."@),
{
    let ghost m = cs@.map_values(|c: String| c@);
    let n = cs.len();
    for i in 0..n
        invariant
            n == cs.len(),
            m == cs@.map_values(|c: String| c@),
            forall|k: int| 0 <= k < i ==> m[k] != ".."@,
    {
        if text_eq(cs[i].as_str(), "..") {
            assert(m[i as int] == ".."@);
            return true;
        }
    }
    false
}

/// The stem output folder (see `output_folder_spec`).
pub fn normalized_output_folder(value: &str) -> (r: Result<String, String>)
    ensures
        match r {
            Ok(p) => output_folder_spec(value@) == Ok::<Seq<char>, Seq<char>>(p@),
            Err(e) => output_folder_spec(value@) == Err::<Seq<char>, Seq<char>>(e@),
        },
{
    let v = trim(value);
    if v.as_str().is_empty() {
        let e = String::new();
        assert(e@ =~= Seq::<char>::empty());
        return Ok(e);
    }
    let cs = path_components(v.as_str());
    if absolute_path(v.as_str()) || has_parent_component(&cs) {
        return Err(String::from_str("Stem output folder must be inside the workspace"));
    }
    Ok(v)
}

/// The folder the stems of a job go to: `<workspace>/<output folder>/<source stem>`.
pub open spec fn output_directory_spec(workspace: Seq<char>, source: Seq<char>, folder: Seq<char>) -> Result<
    Seq<char>,
    Seq<char>,
> {
    match output_folder_spec(folder) {
        Err(e) => Err(e),
        Ok(f) => match crate::paths::file_name_of(source) {
            Some(name) => if stem_of(name).len() > 0 {
                Ok(push_path(push_path(workspace, f), stem_of(name)))
            } else {
                Err("Source file has no usable name"@)
            },
            None => Err("Source file has no usable name"@),
        },
    }
}

/// The folder the stems of a job go to (see `output_directory_spec`).
pub fn expected_output_directory(job: &StemJob) -> (r: Result<String, String>)
    ensures
        match r {
            Ok(p) => output_directory_spec(job.workspace@, job.source@, job.output_folder@) == Ok::<
                Seq<char>,
                Seq<char>,
            >(p@),
            Err(e) => output_directory_spec(job.workspace@, job.source@, job.output_folder@) == Err::<
                Seq<char>,
                Seq<char>,
            >(e@),
        },
{
    let folder = match normalized_output_folder(job.output_folder.as_str()) {
        Ok(f) => f,
        Err(e) => {
            return Err(e);
        },
    };
    let name = match file_name(job.source.as_str()) {
        Some(n) => n,
        None => {
            return Err(String::from_str("Source file has no usable name"));
        },
    };
    proof {
        crate::paths::lemma_last_dot_bound(name@);
    }
    let stem = match crate::paths::last_dot_exec(name.as_str()) {
        Some(k) => {
            let v = chars_of(name.as_str());
            let t = crate::text::slice_chars(&v, 0, k);
            assert(t@ =~= name@.take(k as int));
            string_of(t.as_slice())
        },
        None => name,
    };
    if stem.as_str().is_empty() {
        return Err(String::from_str("Source file has no usable name"));
    }
    let base = join_path(job.workspace.as_str(), folder.as_str());
    Ok(join_path(base.as_str(), stem.as_str()))
}

/// A text with every `\` turned into `/`.
pub open spec fn forward_slashes(s: Seq<char>) -> Seq<char> {
    s.map_values(|c: char| if c == '\\' {
        '/'
    } else {
        c
    })
}

/// A text with every `\` turned into `/` (see `forward_slashes`).
pub fn to_forward_slashes(t: &str) -> (r: String)
    ensures
        r@ == forward_slashes(t@),
{
    let v = chars_of(t);
    let mut out: Vec<char> = Vec::new();
    let n = v.len();
    for i in 0..n
        invariant
            n == v.len(),
            out@ == forward_slashes(v@.take(i as int)),
    {
        let c = if v[i] == '\\' {
            '/'
        } else {
            v[i]
        };
        out.push(c);
        assert(out@ =~= forward_slashes(v@.take(i + 1)));
    }
    assert(v@.take(n as int) =~= v@);
    string_of(out.as_slice())
}

/// The place of a generated file in the workspace, with `/` between its parts.
pub fn relative_path(workspace: &str, path: &str) -> (r: Result<String, String>)
    ensures
        match r {
            Ok(p) => match strip_prefix_spec(path@, workspace@) {
                Some(rel) => p@ == forward_slashes(render(false, rel)),
                None => false,
            },
            Err(e) => strip_prefix_spec(path@, workspace@).is_none() && e@
                == "Generated path is outside the workspace"@,
        },
{
    match strip_prefix(path, workspace) {
        Some(rel) => {
            let t = render_path(false, &rel);
            Ok(to_forward_slashes(t.as_str()))
        },
        None => Err(String::from_str("Generated path is outside the workspace")),
    }
}

/// The output folder as the manifest records it: the stem output folder (see
/// `output_folder_spec`) with `/` between its parts.
pub fn manifest_output_folder(value: &str) -> (r: Result<String, String>)
    ensures
        match r {
            Ok(p) => match output_folder_spec(value@) {
                Ok(f) => p@ == forward_slashes(f),
                Err(_) => false,
            },
            Err(e) => output_folder_spec(value@) == Err::<Seq<char>, Seq<char>>(e@),
        },
{
    match normalized_output_folder(value) {
        Ok(f) => Ok(to_forward_slashes(f.as_str())),
        Err(e) => Err(e),
    }
}

/// The encoder options of FFmpeg for a stem format: 24-bit PCM for WAV, LAME at 320k
/// for MP3, FLAC otherwise.
pub fn codec_args(format: &str) -> (r: Vec<&'static str>)
    ensures
        r@.map_values(|a: &str| a@) == if format@ == "wav"@ {
            seq!["-c:a"@, "pcm_s24le"@]
        } else if format@ == "mp3"@ {
            seq!["-c:a"@, "libmp3lame"@, "-b:a"@, "320k"@]
        } else {
            seq!["-c:a"@, "flac"@]
        },
{
    if text_eq(format, "wav") {
        let v = vec!["-c:a", "pcm_s24le"];
        assert(v@.map_values(|a: &str| a@) =~= seq!["-c:a"@, "pcm_s24le"@]);
        v
    } else if text_eq(format, "mp3") {
        let v = vec!["-c:a", "libmp3lame", "-b:a", "320k"];
        assert(v@.map_values(|a: &str| a@) =~= seq!["-c:a"@, "libmp3lame"@, "-b:a"@, "320k"@]);
        v
    } else {
        let v = vec!["-c:a", "flac"];
        assert(v@.map_values(|a: &str| a@) =~= seq!["-c:a"@, "flac"@]);
        v
    }
}

/// Where PyTorch wheels come from for a compute backend: the ROCm index for `rocm`,
/// the CPU index otherwise.
pub fn pytorch_index_url(backend: &str) -> (r: &'static str)
    ensures
        r@ == if backend@ == "rocm"@ {
            "https://download.pytorch.org/whl/rocm6.3"@
        } else {
            "https://download.pytorch.org/whl/cpu"@
        },
{
    if text_eq(backend, "rocm") {
        "https://download.pytorch.org/whl/rocm6.3"
    } else {
        "https://download.pytorch.org/whl/cpu"
    }
}

/// What the waveform loader is asked for: the rows to load and whether it is working.
pub struct LoadRequest {
    pub requested_range: Option<(usize, usize)>,
    pub running: bool,
}

/// Rows loaded ahead of the first visible one, and before it.
pub const PREFETCH_ROWS: usize = 32;

pub const PREFETCH_BEFORE: usize = 4;

/// Asks for the waveforms around row `start_index` of `path_count` rows: from four rows
/// before it to thirty-two after it. Returns `true` when the loader has to be started,
/// `false` when it is already working and will take the new range.
pub fn request_audio_generation(state: &mut LoadRequest, start_index: usize, path_count: usize) -> (r:
    bool)
    ensures
        final(state).requested_range == Some(
            (
                (if start_index >= 4 {
                    start_index - 4
                } else {
                    0
                }) as usize,
                (if start_index as int + 32 > path_count {
                    path_count as int
                } else {
                    start_index as int + 32
                }) as usize,
            ),
        ),
        r == !old(state).running,
        final(state).running,
{
    let start = start_index.saturating_sub(PREFETCH_BEFORE);
    let ahead = start_index.saturating_add(PREFETCH_ROWS);
    let end = if ahead > path_count {
        path_count
    } else {
        ahead
    };
    state.requested_range = Some((start, end));
    if state.running {
        return false;
    }
    state.running = true;
    true
}


/// The separation model whose stems are made.
pub const STEM_MODEL: &'static str = "htdemucs";

/// An export of the manifest that matches a job: the same source (its place and its
/// content hash), the model, the format and the output folder.
pub open spec fn export_matches(
    e: crate::metadata::StemExport,
    parent_path: Seq<char>,
    parent_hash: Seq<char>,
    format: Seq<char>,
    output_folder: Seq<char>,
) -> bool {
    e.parent_path@ == parent_path && e.parent_hash@ == parent_hash && e.model@ == "htdemucs"@
        && e.format@ == format && e.output_folder@ == output_folder
}

pub open spec fn first_matching_export(
    es: Seq<crate::metadata::StemExport>,
    parent_path: Seq<char>,
    parent_hash: Seq<char>,
    format: Seq<char>,
    output_folder: Seq<char>,
) -> Option<int>
    decreases es.len(),
{
    if es.len() == 0 {
        None
    } else if export_matches(es[0], parent_path, parent_hash, format, output_folder) {
        Some(0)
    } else {
        match first_matching_export(es.drop_first(), parent_path, parent_hash, format, output_folder) {
            Some(k) => Some(k + 1),
            None => None,
        }
    }
}

/// The first export of the manifest that matches a job (see `export_matches`).
pub fn find_export(
    manifest: &crate::metadata::StemExportManifest,
    parent_path: &str,
    parent_hash: &str,
    format: &str,
    output_folder: &str,
) -> (r: Option<usize>)
    ensures
        match r {
            Some(k) => first_matching_export(
                manifest.exports@,
                parent_path@,
                parent_hash@,
                format@,
                output_folder@,
            ) == Some(k as int) && k < manifest.exports.len(),
            None => first_matching_export(
                manifest.exports@,
                parent_path@,
                parent_hash@,
                format@,
                output_folder@,
            ).is_none(),
        },
{
    let ghost m = manifest.exports@;
    assert(m.skip(0) =~= m);
    let n = manifest.exports.len();
    proof {
        reveal_strlit("htdemucs");
    }
    for i in 0..n
        invariant
            n == manifest.exports.len(),
            m == manifest.exports@,
            first_matching_export(m, parent_path@, parent_hash@, format@, output_folder@) == match first_matching_export(
                m.skip(i as int),
                parent_path@,
                parent_hash@,
                format@,
                output_folder@,
            ) {
                Some(x) => Some(x + i),
                None => None,
            },
    {
        assert(m.skip(i as int)[0] == m[i as int]);
        assert(m.skip(i as int).drop_first() =~= m.skip(i + 1));
        let e = &manifest.exports[i];
        if text_eq(e.parent_path.as_str(), parent_path) && text_eq(e.parent_hash.as_str(), parent_hash)
            && text_eq(e.model.as_str(), STEM_MODEL) && text_eq(e.format.as_str(), format)
            && text_eq(e.output_folder.as_str(), output_folder) {
            return Some(i);
        }
    }
    assert(m.skip(n as int).len() == 0);
    None
}

/// The manifest's exports after recording a new export: earlier exports of the same
/// source (the same place and content hash) leave, the others stay in their order, and
/// the new export comes last.
pub open spec fn record_export_spec(
    es: Seq<crate::metadata::StemExport>,
    export: crate::metadata::StemExport,
) -> Seq<crate::metadata::StemExport> {
    es.filter(
        |e: crate::metadata::StemExport|
            !(e.parent_path@ == export.parent_path@ && e.parent_hash@ == export.parent_hash@),
    ).push(export)
}

/// Records a finished export in the manifest (see `record_export_spec`).
pub fn record_stem_export(
    manifest: &mut crate::metadata::StemExportManifest,
    export: crate::metadata::StemExport,
)
    ensures
        final(manifest).exports@ == record_export_spec(old(manifest).exports@, export),
{
    let ghost es = manifest.exports@;
    let ghost pred = |e: crate::metadata::StemExport|
        !(e.parent_path@ == export.parent_path@ && e.parent_hash@ == export.parent_hash@);
    let mut kept: Vec<crate::metadata::StemExport> = Vec::new();
    let n = manifest.exports.len();
    let mut k: usize = 0;
    while manifest.exports.len() > 0
        invariant
            n == es.len(),
            k + manifest.exports.len() == n,
            manifest.exports@ == es.skip(k as int),
            kept@ == es.take(k as int).filter(pred),
            pred == (|e: crate::metadata::StemExport|
                !(e.parent_path@ == export.parent_path@ && e.parent_hash@ == export.parent_hash@)),
        decreases manifest.exports.len(),
    {
        let ghost rest = manifest.exports@;
        assert(es.skip(k as int)[0] == es[k as int]);
        let e = manifest.exports.remove(0);
        assert(manifest.exports@ =~= es.skip(k + 1));
        proof {
            reveal(Seq::filter);
            assert(es.take(k + 1).drop_last() =~= es.take(k as int));
            assert(es.take(k + 1).last() == es[k as int]);
        }
        if !(text_eq(e.parent_path.as_str(), export.parent_path.as_str()) && text_eq(
            e.parent_hash.as_str(),
            export.parent_hash.as_str(),
        )) {
            kept.push(e);
        }
        k = k + 1;
    }
    assert(es.take(n as int) =~= es);
    kept.push(export);
    manifest.exports = kept;
}

proof fn lemma_first_matching_export(
    es: Seq<crate::metadata::StemExport>,
    parent_path: Seq<char>,
    parent_hash: Seq<char>,
    format: Seq<char>,
    output_folder: Seq<char>,
)
    ensures
        match first_matching_export(es, parent_path, parent_hash, format, output_folder) {
            Some(k) => 0 <= k < es.len() && export_matches(
                es[k],
                parent_path,
                parent_hash,
                format,
                output_folder,
            ) && forall|i: int|
                0 <= i < k ==> !export_matches(
                    #[trigger] es[i],
                    parent_path,
                    parent_hash,
                    format,
                    output_folder,
                ),
            None => forall|i: int|
                0 <= i < es.len() ==> !export_matches(
                    #[trigger] es[i],
                    parent_path,
                    parent_hash,
                    format,
                    output_folder,
                ),
        },
    decreases es.len(),
{
    if es.len() > 0 && !export_matches(es[0], parent_path, parent_hash, format, output_folder) {
        lemma_first_matching_export(es.drop_first(), parent_path, parent_hash, format, output_folder);
        assert forall|i: int| 0 < i < es.len() implies es[i] == es.drop_first()[i - 1] by {}
    }
}

/// A recorded export is what a later look-up for the same job finds, and the manifest
/// keeps one export per source: after recording an export of the separation model, the
/// first export that matches its source, format and output folder is that export, and
/// no other export has its source.
pub proof fn law_recorded_export_is_found(
    es: Seq<crate::metadata::StemExport>,
    export: crate::metadata::StemExport,
)
    requires
        export.model@ == "htdemucs"@,
    ensures
        first_matching_export(
            record_export_spec(es, export),
            export.parent_path@,
            export.parent_hash@,
            export.format@,
            export.output_folder@,
        ) == Some(record_export_spec(es, export).len() - 1),
        forall|i: int|
            0 <= i < record_export_spec(es, export).len() - 1 ==> !(
            #[trigger] record_export_spec(es, export)[i].parent_path@ == export.parent_path@
                && record_export_spec(es, export)[i].parent_hash@ == export.parent_hash@),
{
    let pred = |e: crate::metadata::StemExport|
        !(e.parent_path@ == export.parent_path@ && e.parent_hash@ == export.parent_hash@);
    let kept = es.filter(pred);
    let rs = record_export_spec(es, export);
    let k = kept.len() as int;
    assert forall|i: int| 0 <= i < k implies #[trigger] rs[i] == kept[i] && pred(kept[i]) by {
        es.lemma_filter_pred(pred, i);
    }
    assert(rs[k] == export);
    lemma_first_matching_export(
        rs,
        export.parent_path@,
        export.parent_hash@,
        export.format@,
        export.output_folder@,
    );
    match first_matching_export(
        rs,
        export.parent_path@,
        export.parent_hash@,
        export.format@,
        export.output_folder@,
    ) {
        Some(j) => {
            if j < k {
                assert(pred(kept[j]));
            } else if k < j {
                assert(!export_matches(
                    rs[k],
                    export.parent_path@,
                    export.parent_hash@,
                    export.format@,
                    export.output_folder@,
                ));
            }
        },
        None => {
            assert(!export_matches(
                rs[k],
                export.parent_path@,
                export.parent_hash@,
                export.format@,
                export.output_folder@,
            ));
        },
    }
}

/// Whether the stems of an export are all still there as they were made: `found[i]` is
/// the content hash of the file at the place of stem `i` when it is a file whose hash
/// could be taken.
pub fn stems_intact(export: &crate::metadata::StemExport, found: &Vec<Option<String>>) -> (r: bool)
    requires
        found.len() == export.stems.len(),
    ensures
        r == forall|i: int|
            0 <= i < export.stems@.len() ==> match #[trigger] found@[i] {
                Some(h) => h@ == export.stems@[i].hash@,
                None => false,
            },
{
    let n = export.stems.len();
    for i in 0..n
        invariant
            n == export.stems.len(),
            found.len() == n,
            forall|k: int|
                0 <= k < i ==> match #[trigger] found@[k] {
                    Some(h) => h@ == export.stems@[k].hash@,
                    None => false,
                },
    {
        match &found[i] {
            Some(h) => {
                if !text_eq(h.as_str(), export.stems[i].hash.as_str()) {
                    return false;
                }
            },
            None => {
                return false;
            },
        }
    }
    true
}

/// The lines of a separator's output as its bytes come in: each byte is a character of
/// its own (Latin-1), and a carriage return or a line feed ends the pending line. Gives
/// the lines ended, in order, and the line still pending.
pub open spec fn output_lines(pending: Seq<char>, bytes: Seq<u8>) -> (Seq<Seq<char>>, Seq<char>)
    decreases bytes.len(),
{
    if bytes.len() == 0 {
        (Seq::empty(), pending)
    } else {
        let (done, rest) = output_lines(pending, bytes.drop_last());
        let b = bytes.last();
        if b == 13 || b == 10 {
            (done.push(rest), Seq::empty())
        } else {
            (done, rest.push(b as char))
        }
    }
}

/// Feeds a chunk of the separator's output to the pending line (see `output_lines`).
pub fn split_output(pending: &mut String, chunk: &[u8]) -> (r: Vec<String>)
    ensures
        (texts_of(r@), final(pending)@) == output_lines(old(pending)@, chunk@),
{
    let mut done: Vec<String> = Vec::new();
    let mut line: Vec<char> = chars_of(pending.as_str());
    let n = chunk.len();
    assert(chunk@.take(0) =~= Seq::<u8>::empty());
    for i in 0..n
        invariant
            n == chunk.len(),
            (texts_of(done@), line@) == output_lines(old(pending)@, chunk@.take(i as int)),
    {
        assert(chunk@.take(i + 1).drop_last() =~= chunk@.take(i as int));
        assert(chunk@.take(i + 1).last() == chunk@[i as int]);
        let b = chunk[i];
        if b == 13 || b == 10 {
            let ghost before = done@;
            done.push(string_of(line.as_slice()));
            assert(texts_of(done@) =~= texts_of(before).push(line@));
            line = Vec::new();
            assert(line@ =~= Seq::<char>::empty());
        } else {
            line.push(b as char);
        }
    }
    assert(chunk@.take(n as int) =~= chunk@);
    *pending = string_of(line.as_slice());
    done
}

/// The text before the first `%`, all of it when there is none.
pub open spec fn before_percent(s: Seq<char>) -> Seq<char>
    decreases s.len(),
{
    if s.len() == 0 {
        s
    } else if s[0] == '%' {
        Seq::empty()
    } else {
        seq![s[0]] + before_percent(s.drop_first())
    }
}

/// The run of characters that are no white space at the end of a text.
pub open spec fn word_tail(s: Seq<char>) -> Seq<char>
    decreases s.len(),
{
    if s.len() == 0 || crate::text::is_whitespace_char(s.last()) {
        Seq::empty()
    } else {
        word_tail(s.drop_last()).push(s.last())
    }
}

/// The last of the words a text has between white space (`split_whitespace().last()`).
pub open spec fn last_word(s: Seq<char>) -> Option<Seq<char>>
    decreases s.len(),
{
    if s.len() == 0 {
        None
    } else if crate::text::is_whitespace_char(s.last()) {
        last_word(s.drop_last())
    } else {
        Some(word_tail(s))
    }
}

/// The number a progress line of the separator shows before its `%` (as text): the last
/// word before the first `%`.
pub fn percent_text(line: &str) -> (r: Option<String>)
    ensures
        crate::file_system::opt_text(r) == last_word(before_percent(line@)),
{
    let v = chars_of(line);
    let n = v.len();
    let mut end: usize = 0;
    assert(v@.skip(0) =~= v@);
    assert(v@.take(0) + before_percent(v@.skip(0)) =~= before_percent(line@));
    while end < n && v[end] != '%'
        invariant
            end <= n,
            n == v.len(),
            v@ == line@,
            before_percent(line@) == v@.take(end as int) + before_percent(v@.skip(end as int)),
        decreases n - end,
    {
        assert(v@.skip(end as int).drop_first() =~= v@.skip(end + 1));
        assert(v@.take(end + 1) =~= v@.take(end as int) + seq![v@[end as int]]);
        end = end + 1;
    }
    assert(before_percent(v@.skip(end as int)) =~= Seq::<char>::empty());
    let ghost head = v@.take(end as int);
    assert(before_percent(line@) =~= head);
    let mut j = end;
    while j > 0 && crate::text::is_whitespace_exec(v[j - 1])
        invariant
            j <= end,
            end <= n,
            n == v.len(),
            head == v@.take(end as int),
            last_word(head) == last_word(v@.take(j as int)),
        decreases j,
    {
        assert(v@.take(j as int).drop_last() =~= v@.take(j - 1));
        j = j - 1;
    }
    if j == 0 {
        assert(v@.take(0).len() == 0);
        return None;
    }
    assert(v@.take(j as int).drop_last() =~= v@.take(j - 1));
    let mut i = j - 1;
    assert(word_tail(v@.take(j as int)) == word_tail(v@.take(i as int)).push(v@[i as int]));
    assert(v@.subrange(i as int, j as int) =~= seq![v@[i as int]]);
    while i > 0 && !crate::text::is_whitespace_exec(v[i - 1])
        invariant
            i < j,
            j <= n,
            n == v.len(),
            word_tail(v@.take(j as int)) == word_tail(v@.take(i as int)) + v@.subrange(
                i as int,
                j as int,
            ),
        decreases i,
    {
        assert(v@.take(i as int).drop_last() =~= v@.take(i - 1));
        assert(v@.subrange(i - 1, j as int) =~= seq![v@[i - 1]] + v@.subrange(i as int, j as int));
        assert(word_tail(v@.take(i as int)) =~= word_tail(v@.take(i - 1)).push(v@[i - 1]));
        i = i - 1;
    }
    assert(word_tail(v@.take(i as int)) =~= Seq::<char>::empty());
    let out = slice_chars(&v, i, j);
    Some(string_of(out.as_slice()))
}

/// Where the waveform peaks of a file are cached: `.adbstudio/waveforms/<key>.json`.
pub fn cache_path(cache_key: &str, workspace: &str) -> (r: String)
    ensures
        r@ == push_path(
            push_path(push_path(workspace@, ".adbstudio"@), "waveforms"@),
            cache_key@ + ".json"@,
        ),
{
    let d = join_path(workspace, ".adbstudio");
    let w = join_path(d.as_str(), "waveforms");
    let mut name = String::from_str(cache_key);
    name.append(".json");
    join_path(w.as_str(), name.as_str())
}

/// Where the drawn waveform of a file is cached: `.adbstudio/waveforms/<key>.raster`.
pub fn raster_cache_path(cache_key: &str, workspace: &str) -> (r: String)
    ensures
        r@ == push_path(
            push_path(push_path(workspace@, ".adbstudio"@), "waveforms"@),
            cache_key@ + ".raster"@,
        ),
{
    let d = join_path(workspace, ".adbstudio");
    let w = join_path(d.as_str(), "waveforms");
    let mut name = String::from_str(cache_key);
    name.append(".raster");
    join_path(w.as_str(), name.as_str())
}

/// The version whose waveform caches this build reads: it is part of each cache key.
pub const WAVEFORM_CACHE_VERSION: &'static str = "0.1.0";

/// The peaks computed of each audio file.
pub const PEAK_COUNT: usize = 4096;

/// The bytes that name a waveform cache entry: the cache version, the number of peaks
/// as eight little-endian bytes, and the file's checksum.
pub open spec fn waveform_key_bytes(checksum: Seq<char>) -> Seq<u8> {
    encode_utf8(WAVEFORM_CACHE_VERSION@) + seq![0u8, 16u8, 0u8, 0u8, 0u8, 0u8, 0u8, 0u8]
        + encode_utf8(checksum)
}

fn push_all(out: &mut Vec<u8>, bytes: &[u8])
    ensures
        final(out)@ == old(out)@ + bytes@,
{
    let ghost start = out@;
    for i in 0..bytes.len()
        invariant
            out@ == start + bytes@.take(i as int),
    {
        out.push(bytes[i]);
        assert(bytes@.take(i + 1) =~= bytes@.take(i as int).push(bytes@[i as int]));
        assert(out@ =~= start + bytes@.take(i + 1));
    }
    assert(bytes@.take(bytes@.len() as int) =~= bytes@);
}

/// The key of the waveform cache entries of a file with this checksum: the SHA-256 of
/// `waveform_key_bytes`, in hex.
pub fn waveform_cache_key(checksum: &str) -> (r: String)
    ensures
        r@ == crate::metadata::sha256_hex_of(waveform_key_bytes(checksum@)),
{
    let mut content: Vec<u8> = Vec::new();
    push_all(&mut content, WAVEFORM_CACHE_VERSION.as_bytes());
    let count = vec![0u8, 16u8, 0u8, 0u8, 0u8, 0u8, 0u8, 0u8];
    push_all(&mut content, count.as_slice());
    push_all(&mut content, checksum.as_bytes());
    assert(content@ =~= waveform_key_bytes(checksum@));
    crate::metadata::sha256_hex(content.as_slice())
}

/// The width of a drawn waveform, in pixels.
pub const RASTER_WIDTH: usize = 1920;

/// The height of a drawn waveform, in pixels.
pub const RASTER_HEIGHT: usize = 174;

/// What a raster cache file starts with: its magic text, then the width and the height
/// as four little-endian bytes each.
pub open spec fn raster_header() -> Seq<u8> {
    encode_utf8("ADB-STUDIO-WAVEFORM-RASTER-2"@) + seq![0x80u8, 0x07u8, 0u8, 0u8]
        + seq![0xaeu8, 0u8, 0u8, 0u8]
}

fn raster_header_bytes() -> (r: Vec<u8>)
    ensures
        r@ == raster_header(),
{
    let mut out: Vec<u8> = Vec::new();
    push_all(&mut out, "ADB-STUDIO-WAVEFORM-RASTER-2".as_bytes());
    let dims = vec![0x80u8, 0x07u8, 0u8, 0u8, 0xaeu8, 0u8, 0u8, 0u8];
    push_all(&mut out, dims.as_slice());
    assert(out@ =~= raster_header());
    out
}

/// The content of a raster cache file for a drawn waveform: the header, then one byte
/// per pixel. `None` for a raster of another size, which is not cached.
pub open spec fn raster_file_spec(raster: Seq<u8>) -> Option<Seq<u8>> {
    if raster.len() == RASTER_WIDTH * RASTER_HEIGHT {
        Some(raster_header() + raster)
    } else {
        None
    }
}

/// The content of a raster cache file (see `raster_file_spec`).
pub fn raster_cache_bytes(raster: &[u8]) -> (r: Option<Vec<u8>>)
    ensures
        match r {
            Some(b) => raster_file_spec(raster@) == Some(b@),
            None => raster_file_spec(raster@).is_none(),
        },
{
    if raster.len() != RASTER_WIDTH * RASTER_HEIGHT {
        return None;
    }
    let mut out = raster_header_bytes();
    push_all(&mut out, raster);
    Some(out)
}

/// The drawn waveform a raster cache file holds: the bytes after the header, where the
/// file starts with the header (the magic text and this build's width and height) and
/// holds exactly one byte per pixel after it; `None` for any other content.
pub open spec fn raster_from_file_spec(contents: Seq<u8>) -> Option<Seq<u8>> {
    let h = raster_header();
    if contents.len() == h.len() + RASTER_WIDTH * RASTER_HEIGHT && contents.take(h.len() as int)
        == h {
        Some(contents.skip(h.len() as int))
    } else {
        None
    }
}

/// The drawn waveform a raster cache file holds (see `raster_from_file_spec`).
pub fn raster_from_cache(contents: &[u8]) -> (r: Option<Vec<u8>>)
    ensures
        match r {
            Some(b) => raster_from_file_spec(contents@) == Some(b@),
            None => raster_from_file_spec(contents@).is_none(),
        },
{
    let header = raster_header_bytes();
    let h = header.len();
    if contents.len() < h || contents.len() - h != RASTER_WIDTH * RASTER_HEIGHT {
        return None;
    }
    for i in 0..h
        invariant
            h == header.len(),
            header@ == raster_header(),
            contents.len() == h + RASTER_WIDTH * RASTER_HEIGHT,
            forall|j: int| 0 <= j < i ==> contents@[j] == header@[j],
    {
        if contents[i] != header[i] {
            assert(contents@.take(h as int)[i as int] != raster_header()[i as int]);
            return None;
        }
    }
    assert(contents@.take(h as int) =~= raster_header());
    let mut out: Vec<u8> = Vec::new();
    let n = contents.len();
    for i in h..n
        invariant
            h <= n,
            n == contents.len(),
            out@ == contents@.subrange(h as int, i as int),
    {
        out.push(contents[i]);
        assert(out@ =~= contents@.subrange(h as int, i + 1));
    }
    assert(contents@.subrange(h as int, n as int) =~= contents@.skip(h as int));
    Some(out)
}

/// A cached drawing reads back as it was written: the content of a raster cache file
/// for a raster of the drawing's size holds that raster.
pub proof fn law_raster_cache_reads_back(raster: Seq<u8>)
    requires
        raster.len() == RASTER_WIDTH * RASTER_HEIGHT,
    ensures
        raster_from_file_spec(raster_file_spec(raster)->0) == Some(raster),
{
    let h = raster_header();
    let f = h + raster;
    assert(f.take(h.len() as int) =~= h);
    assert(f.skip(h.len() as int) =~= raster);
}
} // verus!
