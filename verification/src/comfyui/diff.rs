//! How the workflow of one track differs from that of another.
use vstd::prelude::*;
use crate::text::{chars_of, nat_text, u64_text};
use super::{ComfyUIWorkflow, DifferenceModel, LoRAInfo, LoraModel, TrackDifference, WorkflowModel};

verus! {

pub open spec fn min_nat(x: nat, y: nat) -> nat {
    if x <= y {
        x
    } else {
        y
    }
}

/// The number of single-character insertions, deletions and substitutions that turn `a`
/// into `b` (the Levenshtein distance), by its recurrence on the last characters.
pub open spec fn edit_distance_spec(a: Seq<char>, b: Seq<char>) -> nat
    decreases a.len() + b.len(),
{
    if a.len() == 0 {
        b.len()
    } else if b.len() == 0 {
        a.len()
    } else if a.last() == b.last() {
        edit_distance_spec(a.drop_last(), b.drop_last())
    } else {
        1 + min_nat(
            min_nat(
                edit_distance_spec(a.drop_last(), b.drop_last()),
                edit_distance_spec(a, b.drop_last()),
            ),
            edit_distance_spec(a.drop_last(), b),
        )
    }
}

/// The distance is at most the length of the longer text.
pub proof fn lemma_edit_distance_bound(a: Seq<char>, b: Seq<char>)
    ensures
        edit_distance_spec(a, b) <= if a.len() >= b.len() {
            a.len()
        } else {
            b.len()
        },
    decreases a.len() + b.len(),
{
    if a.len() > 0 && b.len() > 0 {
        lemma_edit_distance_bound(a.drop_last(), b.drop_last());
    }
}

/// The edit distance between two texts, computed one row of the table at a time. The
/// row has a place for each prefix of `right`, so their number must fit in memory.
pub fn edit_distance(left: &str, right: &str) -> (r: usize)
    requires
        right@.len() < usize::MAX,
    ensures
        r == edit_distance_spec(left@, right@),
{
    let a = chars_of(left);
    let b = chars_of(right);
    let n = b.len();
    let mut distances: Vec<usize> = Vec::new();
    for j in 0..n + 1
        invariant
            n == b.len(),
            distances.len() == j,
            forall|k: int| 0 <= k < j ==> distances@[k] == k,
    {
        distances.push(j);
    }
    proof {
        assert forall|k: int| 0 <= k <= n implies distances@[k] == edit_distance_spec(
            a@.take(0),
            b@.take(k),
        ) by {
            assert(a@.take(0).len() == 0);
        }
    }
    let m = a.len();
    for i in 0..m
        invariant
            m == a.len(),
            n == b.len(),
            a@ == left@,
            b@ == right@,
            distances.len() == n + 1,
            forall|k: int| 0 <= k <= n ==> distances@[k] == edit_distance_spec(
                a@.take(i as int),
                b@.take(k),
            ),
    {
        let ghost row = a@.take(i as int);
        let ghost next = a@.take(i + 1);
        assert(next.drop_last() =~= row);
        assert(next.last() == a@[i as int]);
        let mut diagonal = distances[0];
        distances.set(0, i + 1);
        assert(b@.take(0).len() == 0);
        for j in 0..n
            invariant
                m == a.len(),
                n == b.len(),
                i < m,
                row == a@.take(i as int),
                next == a@.take(i + 1),
                next.drop_last() == row,
                next.last() == a@[i as int],
                distances.len() == n + 1,
                diagonal == edit_distance_spec(row, b@.take(j as int)),
                forall|k: int| 0 <= k <= j ==> distances@[k] == edit_distance_spec(next, b@.take(k)),
                forall|k: int| j < k <= n ==> distances@[k] == edit_distance_spec(row, b@.take(k)),
        {
            let previous = distances[j + 1];
            let ghost col = b@.take(j + 1);
            assert(col.drop_last() =~= b@.take(j as int));
            assert(col.last() == b@[j as int]);
            proof {
                lemma_edit_distance_bound(row, b@.take(j as int));
            }
            let value = if a[i] == b[j] {
                diagonal
            } else {
                let left_value = distances[j];
                let low = if diagonal <= left_value {
                    diagonal
                } else {
                    left_value
                };
                let low = if low <= previous {
                    low
                } else {
                    previous
                };
                1 + low
            };
            assert(value == edit_distance_spec(next, col));
            distances.set(j + 1, value);
            diagonal = previous;
        }
    }
    assert(a@.take(m as int) =~= a@);
    assert(b@.take(n as int) =~= b@);
    distances[n]
}

/// `format_number` of a whole number and a whole, nonzero change: the number, then the
/// change with its sign in brackets; the number alone when the change is zero.
pub open spec fn count_change_spec(value: nat, change: int) -> Seq<char> {
    if change == 0 {
        nat_text(value)
    } else {
        nat_text(value) + " ("@ + (if change > 0 {
            "+"@
        } else {
            "-"@
        }) + nat_text(
            (if change > 0 {
                change
            } else {
                -change
            }) as nat,
        ) + ")"@
    }
}

/// A count `value` with its change from `before` (see `count_change_spec`).
pub fn count_change(value: u64, before: u64) -> (r: String)
    ensures
        r@ == count_change_spec(value as nat, value - before),
{
    let mut out = u64_text(value);
    if value != before {
        out.append(" (");
        if value > before {
            out.append("+");
            out.append(u64_text(value - before).as_str());
        } else {
            out.append("-");
            out.append(u64_text(before - value).as_str());
        }
        out.append(")");
    }
    out
}

/// The rendering of a changed number: the entry of `table` for the pair, else the new
/// text as it stands.
pub open spec fn numeric_value(
    table: Seq<(Seq<char>, Seq<char>, Seq<char>)>,
    pinned: Seq<char>,
    track: Seq<char>,
) -> Seq<char>
    decreases table.len(),
{
    if table.len() == 0 {
        track
    } else if table[0].0 == pinned && table[0].1 == track {
        table[0].2
    } else {
        numeric_value(table.drop_first(), pinned, track)
    }
}

pub open spec fn difference(label: Seq<char>, value: Seq<char>) -> DifferenceModel {
    DifferenceModel { label, value }
}

pub open spec fn text_difference(label: Seq<char>, pinned: Seq<char>, track: Seq<char>) -> Seq<
    DifferenceModel,
> {
    if pinned != track {
        seq![difference(label, track)]
    } else {
        Seq::empty()
    }
}

pub open spec fn numeric_difference(
    table: Seq<(Seq<char>, Seq<char>, Seq<char>)>,
    label: Seq<char>,
    pinned: Seq<char>,
    track: Seq<char>,
) -> Seq<DifferenceModel> {
    if pinned != track {
        seq![difference(label, numeric_value(table, pinned, track))]
    } else {
        Seq::empty()
    }
}

pub open spec fn count_difference(label: Seq<char>, pinned: Seq<char>, track: Seq<char>) -> Seq<
    DifferenceModel,
> {
    if pinned != track {
        seq![difference(label, nat_text(edit_distance_spec(pinned, track)))]
    } else {
        Seq::empty()
    }
}

/// The place of the first LoRA of `loras` with file name `file`.
pub open spec fn same_file(loras: Seq<LoraModel>, file: Seq<char>) -> Option<int>
    decreases loras.len(),
{
    if loras.len() == 0 {
        None
    } else if loras[0].filename == file {
        Some(0)
    } else {
        match same_file(loras.drop_first(), file) {
            Some(k) => Some(k + 1),
            None => None,
        }
    }
}

/// The (old, new) strengths of the LoRAs of `track` whose file the pinned workflow uses
/// at another strength, in the order of `track`.
pub open spec fn strength_pairs(pinned: Seq<LoraModel>, track: Seq<LoraModel>) -> Seq<
    (Seq<char>, Seq<char>),
>
    decreases track.len(),
{
    if track.len() == 0 {
        Seq::empty()
    } else {
        let rest = strength_pairs(pinned, track.drop_last());
        let t = track.last();
        match same_file(pinned, t.filename) {
            Some(k) => if pinned[k].strength != t.strength {
                rest.push((pinned[k].strength, t.strength))
            } else {
                rest
            },
            None => rest,
        }
    }
}

/// The strength changes of the LoRAs of `track`, labelled with their file names.
pub open spec fn strength_differences(
    table: Seq<(Seq<char>, Seq<char>, Seq<char>)>,
    pinned: Seq<LoraModel>,
    track: Seq<LoraModel>,
) -> Seq<DifferenceModel>
    decreases track.len(),
{
    if track.len() == 0 {
        Seq::empty()
    } else {
        let rest = strength_differences(table, pinned, track.drop_last());
        let t = track.last();
        match same_file(pinned, t.filename) {
            Some(k) => if pinned[k].strength != t.strength {
                rest.push(
                    difference(
                        "Lora "@ + t.filename + " strength: "@,
                        numeric_value(table, pinned[k].strength, t.strength),
                    ),
                )
            } else {
                rest
            },
            None => rest,
        }
    }
}

/// The LoRA differences: the change in their number, when it changed, then the strength
/// changes.
pub open spec fn lora_differences(
    table: Seq<(Seq<char>, Seq<char>, Seq<char>)>,
    pinned: Seq<LoraModel>,
    track: Seq<LoraModel>,
) -> Seq<DifferenceModel> {
    (if pinned.len() != track.len() {
        seq![difference("Loras: "@, count_change_spec(track.len(), track.len() - pinned.len()))]
    } else {
        Seq::empty()
    }) + strength_differences(table, pinned, track)
}

/// The differences of a track's workflow from the pinned one, in this order: BPM and seed
/// (rendered by `table`), key and model (the new text), prompt and lyrics (the edit
/// distance), then the LoRAs.
pub open spec fn compare_spec(
    table: Seq<(Seq<char>, Seq<char>, Seq<char>)>,
    pinned: WorkflowModel,
    track: WorkflowModel,
) -> Seq<DifferenceModel> {
    numeric_difference(table, "BPM: "@, pinned.bpm, track.bpm) + numeric_difference(
        table,
        "Seed: "@,
        pinned.seed,
        track.seed,
    ) + text_difference("Key: "@, pinned.key, track.key) + text_difference(
        "Model: "@,
        pinned.model,
        track.model,
    ) + count_difference("Prompt: "@, pinned.prompt, track.prompt) + count_difference(
        "Lyrics: "@,
        pinned.lyrics,
        track.lyrics,
    ) + lora_differences(table, pinned.loras, track.loras)
}

/// The number pairs whose rendering `compare_spec` asks of its table: BPM, seed and LoRA
/// strengths that changed, as (old, new).
pub open spec fn numeric_pairs_spec(pinned: WorkflowModel, track: WorkflowModel) -> Seq<
    (Seq<char>, Seq<char>),
> {
    (if pinned.bpm != track.bpm {
        seq![(pinned.bpm, track.bpm)]
    } else {
        Seq::empty()
    }) + (if pinned.seed != track.seed {
        seq![(pinned.seed, track.seed)]
    } else {
        Seq::empty()
    }) + strength_pairs(pinned.loras, track.loras)
}

pub open spec fn table_model(table: Seq<(String, String, String)>) -> Seq<
    (Seq<char>, Seq<char>, Seq<char>),
> {
    table.map_values(|e: (String, String, String)| (e.0@, e.1@, e.2@))
}

pub open spec fn pairs_model(pairs: Seq<(String, String)>) -> Seq<(Seq<char>, Seq<char>)> {
    pairs.map_values(|e: (String, String)| (e.0@, e.1@))
}

pub open spec fn differences_model(v: Seq<TrackDifference>) -> Seq<DifferenceModel> {
    v.map_values(|d: TrackDifference| d@)
}

pub open spec fn loras_model(v: Seq<LoRAInfo>) -> Seq<LoraModel> {
    v.map_values(|l: LoRAInfo| l@)
}

fn numeric_value_exec(table: &Vec<(String, String, String)>, pinned: &str, track: &str) -> (r:
    String)
    ensures
        r@ == numeric_value(table_model(table@), pinned@, track@),
{
    let ghost t = table_model(table@);
    assert(t.skip(0) =~= t);
    let n = table.len();
    for i in 0..n
        invariant
            n == table.len(),
            t == table_model(table@),
            numeric_value(t, pinned@, track@) == numeric_value(t.skip(i as int), pinned@, track@),
    {
        assert(t.skip(i as int)[0] == t[i as int]);
        assert(t.skip(i as int).drop_first() =~= t.skip(i + 1));
        if crate::json::text_eq(table[i].0.as_str(), pinned) && crate::json::text_eq(
            table[i].1.as_str(),
            track,
        ) {
            return table[i].2.clone();
        }
    }
    assert(t.skip(n as int).len() == 0);
    String::from_str(track)
}

fn same_file_exec(loras: &Vec<LoRAInfo>, file: &str) -> (r: Option<usize>)
    ensures
        match r {
            Some(k) => same_file(loras_model(loras@), file@) == Some(k as int) && k < loras.len(),
            None => same_file(loras_model(loras@), file@).is_none(),
        },
{
    let ghost m = loras_model(loras@);
    assert(m.skip(0) =~= m);
    let n = loras.len();
    for i in 0..n
        invariant
            n == loras.len(),
            m == loras_model(loras@),
            same_file(m, file@) == match same_file(m.skip(i as int), file@) {
                Some(x) => Some(x + i),
                None => None,
            },
    {
        assert(m.skip(i as int)[0] == m[i as int]);
        assert(m.skip(i as int).drop_first() =~= m.skip(i + 1));
        if crate::json::text_eq(loras[i].filename.as_str(), file) {
            return Some(i);
        }
    }
    assert(m.skip(n as int).len() == 0);
    None
}

fn push_difference(out: &mut Vec<TrackDifference>, label: &str, value: String)
    ensures
        differences_model(final(out)@) == differences_model(old(out)@).push(
            difference(label@, value@),
        ),
{
    out.push(TrackDifference { label: String::from_str(label), value });
    assert(differences_model(final(out)@) =~= differences_model(old(out)@).push(
        difference(label@, value@),
    ));
}

/// The number pairs whose rendering `compare_workflows` asks of its table (see
/// `numeric_pairs_spec`).
pub fn numeric_pairs(pinned: &ComfyUIWorkflow, track: &ComfyUIWorkflow) -> (r: Vec<(String, String)>)
    ensures
        pairs_model(r@) == numeric_pairs_spec(pinned@, track@),
{
    let mut out: Vec<(String, String)> = Vec::new();
    if !crate::json::text_eq(pinned.bpm.as_str(), track.bpm.as_str()) {
        out.push((pinned.bpm.clone(), track.bpm.clone()));
    }
    if !crate::json::text_eq(pinned.seed.as_str(), track.seed.as_str()) {
        out.push((pinned.seed.clone(), track.seed.clone()));
    }
    let ghost head = pairs_model(out@);
    assert(head =~= (if pinned@.bpm != track@.bpm {
        seq![(pinned@.bpm, track@.bpm)]
    } else {
        Seq::empty()
    }) + (if pinned@.seed != track@.seed {
        seq![(pinned@.seed, track@.seed)]
    } else {
        Seq::empty()
    }));
    let ghost pm = loras_model(pinned.loras@);
    let ghost tm = loras_model(track.loras@);
    let n = track.loras.len();
    assert(tm.take(0) =~= Seq::<LoraModel>::empty());
    for i in 0..n
        invariant
            n == track.loras.len(),
            pm == loras_model(pinned.loras@),
            tm == loras_model(track.loras@),
            pairs_model(out@) == head + strength_pairs(pm, tm.take(i as int)),
    {
        assert(tm.take(i + 1).drop_last() =~= tm.take(i as int));
        assert(tm.take(i + 1).last() == track.loras@[i as int]@);
        let t = &track.loras[i];
        match same_file_exec(&pinned.loras, t.filename.as_str()) {
            Some(k) => {
                if !crate::json::text_eq(pinned.loras[k].strength.as_str(), t.strength.as_str()) {
                    let ghost before = out@;
                    out.push((pinned.loras[k].strength.clone(), t.strength.clone()));
                    assert(pairs_model(out@) =~= pairs_model(before).push(
                        (pm[k as int].strength, tm[i as int].strength),
                    ));
                }
            },
            None => {},
        }
    }
    assert(tm.take(n as int) =~= tm);
    out
}

/// Adds a changed text, shown as its new value.
pub fn add_text_difference(out: &mut Vec<TrackDifference>, label: &str, pinned: &str, track: &str)
    ensures
        differences_model(final(out)@) == differences_model(old(out)@) + text_difference(
            label@,
            pinned@,
            track@,
        ),
{
    let ghost before = differences_model(out@);
    if !crate::json::text_eq(pinned, track) {
        push_difference(out, label, String::from_str(track));
    }
    assert(differences_model(out@) =~= before + text_difference(label@, pinned@, track@));
}

/// Adds a changed number, shown as `table` renders it.
pub fn add_numeric_difference(
    out: &mut Vec<TrackDifference>,
    label: &str,
    pinned: &str,
    track: &str,
    table: &Vec<(String, String, String)>,
)
    ensures
        differences_model(final(out)@) == differences_model(old(out)@) + numeric_difference(
            table_model(table@),
            label@,
            pinned@,
            track@,
        ),
{
    let ghost before = differences_model(out@);
    if !crate::json::text_eq(pinned, track) {
        let v = numeric_value_exec(table, pinned, track);
        push_difference(out, label, v);
    }
    assert(differences_model(out@) =~= before + numeric_difference(
        table_model(table@),
        label@,
        pinned@,
        track@,
    ));
}

/// Adds a changed text, shown as the number of edits between the two.
pub fn add_count_difference(out: &mut Vec<TrackDifference>, label: &str, pinned: &str, track: &str)
    requires
        track@.len() < usize::MAX,
    ensures
        differences_model(final(out)@) == differences_model(old(out)@) + count_difference(
            label@,
            pinned@,
            track@,
        ),
{
    let ghost before = differences_model(out@);
    if !crate::json::text_eq(pinned, track) {
        let d = edit_distance(pinned, track);
        push_difference(out, label, u64_text(d as u64));
    }
    assert(differences_model(out@) =~= before + count_difference(label@, pinned@, track@));
}

fn field_differences(
    pinned: &ComfyUIWorkflow,
    track: &ComfyUIWorkflow,
    table: &Vec<(String, String, String)>,
) -> (r: Vec<TrackDifference>)
    requires
        track.prompt@.len() < usize::MAX,
        track.lyrics@.len() < usize::MAX,
    ensures
        differences_model(r@) == numeric_difference(
            table_model(table@),
            "BPM: "@,
            pinned@.bpm,
            track@.bpm,
        ) + numeric_difference(table_model(table@), "Seed: "@, pinned@.seed, track@.seed)
            + text_difference("Key: "@, pinned@.key, track@.key) + text_difference(
            "Model: "@,
            pinned@.model,
            track@.model,
        ) + count_difference("Prompt: "@, pinned@.prompt, track@.prompt) + count_difference(
            "Lyrics: "@,
            pinned@.lyrics,
            track@.lyrics,
        ),
{
    let mut out: Vec<TrackDifference> = Vec::new();
    assert(differences_model(out@) =~= Seq::<DifferenceModel>::empty());
    add_numeric_difference(&mut out, "BPM: ", pinned.bpm.as_str(), track.bpm.as_str(), table);
    add_numeric_difference(&mut out, "Seed: ", pinned.seed.as_str(), track.seed.as_str(), table);
    add_text_difference(&mut out, "Key: ", pinned.key.as_str(), track.key.as_str());
    add_text_difference(&mut out, "Model: ", pinned.model.as_str(), track.model.as_str());
    add_count_difference(&mut out, "Prompt: ", pinned.prompt.as_str(), track.prompt.as_str());
    add_count_difference(&mut out, "Lyrics: ", pinned.lyrics.as_str(), track.lyrics.as_str());
    out
}

/// Adds the LoRA differences (see `lora_differences`).
pub fn add_lora_differences(
    out: &mut Vec<TrackDifference>,
    pinned: &Vec<LoRAInfo>,
    track: &Vec<LoRAInfo>,
    table: &Vec<(String, String, String)>,
)
    ensures
        differences_model(final(out)@) == differences_model(old(out)@) + lora_differences(
            table_model(table@),
            loras_model(pinned@),
            loras_model(track@),
        ),
{
    let ghost tb = table_model(table@);
    let ghost s6 = differences_model(out@);
    if pinned.len() != track.len() {
        let v = count_change(track.len() as u64, pinned.len() as u64);
        push_difference(out, "Loras: ", v);
    }
    let ghost pm = loras_model(pinned@);
    let ghost tm = loras_model(track@);
    let ghost s7 = differences_model(out@);
    assert(s7 =~= s6 + (if pm.len() != tm.len() {
        seq![difference("Loras: "@, count_change_spec(tm.len(), tm.len() - pm.len()))]
    } else {
        Seq::empty()
    }));
    let n = track.len();
    assert(tm.take(0) =~= Seq::<LoraModel>::empty());
    assert(s7 + strength_differences(tb, pm, tm.take(0)) =~= s7);
    for i in 0..n
        invariant
            n == track.len(),
            pm == loras_model(pinned@),
            tm == loras_model(track@),
            tb == table_model(table@),
            differences_model(out@) == s7 + strength_differences(tb, pm, tm.take(i as int)),
    {
        assert(tm.take(i + 1).drop_last() =~= tm.take(i as int));
        assert(tm.take(i + 1).last() == track@[i as int]@);
        let t = &track[i];
        match same_file_exec(pinned, t.filename.as_str()) {
            Some(k) => {
                if !crate::json::text_eq(pinned[k].strength.as_str(), t.strength.as_str()) {
                    let v = numeric_value_exec(table, pinned[k].strength.as_str(), t.strength.as_str());
                    let mut label = String::from_str("Lora ");
                    label.append(t.filename.as_str());
                    label.append(" strength: ");
                    push_difference(out, label.as_str(), v);
                    assert(differences_model(out@) =~= s7 + strength_differences(
                        tb,
                        pm,
                        tm.take(i + 1),
                    ));
                }
            },
            None => {},
        }
    }
    assert(tm.take(n as int) =~= tm);
    assert(s6 + lora_differences(tb, pm, tm) =~= s7 + strength_differences(tb, pm, tm));
}

/// The differences of a track's workflow from the pinned one (see `compare_spec`).
/// `table` holds, for the changed numbers, their rendering (old, new, text), such as
/// `130 (+5)`; a changed number that it lacks shows its new text.
pub fn compare_workflows(
    pinned: &ComfyUIWorkflow,
    track: &ComfyUIWorkflow,
    table: &Vec<(String, String, String)>,
) -> (r: Vec<TrackDifference>)
    requires
        track.prompt@.len() < usize::MAX,
        track.lyrics@.len() < usize::MAX,
    ensures
        differences_model(r@) == compare_spec(table_model(table@), pinned@, track@),
{
    let mut out = field_differences(pinned, track, table);
    add_lora_differences(&mut out, &pinned.loras, &track.loras, table);
    out
}

/// The LoRA `same_file` finds has that file.
pub proof fn lemma_same_file(loras: Seq<LoraModel>, file: Seq<char>)
    ensures
        match same_file(loras, file) {
            Some(k) => 0 <= k < loras.len() && loras[k].filename == file,
            None => forall|i: int| 0 <= i < loras.len() ==> loras[i].filename != file,
        },
    decreases loras.len(),
{
    if loras.len() > 0 && loras[0].filename != file {
        lemma_same_file(loras.drop_first(), file);
        assert forall|i: int| 0 < i < loras.len() implies loras[i] == loras.drop_first()[i - 1] by {}
    }
}

/// LoRAs that use one file at one strength only.
pub open spec fn consistent_strengths(loras: Seq<LoraModel>) -> bool {
    forall|i: int, j: int|
        0 <= i < loras.len() && 0 <= j < loras.len() && loras[i].filename == loras[j].filename
            ==> #[trigger] loras[i].strength == #[trigger] loras[j].strength
}

proof fn lemma_no_strength_changes(
    table: Seq<(Seq<char>, Seq<char>, Seq<char>)>,
    pinned: Seq<LoraModel>,
    track: Seq<LoraModel>,
)
    requires
        consistent_strengths(pinned),
        forall|i: int| 0 <= i < track.len() ==> pinned.contains(#[trigger] track[i]),
    ensures
        strength_differences(table, pinned, track) == Seq::<DifferenceModel>::empty(),
    decreases track.len(),
{
    if track.len() > 0 {
        lemma_no_strength_changes(table, pinned, track.drop_last());
        let t = track.last();
        assert(pinned.contains(track[track.len() - 1]));
        let j = choose|j: int| 0 <= j < pinned.len() && pinned[j] == t;
        lemma_same_file(pinned, t.filename);
        let k = same_file(pinned, t.filename).unwrap();
        assert(pinned[k].strength == pinned[j].strength);
    }
}

/// A workflow compared with itself shows no difference, when it uses each LoRA file at
/// one strength only (of two LoRAs with one file, the second is compared with the first).
pub proof fn law_no_differences_from_itself(
    table: Seq<(Seq<char>, Seq<char>, Seq<char>)>,
    w: WorkflowModel,
)
    requires
        consistent_strengths(w.loras),
    ensures
        compare_spec(table, w, w) == Seq::<DifferenceModel>::empty(),
{
    lemma_no_strength_changes(table, w.loras, w.loras);
    assert(compare_spec(table, w, w) =~= Seq::<DifferenceModel>::empty());
}

/// Equal texts are no edit apart.
pub proof fn law_edit_distance_of_equal_texts(a: Seq<char>)
    ensures
        edit_distance_spec(a, a) == 0,
    decreases a.len(),
{
    if a.len() > 0 {
        law_edit_distance_of_equal_texts(a.drop_last());
    }
}

/// The edit distance is the same both ways.
pub proof fn law_edit_distance_symmetric(a: Seq<char>, b: Seq<char>)
    ensures
        edit_distance_spec(a, b) == edit_distance_spec(b, a),
    decreases a.len() + b.len(),
{
    if a.len() > 0 && b.len() > 0 {
        law_edit_distance_symmetric(a.drop_last(), b.drop_last());
        law_edit_distance_symmetric(a, b.drop_last());
        law_edit_distance_symmetric(a.drop_last(), b);
    }
}

/// What the track list shows as the differences of a track from the pinned one, once
/// their workflows were looked for: a track without a readable workflow shows
/// `missing workflow file`; the pinned track itself, or a track compared with a pinned
/// track without one, shows nothing; else the differences of `compare_spec`.
pub open spec fn shown_differences_spec(
    table: Seq<(Seq<char>, Seq<char>, Seq<char>)>,
    pinned: Option<WorkflowModel>,
    track: Option<WorkflowModel>,
    same_track: bool,
) -> Seq<DifferenceModel> {
    match track {
        None => seq![difference(Seq::empty(), "missing workflow file"@)],
        Some(t) => if same_track {
            Seq::empty()
        } else {
            match pinned {
                None => Seq::empty(),
                Some(p) => compare_spec(table, p, t),
            }
        },
    }
}

pub open spec fn workflow_opt(o: Option<&ComfyUIWorkflow>) -> Option<WorkflowModel> {
    match o {
        Some(w) => Some(w@),
        None => None,
    }
}

/// The differences the track list shows (see `shown_differences_spec`).
pub fn shown_differences(
    pinned: Option<&ComfyUIWorkflow>,
    track: Option<&ComfyUIWorkflow>,
    same_track: bool,
    table: &Vec<(String, String, String)>,
) -> (r: Vec<TrackDifference>)
    requires
        track.is_some() ==> track.unwrap().prompt@.len() < usize::MAX && track.unwrap().lyrics@.len()
            < usize::MAX,
    ensures
        differences_model(r@) == shown_differences_spec(
            table_model(table@),
            workflow_opt(pinned),
            workflow_opt(track),
            same_track,
        ),
{
    let t = match track {
        Some(t) => t,
        None => {
            let mut out: Vec<TrackDifference> = Vec::new();
            let label = String::new();
            assert(label@ =~= Seq::<char>::empty());
            let d = TrackDifference { label, value: String::from_str("missing workflow file") };
            assert(d@ == difference(Seq::empty(), "missing workflow file"@));
            out.push(d);
            assert(differences_model(out@) =~= seq![
                difference(Seq::empty(), "missing workflow file"@),
            ]);
            return out;
        },
    };
    if same_track {
        let out: Vec<TrackDifference> = Vec::new();
        assert(differences_model(out@) =~= Seq::<DifferenceModel>::empty());
        return out;
    }
    match pinned {
        None => {
            let out: Vec<TrackDifference> = Vec::new();
            assert(differences_model(out@) =~= Seq::<DifferenceModel>::empty());
            out
        },
        Some(p) => compare_workflows(p, t, table),
    }
}


/// The differences of a list that carry a given label, in order.
pub open spec fn with_label(ds: Seq<DifferenceModel>, label: Seq<char>) -> Seq<DifferenceModel> {
    ds.filter(|d: DifferenceModel| d.label == label)
}

proof fn lemma_with_label_one(d: DifferenceModel, label: Seq<char>)
    ensures
        with_label(seq![d], label) == (if d.label == label {
            seq![d]
        } else {
            Seq::<DifferenceModel>::empty()
        }),
{
    reveal_with_fuel(Seq::filter, 2);
    assert(seq![d].drop_last() =~= Seq::<DifferenceModel>::empty());
}

proof fn lemma_with_label_empty(label: Seq<char>)
    ensures
        with_label(Seq::<DifferenceModel>::empty(), label) == Seq::<DifferenceModel>::empty(),
{
    reveal_with_fuel(Seq::filter, 1);
}

/// The labels of strength changes: `Lora <file> strength: `.
pub open spec fn strength_label(l: Seq<char>) -> bool {
    l.len() >= 5 && l[0] == 'L' && l[1] == 'o' && l[4] == ' '
}

/// The labels the LoRA part of a comparison uses: `Loras: ` and `Lora <file> strength: `.
pub open spec fn lora_label(l: Seq<char>) -> bool {
    l.len() >= 2 && l[0] == 'L' && l[1] == 'o'
}

proof fn lemma_strength_labels(
    table: Seq<(Seq<char>, Seq<char>, Seq<char>)>,
    pinned: Seq<LoraModel>,
    track: Seq<LoraModel>,
)
    ensures
        forall|i: int|
            0 <= i < strength_differences(table, pinned, track).len() ==> strength_label(
                #[trigger] strength_differences(table, pinned, track)[i].label,
            ),
    decreases track.len(),
{
    if track.len() > 0 {
        lemma_strength_labels(table, pinned, track.drop_last());
        reveal_strlit("Lora ");
        let t = track.last();
        let l = "Lora "@ + t.filename + " strength: "@;
        assert(l[0] == 'L' && l[1] == 'o' && l[4] == ' ');
        let rest = strength_differences(table, pinned, track.drop_last());
        let all = strength_differences(table, pinned, track);
        assert forall|i: int| 0 <= i < all.len() implies strength_label(#[trigger] all[i].label) by {
            if i < rest.len() {
                assert(all[i] == rest[i]);
            } else {
                assert(all[i].label == l);
            }
        }
    }
}

proof fn lemma_lora_labels(
    table: Seq<(Seq<char>, Seq<char>, Seq<char>)>,
    pinned: Seq<LoraModel>,
    track: Seq<LoraModel>,
    label: Seq<char>,
)
    requires
        !lora_label(label),
    ensures
        with_label(lora_differences(table, pinned, track), label) == Seq::<DifferenceModel>::empty(),
{
    lemma_strength_labels(table, pinned, track);
    reveal_strlit("Loras: ");
    let ds = lora_differences(table, pinned, track);
    let head = if pinned.len() != track.len() {
        seq![difference("Loras: "@, count_change_spec(track.len(), track.len() - pinned.len()))]
    } else {
        Seq::empty()
    };
    let tail = strength_differences(table, pinned, track);
    assert forall|i: int| 0 <= i < ds.len() implies lora_label(#[trigger] ds[i].label) by {
        if i >= head.len() {
            assert(ds[i] == tail[i - head.len()]);
        }
    }
    let pred = |d: DifferenceModel| d.label == label;
    assert(ds.all(|x: DifferenceModel| !pred(x)));
    ds.lemma_all_neg_filter_empty(pred);
    assert(with_label(ds, label) =~= Seq::<DifferenceModel>::empty());
}

proof fn lemma_part_label(a: Seq<DifferenceModel>, la: Seq<char>, l: Seq<char>)
    requires
        a.len() <= 1,
        a.len() == 1 ==> a[0].label == la,
    ensures
        with_label(a, l) == (if la == l {
            a
        } else {
            Seq::<DifferenceModel>::empty()
        }),
{
    lemma_with_label_empty(l);
    if a.len() == 1 {
        lemma_with_label_one(a[0], l);
        assert(a =~= seq![a[0]]);
    } else {
        assert(a =~= Seq::<DifferenceModel>::empty());
    }
}

proof fn lemma_parts_label(
    a: Seq<Seq<DifferenceModel>>,
    la: Seq<Seq<char>>,
    lo: Seq<DifferenceModel>,
    l: Seq<char>,
)
    requires
        a.len() == 6,
        la.len() == 6,
        forall|i: int| 0 <= i < 6 ==> (#[trigger] a[i]).len() <= 1,
        forall|i: int| 0 <= i < 6 ==> a[i].len() == 1 ==> a[i][0].label == la[i],
        with_label(lo, l) == Seq::<DifferenceModel>::empty(),
    ensures
        with_label(a[0] + a[1] + a[2] + a[3] + a[4] + a[5] + lo, l) == (if la[0] == l {
            a[0]
        } else {
            Seq::empty()
        }) + (if la[1] == l {
            a[1]
        } else {
            Seq::empty()
        }) + (if la[2] == l {
            a[2]
        } else {
            Seq::empty()
        }) + (if la[3] == l {
            a[3]
        } else {
            Seq::empty()
        }) + (if la[4] == l {
            a[4]
        } else {
            Seq::empty()
        }) + (if la[5] == l {
            a[5]
        } else {
            Seq::empty()
        }),
{
    let pred = |d: DifferenceModel| d.label == l;
    let s1 = a[0] + a[1];
    let s2 = s1 + a[2];
    let s3 = s2 + a[3];
    let s4 = s3 + a[4];
    let s5 = s4 + a[5];
    Seq::filter_distributes_over_add(a[0], a[1], pred);
    Seq::filter_distributes_over_add(s1, a[2], pred);
    Seq::filter_distributes_over_add(s2, a[3], pred);
    Seq::filter_distributes_over_add(s3, a[4], pred);
    Seq::filter_distributes_over_add(s4, a[5], pred);
    Seq::filter_distributes_over_add(s5, lo, pred);
    lemma_part_label(a[0], la[0], l);
    lemma_part_label(a[1], la[1], l);
    lemma_part_label(a[2], la[2], l);
    lemma_part_label(a[3], la[3], l);
    lemma_part_label(a[4], la[4], l);
    lemma_part_label(a[5], la[5], l);
    assert(with_label(s5 + lo, l) =~= with_label(s5, l));
}

/// Each field of a comparison shows its change once: of the differences of a track from
/// the pinned one, those labelled with a field's label (BPM, seed, key, model, prompt,
/// lyrics) are exactly that field's part (see `field_parts`): one entry when the field
/// differs, none when it is the same.
pub proof fn law_each_changed_field_is_shown_once(
    table: Seq<(Seq<char>, Seq<char>, Seq<char>)>,
    pinned: WorkflowModel,
    track: WorkflowModel,
)
    ensures
        forall|j: int|
            0 <= j < 6 ==> with_label(compare_spec(table, pinned, track), #[trigger] field_labels()[j])
                == field_parts(table, pinned, track)[j],
        forall|j: int|
            0 <= j < 6 ==> (#[trigger] field_parts(table, pinned, track)[j]).len() <= 1,
{
    assert forall|j: int| 0 <= j < 6 implies with_label(
        compare_spec(table, pinned, track),
        #[trigger] field_labels()[j],
    ) == field_parts(table, pinned, track)[j] by {
        lemma_compare_label(table, pinned, track, j);
    }
}

/// A changed model is shown, once, with the track's model: the differences labelled
/// `Model: ` are that one entry when the models differ, and none when they are the same.
pub proof fn law_model_change_is_shown(
    table: Seq<(Seq<char>, Seq<char>, Seq<char>)>,
    pinned: WorkflowModel,
    track: WorkflowModel,
)
    ensures
        with_label(compare_spec(table, pinned, track), "Model: "@) == (if pinned.model
            != track.model {
            seq![DifferenceModel { label: "Model: "@, value: track.model }]
        } else {
            Seq::<DifferenceModel>::empty()
        }),
{
    lemma_compare_label(table, pinned, track, 3);
    assert(field_labels()[3] == "Model: "@);
}

/// The labels of the fields of a comparison, in order.
pub open spec fn field_labels() -> Seq<Seq<char>> {
    seq!["BPM: "@, "Seed: "@, "Key: "@, "Model: "@, "Prompt: "@, "Lyrics: "@]
}

/// The field parts of a comparison, in order.
pub open spec fn field_parts(
    table: Seq<(Seq<char>, Seq<char>, Seq<char>)>,
    pinned: WorkflowModel,
    track: WorkflowModel,
) -> Seq<Seq<DifferenceModel>> {
    seq![
        numeric_difference(table, "BPM: "@, pinned.bpm, track.bpm),
        numeric_difference(table, "Seed: "@, pinned.seed, track.seed),
        text_difference("Key: "@, pinned.key, track.key),
        text_difference("Model: "@, pinned.model, track.model),
        count_difference("Prompt: "@, pinned.prompt, track.prompt),
        count_difference("Lyrics: "@, pinned.lyrics, track.lyrics),
    ]
}

#[verifier::rlimit(40)]
proof fn lemma_compare_label(
    table: Seq<(Seq<char>, Seq<char>, Seq<char>)>,
    pinned: WorkflowModel,
    track: WorkflowModel,
    j: int,
)
    requires
        0 <= j < 6,
    ensures
        with_label(compare_spec(table, pinned, track), field_labels()[j]) == field_parts(
            table,
            pinned,
            track,
        )[j],
{
    reveal_strlit("BPM: ");
    reveal_strlit("Seed: ");
    reveal_strlit("Key: ");
    reveal_strlit("Model: ");
    reveal_strlit("Prompt: ");
    reveal_strlit("Lyrics: ");
    let la = field_labels();
    let a = field_parts(table, pinned, track);
    let lo = lora_differences(table, pinned.loras, track.loras);
    let ds = compare_spec(table, pinned, track);
    assert(ds == a[0] + a[1] + a[2] + a[3] + a[4] + a[5] + lo);
    assert(forall|i: int| 0 <= i < 6 ==> (#[trigger] a[i]).len() <= 1);
    assert(forall|i: int| 0 <= i < 6 ==> a[i].len() == 1 ==> a[i][0].label == la[i]);
    assert(la[0][0] == 'B' && la[1][0] == 'S' && la[2][0] == 'K' && la[3][0] == 'M');
    assert(la[4][0] == 'P' && la[5][0] == 'L' && la[5][1] == 'y');
    let l = la[j];
    assert(!lora_label(l));
    lemma_lora_labels(table, pinned.loras, track.loras, l);
    lemma_parts_label(a, la, lo, l);
    let e = Seq::<DifferenceModel>::empty();
    if j == 0 {
        assert(la[1] != l && la[2] != l && la[3] != l && la[4] != l && la[5] != l);
        assert(with_label(ds, l) =~= a[0]);
    } else if j == 1 {
        assert(la[0] != l && la[2] != l && la[3] != l && la[4] != l && la[5] != l);
        assert(with_label(ds, l) =~= a[1]);
    } else if j == 2 {
        assert(la[0] != l && la[1] != l && la[3] != l && la[4] != l && la[5] != l);
        assert(with_label(ds, l) =~= a[2]);
    } else if j == 3 {
        assert(la[0] != l && la[1] != l && la[2] != l && la[4] != l && la[5] != l);
        assert(with_label(ds, l) =~= a[3]);
    } else if j == 4 {
        assert(la[0] != l && la[1] != l && la[2] != l && la[3] != l && la[5] != l);
        assert(with_label(ds, l) =~= a[4]);
    } else {
        assert(la[0] != l && la[1] != l && la[2] != l && la[3] != l && la[4] != l);
        assert(with_label(ds, l) =~= a[5]);
    }
}


/// A change in the number of LoRAs is shown once, with the track's count and the change:
/// the differences labelled `Loras: ` are that one entry when the two workflows use a
/// different number of LoRAs, and none when they use as many.
pub proof fn law_lora_count_change_is_shown(
    table: Seq<(Seq<char>, Seq<char>, Seq<char>)>,
    pinned: WorkflowModel,
    track: WorkflowModel,
)
    ensures
        with_label(compare_spec(table, pinned, track), "Loras: "@) == (if pinned.loras.len()
            != track.loras.len() {
            seq![
                DifferenceModel {
                    label: "Loras: "@,
                    value: count_change_spec(
                        track.loras.len(),
                        track.loras.len() - pinned.loras.len(),
                    ),
                },
            ]
        } else {
            Seq::<DifferenceModel>::empty()
        }),
{
    reveal_strlit("BPM: ");
    reveal_strlit("Seed: ");
    reveal_strlit("Key: ");
    reveal_strlit("Model: ");
    reveal_strlit("Prompt: ");
    reveal_strlit("Lyrics: ");
    reveal_strlit("Loras: ");
    let l = "Loras: "@;
    let la = field_labels();
    let a = field_parts(table, pinned, track);
    let pl = pinned.loras;
    let tl = track.loras;
    let head = if pl.len() != tl.len() {
        seq![difference("Loras: "@, count_change_spec(tl.len(), tl.len() - pl.len()))]
    } else {
        Seq::<DifferenceModel>::empty()
    };
    let tail = strength_differences(table, pl, tl);
    lemma_strength_labels(table, pl, tl);
    let pred = |d: DifferenceModel| d.label == l;
    assert(tail.all(|x: DifferenceModel| !pred(x))) by {
        assert forall|i: int| 0 <= i < tail.len() implies !pred(#[trigger] tail[i]) by {
            assert(strength_label(tail[i].label));
            assert(l[4] == 's');
        }
    }
    tail.lemma_all_neg_filter_empty(pred);
    Seq::filter_distributes_over_add(head, tail, pred);
    lemma_part_label(head, l, l);
    assert(with_label(lora_differences(table, pl, tl), l) =~= head);
    let ds = compare_spec(table, pinned, track);
    assert(ds == a[0] + a[1] + a[2] + a[3] + a[4] + a[5] + lora_differences(table, pl, tl));
    assert(la[0][0] == 'B' && la[1][0] == 'S' && la[2][0] == 'K' && la[3][0] == 'M');
    assert(la[4][0] == 'P' && la[5][1] == 'y');
    assert(forall|i: int| 0 <= i < 6 ==> (#[trigger] a[i]).len() <= 1);
    assert(forall|i: int| 0 <= i < 6 ==> a[i].len() == 1 ==> a[i][0].label == la[i]);
    assert(la[0] != l && la[1] != l && la[2] != l && la[3] != l && la[4] != l && la[5] != l);
    let s1 = a[0] + a[1];
    let s2 = s1 + a[2];
    let s3 = s2 + a[3];
    let s4 = s3 + a[4];
    let s5 = s4 + a[5];
    Seq::filter_distributes_over_add(a[0], a[1], pred);
    Seq::filter_distributes_over_add(s1, a[2], pred);
    Seq::filter_distributes_over_add(s2, a[3], pred);
    Seq::filter_distributes_over_add(s3, a[4], pred);
    Seq::filter_distributes_over_add(s4, a[5], pred);
    Seq::filter_distributes_over_add(s5, lora_differences(table, pl, tl), pred);
    lemma_part_label(a[0], la[0], l);
    lemma_part_label(a[1], la[1], l);
    lemma_part_label(a[2], la[2], l);
    lemma_part_label(a[3], la[3], l);
    lemma_part_label(a[4], la[4], l);
    lemma_part_label(a[5], la[5], l);
    assert(with_label(ds, l) =~= head);
}
} // verus!
