//! The user's labels and tags, and the values read from the settings file.
use vstd::prelude::*;
use crate::text::chars_of;

verus! {

/// A label that comments can carry.
#[derive(Clone, Debug, PartialEq)]
pub struct LabelDefinition {
    pub id: u64,
    pub name: String,
    pub color: String,
}

/// A tag that audio files can carry.
#[derive(Clone, Debug, PartialEq)]
pub struct TagDefinition {
    pub id: u64,
    pub name: String,
}

/// The labels and tags, and the ids the next ones get.
pub struct Definitions {
    pub label_definitions: Vec<LabelDefinition>,
    pub tag_definitions: Vec<TagDefinition>,
    pub next_label_id: u64,
    pub next_tag_id: u64,
}

pub open spec fn label_ids(v: Seq<LabelDefinition>) -> Seq<u64> {
    v.map_values(|l: LabelDefinition| l.id)
}

pub open spec fn tag_ids(v: Seq<TagDefinition>) -> Seq<u64> {
    v.map_values(|t: TagDefinition| t.id)
}

/// The largest id, or 0 for none.
pub open spec fn max_id(ids: Seq<u64>) -> u64
    decreases ids.len(),
{
    if ids.len() == 0 {
        0
    } else {
        let m = max_id(ids.drop_last());
        if ids.last() > m {
            ids.last()
        } else {
            m
        }
    }
}

pub open spec fn max_u64(a: u64, b: u64) -> u64 {
    if a >= b {
        a
    } else {
        b
    }
}

/// `x.saturating_add(1)`.
pub open spec fn next_of(x: u64) -> u64 {
    if x == u64::MAX {
        x
    } else {
        (x + 1) as u64
    }
}

fn label(id: u64, name: &str, color: &str) -> (r: LabelDefinition)
    ensures
        r.id == id,
        r.name@ == name@,
        r.color@ == color@,
{
    LabelDefinition { id, name: String::from_str(name), color: String::from_str(color) }
}

fn tag(id: u64, name: &str) -> (r: TagDefinition)
    ensures
        r.id == id,
        r.name@ == name@,
{
    TagDefinition { id, name: String::from_str(name) }
}

fn max_id_exec(ids: &Vec<u64>) -> (r: u64)
    ensures
        r == max_id(ids@),
{
    let mut m: u64 = 0;
    let n = ids.len();
    assert(ids@.take(0) =~= Seq::<u64>::empty());
    for i in 0..n
        invariant
            n == ids.len(),
            m == max_id(ids@.take(i as int)),
    {
        assert(ids@.take(i + 1).drop_last() =~= ids@.take(i as int));
        if ids[i] > m {
            m = ids[i];
        }
    }
    assert(ids@.take(n as int) =~= ids@);
    m
}

/// The labels a new installation starts with, numbered 1 to 6.
pub fn default_label_definitions() -> (r: Vec<LabelDefinition>)
    ensures
        label_ids(r@) == seq![1u64, 2, 3, 4, 5, 6],
        r@[0].name@ == "Base idea"@ && r@[0].color@ == "#a9d8f5"@,
        r@[1].name@ == "Good alternative"@ && r@[1].color@ == "#d5efff"@,
        r@[2].name@ == "Bad"@ && r@[2].color@ == "#f3b1b1"@,
        r@[3].name@ == "Use as FX material"@ && r@[3].color@ == "#d6b8ed"@,
        r@[4].name@ == "Could be improved"@ && r@[4].color@ == "#f4e29c"@,
        r@[5].name@ == "Use as sample"@ && r@[5].color@ == "#b7e4a8"@,
{
    let labels = vec![
        label(1, "Base idea", "#a9d8f5"),
        label(2, "Good alternative", "#d5efff"),
        label(3, "Bad", "#f3b1b1"),
        label(4, "Use as FX material", "#d6b8ed"),
        label(5, "Could be improved", "#f4e29c"),
        label(6, "Use as sample", "#b7e4a8"),
    ];
    assert(label_ids(labels@) =~= seq![1u64, 2, 3, 4, 5, 6]);
    labels
}

/// The tags a new installation starts with, numbered 1 to 6.
pub fn default_tag_definitions() -> (r: Vec<TagDefinition>)
    ensures
        tag_ids(r@) == seq![1u64, 2, 3, 4, 5, 6],
        r@.map_values(|t: TagDefinition| t.name@) == seq![
            "Funk"@,
            "Techno"@,
            "Electro"@,
            "Jazz"@,
            "Classical"@,
            "Choir"@,
        ],
{
    let tags = vec![
        tag(1, "Funk"),
        tag(2, "Techno"),
        tag(3, "Electro"),
        tag(4, "Jazz"),
        tag(5, "Classical"),
        tag(6, "Choir"),
    ];
    assert(tag_ids(tags@) =~= seq![1u64, 2, 3, 4, 5, 6]);
    assert(tags@.map_values(|t: TagDefinition| t.name@) =~= seq![
        "Funk"@,
        "Techno"@,
        "Electro"@,
        "Jazz"@,
        "Classical"@,
        "Choir"@,
    ]);
    tags
}

/// The id the next new label gets in a new installation.
pub fn default_next_label_id() -> (r: u64)
    ensures
        r == 7,
{
    7
}

/// The id the next new tag gets in a new installation.
pub fn default_next_tag_id() -> (r: u64)
    ensures
        r == 7,
{
    7
}

/// Whether a notification sound plays when a download finishes, unless set otherwise.
pub fn default_notification_sound() -> (r: bool)
    ensures
        r,
{
    true
}

/// The file sort order unless set otherwise.
pub fn default_sort_order() -> (r: i32)
    ensures
        r == 3,
{
    3
}

/// The shortcut slot of opening the metadata, unless set otherwise.
pub fn default_shortcut_metadata() -> (r: i32)
    ensures
        r == 1,
{
    1
}

/// The shortcut slot of play and pause, unless set otherwise.
pub fn default_shortcut_play_pause() -> (r: i32)
    ensures
        r == 2,
{
    2
}

/// The shortcut slot of moving up the list, unless set otherwise.
pub fn default_shortcut_navigate_up() -> (r: i32)
    ensures
        r == 3,
{
    3
}

/// The shortcut slot of moving down the list, unless set otherwise.
pub fn default_shortcut_navigate_down() -> (r: i32)
    ensures
        r == 4,
{
    4
}

/// The shortcut slot of cancelling an edit, unless set otherwise.
pub fn default_shortcut_cancel_edit() -> (r: i32)
    ensures
        r == 5,
{
    5
}

/// The shortcut slot of seeking backward, unless set otherwise.
pub fn default_shortcut_seek_backward() -> (r: i32)
    ensures
        r == 7,
{
    7
}

/// The shortcut slot of seeking forward, unless set otherwise.
pub fn default_shortcut_seek_forward() -> (r: i32)
    ensures
        r == 8,
{
    8
}

/// The shortcut slot of moving to the trash, unless set otherwise.
pub fn default_shortcut_trash() -> (r: i32)
    ensures
        r == 9,
{
    9
}

/// The background color of comments unless set otherwise.
pub fn default_comment_background_color() -> (r: String)
    ensures
        r@ == "#000000"@,
{
    String::from_str("#000000")
}

/// The text color of comments unless set otherwise.
pub fn default_comment_text_color() -> (r: String)
    ensures
        r@ == "#ffffff"@,
{
    String::from_str("#ffffff")
}

/// The format of separated stems unless set otherwise.
pub fn default_stem_format() -> (r: String)
    ensures
        r@ == "flac"@,
{
    String::from_str("flac")
}

/// The folder of separated stems unless set otherwise.
pub fn default_stem_output_folder() -> (r: String)
    ensures
        r@ == "stems"@,
{
    String::from_str("stems")
}

impl Definitions {
    /// The labels and tags a new installation starts with (see `default_label_definitions`
    /// and `default_tag_definitions`), the next ones getting 7.
    pub fn defaults() -> (r: Self)
        ensures
            label_ids(r.label_definitions@) == seq![1u64, 2, 3, 4, 5, 6],
            tag_ids(r.tag_definitions@) == seq![1u64, 2, 3, 4, 5, 6],
            r.next_label_id == 7,
            r.next_tag_id == 7,
    {
        Definitions {
            label_definitions: default_label_definitions(),
            tag_definitions: default_tag_definitions(),
            next_label_id: default_next_label_id(),
            next_tag_id: default_next_tag_id(),
        }
    }

    /// Adds a label; it gets the next label id (at least 1), and the next id moves one
    /// on (saturating). Returns its id.
    pub fn create_label(&mut self, name: String, color: String) -> (r: u64)
        ensures
            r == max_u64(old(self).next_label_id, 1),
            final(self).next_label_id == next_of(r),
            final(self).label_definitions@.len() == old(self).label_definitions@.len() + 1,
            final(self).label_definitions@.drop_last() == old(self).label_definitions@,
            final(self).label_definitions@.last().id == r,
            final(self).label_definitions@.last().name@ == name@,
            final(self).label_definitions@.last().color@ == color@,
            final(self).tag_definitions == old(self).tag_definitions,
            final(self).next_tag_id == old(self).next_tag_id,
    {
        let id = if self.next_label_id >= 1 {
            self.next_label_id
        } else {
            1
        };
        self.next_label_id = id.saturating_add(1);
        let ghost before = self.label_definitions@;
        let ghost n = name@;
        let ghost c = color@;
        self.label_definitions.push(LabelDefinition { id, name, color });
        assert(self.label_definitions@.drop_last() =~= before);
        id
    }

    /// Adds a tag; it gets the next tag id (at least 1), and the next id moves one on
    /// (saturating). Returns its id.
    pub fn create_tag(&mut self, name: String) -> (r: u64)
        ensures
            r == max_u64(old(self).next_tag_id, 1),
            final(self).next_tag_id == next_of(r),
            final(self).tag_definitions@.len() == old(self).tag_definitions@.len() + 1,
            final(self).tag_definitions@.drop_last() == old(self).tag_definitions@,
            final(self).tag_definitions@.last().id == r,
            final(self).tag_definitions@.last().name@ == name@,
            final(self).label_definitions == old(self).label_definitions,
            final(self).next_label_id == old(self).next_label_id,
    {
        let id = if self.next_tag_id >= 1 {
            self.next_tag_id
        } else {
            1
        };
        self.next_tag_id = id.saturating_add(1);
        let ghost before = self.tag_definitions@;
        self.tag_definitions.push(TagDefinition { id, name });
        assert(self.tag_definitions@.drop_last() =~= before);
        id
    }

    /// Moves the next ids past every id in use, so none is given twice.
    pub fn normalize_next_ids(&mut self)
        ensures
            final(self).next_label_id == max_u64(
                old(self).next_label_id,
                next_of(max_id(label_ids(old(self).label_definitions@))),
            ),
            final(self).next_tag_id == max_u64(
                old(self).next_tag_id,
                next_of(max_id(tag_ids(old(self).tag_definitions@))),
            ),
            final(self).label_definitions == old(self).label_definitions,
            final(self).tag_definitions == old(self).tag_definitions,
    {
        let mut lids: Vec<u64> = Vec::new();
        let n = self.label_definitions.len();
        for i in 0..n
            invariant
                n == self.label_definitions.len(),
                lids@ == label_ids(self.label_definitions@).take(i as int),
        {
            lids.push(self.label_definitions[i].id);
            assert(lids@ =~= label_ids(self.label_definitions@).take(i + 1));
        }
        assert(label_ids(self.label_definitions@).take(n as int) =~= label_ids(self.label_definitions@));
        let mut tids: Vec<u64> = Vec::new();
        let m = self.tag_definitions.len();
        for i in 0..m
            invariant
                m == self.tag_definitions.len(),
                tids@ == tag_ids(self.tag_definitions@).take(i as int),
        {
            tids.push(self.tag_definitions[i].id);
            assert(tids@ =~= tag_ids(self.tag_definitions@).take(i + 1));
        }
        assert(tag_ids(self.tag_definitions@).take(m as int) =~= tag_ids(self.tag_definitions@));
        let next_label = max_id_exec(&lids).saturating_add(1);
        let next_tag = max_id_exec(&tids).saturating_add(1);
        if next_label > self.next_label_id {
            self.next_label_id = next_label;
        }
        if next_tag > self.next_tag_id {
            self.next_tag_id = next_tag;
        }
    }
}

/// The loop mode stored as a number: 0, 1 or 2, others clamped.
pub fn loop_mode_from_number(mode: i32) -> (r: i32)
    ensures
        r == if mode < 0 {
            0
        } else if mode > 2 {
            2
        } else {
            mode
        },
{
    if mode < 0 {
        0
    } else if mode > 2 {
        2
    } else {
        mode
    }
}

/// The loop mode stored by older versions as a switch: 1 when on, 0 when off.
pub fn loop_mode_from_switch(enabled: bool) -> (r: i32)
    ensures
        r == if enabled {
            1int
        } else {
            0int
        },
{
    if enabled {
        1
    } else {
        0
    }
}

/// The number of bytes of a character in UTF-8.
pub open spec fn utf8_len(c: char) -> int {
    if (c as u32) < 0x80 {
        1
    } else if (c as u32) < 0x800 {
        2
    } else if (c as u32) < 0x10000 {
        3
    } else {
        4
    }
}

/// The number of bytes of a text in UTF-8.
pub open spec fn byte_len(s: Seq<char>) -> int
    decreases s.len(),
{
    if s.len() == 0 {
        0
    } else {
        byte_len(s.drop_last()) + utf8_len(s.last())
    }
}

/// Whether byte `b` of a text starts a character (or ends the text).
pub open spec fn is_char_boundary(s: Seq<char>, b: int) -> bool {
    exists|k: int| 0 <= k <= s.len() && #[trigger] byte_len(s.take(k)) == b
}

/// The text without one leading `#`.
pub open spec fn color_digits(s: Seq<char>) -> Seq<char> {
    if s.len() > 0 && s[0] == '#' {
        s.drop_first()
    } else {
        s
    }
}

/// The value of a hexadecimal digit.
pub open spec fn hex_value(c: char) -> Option<int> {
    if '0' <= c && c <= '9' {
        Some(c as int - '0' as int)
    } else if 'a' <= c && c <= 'f' {
        Some(c as int - 'a' as int + 10)
    } else if 'A' <= c && c <= 'F' {
        Some(c as int - 'A' as int + 10)
    } else {
        None
    }
}

/// `u8::from_str_radix(pair, 16)` on two characters: two hex digits, or `+` and one.
pub open spec fn hex_pair(a: char, b: char) -> Option<u8> {
    if a == '+' {
        match hex_value(b) {
            Some(v) => Some(v as u8),
            None => None,
        }
    } else {
        match (hex_value(a), hex_value(b)) {
            (Some(x), Some(y)) => Some((16 * x + y) as u8),
            _ => None,
        }
    }
}

/// The red, green and blue of a `#rrggbb` color (the `#` may be left out).
pub open spec fn hex_color_spec(value: Seq<char>) -> Option<(u8, u8, u8)> {
    let v = color_digits(value);
    if byte_len(v) != 6 || v.len() != 6 {
        None
    } else {
        match (hex_pair(v[0], v[1]), hex_pair(v[2], v[3]), hex_pair(v[4], v[5])) {
            (Some(r), Some(g), Some(b)) => Some((r, g, b)),
            _ => None,
        }
    }
}

proof fn lemma_byte_len_bounds(s: Seq<char>)
    ensures
        byte_len(s) >= s.len(),
        byte_len(s) == s.len() ==> forall|i: int| 0 <= i < s.len() ==> (s[i] as u32) < 0x80,
    decreases s.len(),
{
    if s.len() > 0 {
        lemma_byte_len_bounds(s.drop_last());
        assert forall|i: int| 0 <= i < s.len() && byte_len(s) == s.len() implies (s[i] as u32) < 0x80 by {
            if i < s.len() - 1 {
                assert(s.drop_last()[i] == s[i]);
            }
        }
    }
}

fn utf8_len_exec(c: char) -> (r: usize)
    ensures
        r == utf8_len(c),
{
    let x = c as u32;
    if x < 0x80 {
        1
    } else if x < 0x800 {
        2
    } else if x < 0x10000 {
        3
    } else {
        4
    }
}

fn hex_value_exec(c: char) -> (r: Option<u8>)
    ensures
        match r {
            Some(v) => hex_value(c) == Some(v as int),
            None => hex_value(c).is_none(),
        },
{
    if '0' <= c && c <= '9' {
        Some(((c as u32) - ('0' as u32)) as u8)
    } else if 'a' <= c && c <= 'f' {
        Some(((c as u32) - ('a' as u32) + 10) as u8)
    } else if 'A' <= c && c <= 'F' {
        Some(((c as u32) - ('A' as u32) + 10) as u8)
    } else {
        None
    }
}

fn hex_pair_exec(a: char, b: char) -> (r: Option<u8>)
    ensures
        r == hex_pair(a, b),
{
    if a == '+' {
        return match hex_value_exec(b) {
            Some(v) => Some(v),
            None => None,
        };
    }
    match (hex_value_exec(a), hex_value_exec(b)) {
        (Some(x), Some(y)) => Some(16 * x + y),
        _ => None,
    }
}

/// Reads a `#rrggbb` color (see `hex_color_spec`). A text of six bytes that are not six
/// characters must split into characters at bytes 2 and 4.
pub fn parse_hex_color(value: &str) -> (r: Option<(u8, u8, u8)>)
    requires
        byte_len(color_digits(value@)) == 6 ==> is_char_boundary(color_digits(value@), 2)
            && is_char_boundary(color_digits(value@), 4),
    ensures
        r == hex_color_spec(value@),
{
    let all = chars_of(value);
    let start: usize = if all.len() > 0 && all[0] == '#' {
        1
    } else {
        0
    };
    let v = crate::text::slice_chars(&all, start, all.len());
    assert(v@ =~= color_digits(value@));
    let mut bytes: usize = 0;
    let n = v.len();
    for i in 0..n
        invariant
            n == v.len(),
            bytes as int == if byte_len(v@.take(i as int)) >= 7 {
                7
            } else {
                byte_len(v@.take(i as int))
            },
    {
        assert(v@.take(i + 1).drop_last() =~= v@.take(i as int));
        if bytes < 7 {
            let next = bytes + utf8_len_exec(v[i]);
            bytes = if next >= 7 {
                7
            } else {
                next
            };
        }
    }
    assert(v@.take(n as int) =~= v@);
    if bytes != 6 || n != 6 {
        return None;
    }
    let red = hex_pair_exec(v[0], v[1]);
    let green = hex_pair_exec(v[2], v[3]);
    let blue = hex_pair_exec(v[4], v[5]);
    match (red, green, blue) {
        (Some(r), Some(g), Some(b)) => Some((r, g, b)),
        _ => None,
    }
}

/// A color from a `#rrggbb` text, or `fallback` when the text is no such color.
pub fn parse_color(value: &str, fallback: (u8, u8, u8)) -> (r: (u8, u8, u8))
    requires
        byte_len(color_digits(value@)) == 6 ==> is_char_boundary(color_digits(value@), 2)
            && is_char_boundary(color_digits(value@), 4),
    ensures
        r == match hex_color_spec(value@) {
            Some(c) => c,
            None => fallback,
        },
{
    match parse_hex_color(value) {
        Some(c) => c,
        None => fallback,
    }
}


/// Every id is at most the largest one.
pub proof fn lemma_max_id_bounds(ids: Seq<u64>)
    ensures
        forall|i: int| 0 <= i < ids.len() ==> #[trigger] ids[i] <= max_id(ids),
    decreases ids.len(),
{
    if ids.len() > 0 {
        lemma_max_id_bounds(ids.drop_last());
        assert forall|i: int| 0 <= i < ids.len() implies #[trigger] ids[i] <= max_id(ids) by {
            if i < ids.len() - 1 {
                assert(ids[i] == ids.drop_last()[i]);
            }
        }
    }
}

/// Once the next ids are repaired, the id a new label or tag gets is none that is in use,
/// as long as the largest id in use is below the greatest `u64` (at that id the next one
/// cannot move past it).
pub proof fn law_repaired_ids_are_fresh(ids: Seq<u64>, next: u64)
    requires
        max_id(ids) < u64::MAX,
    ensures
        !ids.contains(max_u64(max_u64(next, next_of(max_id(ids))), 1)),
{
    lemma_max_id_bounds(ids);
}

/// Ids are handed out in increasing order: of two definitions created one after the
/// other, the second gets the larger id, unless the first got the greatest `u64`.
pub proof fn law_created_ids_increase(next: u64)
    requires
        max_u64(next, 1) < u64::MAX,
    ensures
        max_u64(next_of(max_u64(next, 1)), 1) > max_u64(next, 1),
{
}

/// The color of a label whose own color cannot be read.
pub open spec fn fallback_label_color() -> (u8, u8, u8) {
    (229, 138, 77)
}

/// A color text that the color reader can slice without panicking.
pub open spec fn color_readable(value: Seq<char>) -> bool {
    byte_len(color_digits(value)) == 6 ==> is_char_boundary(color_digits(value), 2)
        && is_char_boundary(color_digits(value), 4)
}

/// The place of the first label with id `id`.
pub open spec fn label_place(labels: Seq<LabelDefinition>, id: u64) -> Option<int>
    decreases labels.len(),
{
    if labels.len() == 0 {
        None
    } else if labels[0].id == id {
        Some(0)
    } else {
        match label_place(labels.drop_first(), id) {
            Some(k) => Some(k + 1),
            None => None,
        }
    }
}

/// The name of the first tag with id `id`.
pub open spec fn tag_name_of(tags: Seq<TagDefinition>, id: u64) -> Option<Seq<char>>
    decreases tags.len(),
{
    if tags.len() == 0 {
        None
    } else if tags[0].id == id {
        Some(tags[0].name@)
    } else {
        tag_name_of(tags.drop_first(), id)
    }
}

fn label_place_exec(labels: &Vec<LabelDefinition>, id: u64) -> (r: Option<usize>)
    ensures
        match r {
            Some(k) => label_place(labels@, id) == Some(k as int) && k < labels.len(),
            None => label_place(labels@, id).is_none(),
        },
{
    let ghost m = labels@;
    assert(m.skip(0) =~= m);
    let n = labels.len();
    for i in 0..n
        invariant
            n == labels.len(),
            m == labels@,
            label_place(m, id) == match label_place(m.skip(i as int), id) {
                Some(x) => Some(x + i),
                None => None,
            },
    {
        assert(m.skip(i as int)[0] == m[i as int]);
        assert(m.skip(i as int).drop_first() =~= m.skip(i + 1));
        if labels[i].id == id {
            return Some(i);
        }
    }
    assert(m.skip(n as int).len() == 0);
    None
}

fn tag_name_exec(tags: &Vec<TagDefinition>, id: u64) -> (r: Option<String>)
    ensures
        match r {
            Some(t) => tag_name_of(tags@, id) == Some(t@),
            None => tag_name_of(tags@, id).is_none(),
        },
{
    let ghost m = tags@;
    assert(m.skip(0) =~= m);
    let n = tags.len();
    for i in 0..n
        invariant
            n == tags.len(),
            m == tags@,
            tag_name_of(m, id) == tag_name_of(m.skip(i as int), id),
    {
        assert(m.skip(i as int)[0] == m[i as int]);
        assert(m.skip(i as int).drop_first() =~= m.skip(i + 1));
        if tags[i].id == id {
            return Some(tags[i].name.clone());
        }
    }
    assert(m.skip(n as int).len() == 0);
    None
}

/// What a comment row shows of its label: the id (as the row's `i32`, `-1` for none), the
/// name, the color and whether the label is known. An unknown id shows as
/// `Unknown label` in the fallback color.
pub fn label_row_fields(label_id: Option<u64>, labels: &Vec<LabelDefinition>) -> (r: (
    i32,
    String,
    (u8, u8, u8),
    bool,
))
    requires
        forall|i: int| 0 <= i < labels@.len() ==> color_readable(#[trigger] labels@[i].color@),
    ensures
        match label_id {
            None => r.0 == -1 && r.1@ == ""@ && r.2 == fallback_label_color() && !r.3,
            Some(id) => r.0 == id as i32 && match label_place(labels@, id) {
                Some(k) => r.1@ == labels@[k].name@ && r.2 == match hex_color_spec(
                    labels@[k].color@,
                ) {
                    Some(c) => c,
                    None => fallback_label_color(),
                } && r.3,
                None => r.1@ == "Unknown label"@ && r.2 == fallback_label_color() && !r.3,
            },
        },
{
    let fallback: (u8, u8, u8) = (229, 138, 77);
    let id = match label_id {
        Some(id) => id,
        None => {
            return (-1, String::from_str(""), fallback, false);
        },
    };
    match label_place_exec(labels, id) {
        Some(k) => {
            let color = parse_color(labels[k].color.as_str(), fallback);
            (id as i32, labels[k].name.clone(), color, true)
        },
        None => (id as i32, String::from_str("Unknown label"), fallback, false),
    }
}

pub open spec fn row_texts(rows: Seq<(i32, String)>) -> Seq<(i32, Seq<char>)> {
    rows.map_values(|r: (i32, String)| (r.0, r.1@))
}

/// The row of a tag: its id (as `i32`) and name, `Unknown tag` for an id no tag has.
pub open spec fn tag_row(tags: Seq<TagDefinition>, id: u64) -> (i32, Seq<char>) {
    (
        id as i32,
        match tag_name_of(tags, id) {
            Some(n) => n,
            None => "Unknown tag"@,
        },
    )
}

/// The rows of the tags an audio file carries, in its order (see `tag_row`).
pub fn tag_rows(tag_ids: &Vec<u64>, tags: &Vec<TagDefinition>) -> (r: Vec<(i32, String)>)
    ensures
        row_texts(r@) == tag_ids@.map_values(|id: u64| tag_row(tags@, id)),
{
    let mut out: Vec<(i32, String)> = Vec::new();
    let n = tag_ids.len();
    for i in 0..n
        invariant
            n == tag_ids.len(),
            out.len() == i,
            forall|k: int| 0 <= k < i ==> (#[trigger] out@[k]).0 == tag_row(tags@, tag_ids@[k]).0
                && out@[k].1@ == tag_row(tags@, tag_ids@[k]).1,
    {
        let id = tag_ids[i];
        let name = match tag_name_exec(tags, id) {
            Some(t) => t,
            None => String::from_str("Unknown tag"),
        };
        out.push((id as i32, name));
    }
    assert(row_texts(out@) =~= tag_ids@.map_values(|id: u64| tag_row(tags@, id)));
    out
}

/// The tags that an audio file does not carry yet, in the order of the definitions.
pub open spec fn available_spec(tag_ids: Seq<u64>, tags: Seq<TagDefinition>) -> Seq<(i32, Seq<char>)>
    decreases tags.len(),
{
    if tags.len() == 0 {
        Seq::empty()
    } else {
        let rest = available_spec(tag_ids, tags.drop_last());
        if tag_ids.contains(tags.last().id) {
            rest
        } else {
            rest.push((tags.last().id as i32, tags.last().name@))
        }
    }
}

/// The rows of the tags an audio file could still get (see `available_spec`).
pub fn available_tag_rows(tag_ids: &Vec<u64>, tags: &Vec<TagDefinition>) -> (r: Vec<(i32, String)>)
    ensures
        row_texts(r@) == available_spec(tag_ids@, tags@),
{
    let mut out: Vec<(i32, String)> = Vec::new();
    let n = tags.len();
    for i in 0..n
        invariant
            n == tags.len(),
            row_texts(out@) == available_spec(tag_ids@, tags@.take(i as int)),
    {
        assert(tags@.take(i + 1).drop_last() =~= tags@.take(i as int));
        assert(tags@.take(i + 1).last() == tags@[i as int]);
        let id = tags[i].id;
        let mut carried = false;
        let m = tag_ids.len();
        for j in 0..m
            invariant
                m == tag_ids.len(),
                carried == tag_ids@.take(j as int).contains(id),
        {
            assert(tag_ids@.take(j + 1) =~= tag_ids@.take(j as int).push(tag_ids@[j as int]));
            if tag_ids[j] == id {
                carried = true;
                assert(tag_ids@.take(j + 1)[j as int] == id);
            }
        }
        assert(tag_ids@.take(m as int) =~= tag_ids@);
        if !carried {
            let ghost before = out@;
            out.push((id as i32, tags[i].name.clone()));
            assert(row_texts(out@) =~= row_texts(before).push((id as i32, tags@[i as int].name@)));
        }
    }
    assert(tags@.take(n as int) =~= tags@);
    out
}

/// A screen: its top-left corner and its size in pixels.
#[derive(Clone, Copy, Debug, PartialEq)]
pub struct DisplayArea {
    pub x: i32,
    pub y: i32,
    pub width: u32,
    pub height: u32,
}

/// Whether the point lies on the screen (its right and bottom edges excluded).
pub open spec fn on_display(x: i32, y: i32, d: DisplayArea) -> bool {
    x >= d.x && y >= d.y && x < d.x + d.width && y < d.y + d.height
}

/// Whether a saved window position lies on one of the screens, so that the window can be
/// put back there; when it does not, the saved size and position are forgotten.
pub fn window_position_visible(x: i32, y: i32, displays: &Vec<DisplayArea>) -> (r: bool)
    ensures
        r == exists|i: int| 0 <= i < displays@.len() && on_display(x, y, #[trigger] displays@[i]),
{
    let n = displays.len();
    for i in 0..n
        invariant
            n == displays.len(),
            forall|k: int| 0 <= k < i ==> !on_display(x, y, #[trigger] displays@[k]),
    {
        let d = displays[i];
        if x >= d.x && y >= d.y && (x as i64) < (d.x as i64) + (d.width as i64) && (y as i64) < (
        d.y as i64) + (d.height as i64) {
            assert(on_display(x, y, displays@[i as int]));
            return true;
        }
    }
    false
}
} // verus!
