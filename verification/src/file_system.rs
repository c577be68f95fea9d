//! The workspace tree: what kind of file a path is, which folders are open, and the rows
//! that the tree shows.
use vstd::prelude::*;
use crate::json::{text_eq, text_lt};
use crate::paths::{
    absolute_path, components, extension_of, file_name, file_name_of, is_absolute, is_normal,
    last_dot_exec, path_components, render, render_path, same_path, same_path_exec,
};
use crate::text::{ascii_lower, to_ascii_lowercase};

verus! {

/// The kind of an entry of the tree.
#[derive(Clone, Copy, Debug, PartialEq, Eq, Structural)]
pub enum FileKind {
    Directory,
    Audio,
    Safetensors,
    Json,
    Other,
}

/// The lower-case extension of the file a path names, when it has one.
pub open spec fn lower_extension(path: Seq<char>) -> Option<Seq<char>> {
    match file_name_of(path) {
        Some(name) => match extension_of(name) {
            Some(e) => Some(ascii_lower(e)),
            None => None,
        },
        None => None,
    }
}

/// The kind of a path: a folder, or a file by its extension.
pub open spec fn kind_spec(path: Seq<char>, is_dir: bool) -> FileKind {
    if is_dir {
        FileKind::Directory
    } else {
        match lower_extension(path) {
            Some(e) => if e == "flac"@ || e == "mp3"@ || e == "opus"@ || e == "wav"@ {
                FileKind::Audio
            } else if e == "safetensors"@ {
                FileKind::Safetensors
            } else if e == "json"@ {
                FileKind::Json
            } else {
                FileKind::Other
            },
            None => FileKind::Other,
        }
    }
}

/// The lower-case extension of the file a path names.
pub fn lower_extension_exec(path: &str) -> (r: Option<String>)
    ensures
        match r {
            Some(e) => lower_extension(path@) == Some(e@),
            None => lower_extension(path@).is_none(),
        },
{
    let name = match file_name(path) {
        Some(n) => n,
        None => {
            return None;
        },
    };
    proof {
        crate::paths::lemma_last_dot_bound(name@);
    }
    match last_dot_exec(name.as_str()) {
        Some(k) => {
            let v = crate::text::chars_of(name.as_str());
            let e = crate::text::slice_chars(&v, k + 1, v.len());
            assert(e@ =~= name@.skip(k + 1));
            let s = crate::text::string_of(e.as_slice());
            Some(to_ascii_lowercase(s.as_str()))
        },
        None => None,
    }
}

impl FileKind {
    /// The kind of a path; `is_dir` says whether it is a folder.
    pub fn from_path(path: &str, is_dir: bool) -> (r: FileKind)
        ensures
            r == kind_spec(path@, is_dir),
    {
        if is_dir {
            return FileKind::Directory;
        }
        match lower_extension_exec(path) {
            Some(e) => {
                let t = e.as_str();
                if text_eq(t, "flac") || text_eq(t, "mp3") || text_eq(t, "opus") || text_eq(t, "wav") {
                    FileKind::Audio
                } else if text_eq(t, "safetensors") {
                    FileKind::Safetensors
                } else if text_eq(t, "json") {
                    FileKind::Json
                } else {
                    FileKind::Other
                }
            },
            None => FileKind::Other,
        }
    }

    /// The short name of the kind.
    pub fn as_str(&self) -> (r: &'static str)
        ensures
            r@ == match self {
                FileKind::Directory => "dir"@,
                FileKind::Audio => "audio"@,
                FileKind::Safetensors => "safetensors"@,
                FileKind::Json => "json"@,
                FileKind::Other => "other"@,
            },
    {
        match self {
            FileKind::Directory => "dir",
            FileKind::Audio => "audio",
            FileKind::Safetensors => "safetensors",
            FileKind::Json => "json",
            FileKind::Other => "other",
        }
    }
}

/// An entry of a folder.
pub struct DirEntryInfo {
    pub path: String,
    pub name: String,
    pub is_dir: bool,
    pub kind: FileKind,
}

pub struct EntryModel {
    pub path: Seq<char>,
    pub name: Seq<char>,
    pub is_dir: bool,
    pub kind: FileKind,
}

impl View for DirEntryInfo {
    type V = EntryModel;

    open spec fn view(&self) -> EntryModel {
        EntryModel { path: self.path@, name: self.name@, is_dir: self.is_dir, kind: self.kind }
    }
}

pub open spec fn entry_views(v: Seq<DirEntryInfo>) -> Seq<EntryModel> {
    v.map_values(|e: DirEntryInfo| e@)
}

impl DirEntryInfo {
    /// The entry for `path` named `name`; `is_dir` says whether it is a folder.
    pub fn new(path: String, name: String, is_dir: bool) -> (r: Self)
        ensures
            r.path@ == path@,
            r.name@ == name@,
            r.is_dir == is_dir,
            r.kind == kind_spec(path@, is_dir),
    {
        let kind = FileKind::from_path(path.as_str(), is_dir);
        DirEntryInfo { path, name, is_dir: kind == FileKind::Directory, kind }
    }

    /// A copy of the entry.
    pub fn copy(&self) -> (r: Self)
        ensures
            r@ == self@,
    {
        DirEntryInfo {
            path: self.path.clone(),
            name: self.name.clone(),
            is_dir: self.is_dir,
            kind: self.kind,
        }
    }
}

/// Whether entry `a` is listed before entry `b`: folders first, then by lower-case name.
pub open spec fn listed_before(a: EntryModel, b: EntryModel) -> bool {
    (a.is_dir && !b.is_dir) || (a.is_dir == b.is_dir && text_lt(ascii_lower(a.name), ascii_lower(b.name)))
}

/// The first place, in a listing in order, of an entry that `x` comes before.
pub open spec fn insert_place(s: Seq<EntryModel>, x: EntryModel) -> int
    decreases s.len(),
{
    if s.len() == 0 {
        0
    } else if listed_before(x, s[0]) {
        0
    } else {
        1 + insert_place(s.drop_first(), x)
    }
}

/// A folder's entries in the tree's order: folders first, then by lower-case name;
/// entries that compare equal keep their order.
pub open spec fn sorted_listing(s: Seq<EntryModel>) -> Seq<EntryModel>
    decreases s.len(),
{
    if s.len() == 0 {
        s
    } else {
        let t = sorted_listing(s.drop_last());
        t.insert(insert_place(t, s.last()), s.last())
    }
}

fn text_lt_exec(a: &str, b: &str) -> (r: bool)
    ensures
        r == text_lt(a@, b@),
{
    let x = crate::text::chars_of(a);
    let y = crate::text::chars_of(b);
    crate::json::text_less(&x, &y)
}

fn listed_before_exec(a: &DirEntryInfo, b: &DirEntryInfo) -> (r: bool)
    ensures
        r == listed_before(a@, b@),
{
    if a.is_dir && !b.is_dir {
        return true;
    }
    if a.is_dir != b.is_dir {
        return false;
    }
    let la = to_ascii_lowercase(a.name.as_str());
    let lb = to_ascii_lowercase(b.name.as_str());
    text_lt_exec(la.as_str(), lb.as_str())
}

/// Sorts a folder's entries (see `sorted_listing`).
pub fn sort_entries(entries: &mut Vec<DirEntryInfo>)
    ensures
        entry_views(final(entries)@) == sorted_listing(entry_views(old(entries)@)),
        in_listing_order(entry_views(final(entries)@)),
{
    proof {
        lemma_sorted_listing(entry_views(entries@));
    }
    let ghost input = entry_views(entries@);
    let mut out: Vec<DirEntryInfo> = Vec::new();
    let n = entries.len();
    assert(input.take(0) =~= Seq::<EntryModel>::empty());
    for i in 0..n
        invariant
            n == entries.len(),
            input == entry_views(entries@),
            entry_views(out@) == sorted_listing(input.take(i as int)),
    {
        assert(input.take(i + 1).drop_last() =~= input.take(i as int));
        assert(input.take(i + 1).last() == entries@[i as int]@);
        let ghost cur = entry_views(out@);
        assert(cur.skip(0) =~= cur);
        let mut p: usize = 0;
        while p < out.len() && !listed_before_exec(&entries[i], &out[p])
            invariant
                p <= out.len(),
                cur == entry_views(out@),
                i < entries.len(),
                insert_place(cur, entries@[i as int]@) == p + insert_place(
                    cur.skip(p as int),
                    entries@[i as int]@,
                ),
            decreases out.len() - p,
        {
            assert(cur.skip(p as int)[0] == cur[p as int]);
            assert(cur.skip(p as int).drop_first() =~= cur.skip(p + 1));
            p = p + 1;
        }
        assert(insert_place(cur, entries@[i as int]@) == p) by {
            if p < out.len() {
                assert(cur.skip(p as int)[0] == cur[p as int]);
            } else {
                assert(cur.skip(p as int).len() == 0);
            }
        }
        out.insert(p, entries[i].copy());
        assert(entry_views(out@) =~= cur.insert(p as int, entries@[i as int]@));
    }
    assert(input.take(n as int) =~= input);
    *entries = out;
}

pub open spec fn path_texts(v: Seq<String>) -> Seq<Seq<char>> {
    v.map_values(|s: String| s@)
}

/// Whether a set of paths holds `p`, paths being equal component by component.
pub open spec fn holds(exp: Seq<Seq<char>>, p: Seq<char>) -> bool {
    exists|i: int| 0 <= i < exp.len() && same_path(#[trigger] exp[i], p)
}

/// The tree: its root, its open folders and the selected path.
pub struct TreeState {
    pub root: String,
    pub expanded: Vec<String>,
    pub selected: Option<String>,
}

pub open spec fn opt_text(o: Option<String>) -> Option<Seq<char>> {
    match o {
        Some(s) => Some(s@),
        None => None,
    }
}

/// The ancestor of a path that keeps its first `k` components.
pub open spec fn ancestor(path: Seq<char>, k: int) -> Seq<char> {
    render(is_absolute(path), components(path).take(k))
}

/// Where opening the folders above `path` stops: at the nearest ancestor that is the
/// root, or at the top.
pub open spec fn stop_at(path: Seq<char>, root: Seq<char>, k: int) -> int
    decreases k,
{
    if k <= 0 {
        0
    } else if same_path(ancestor(path, k), root) {
        k
    } else {
        stop_at(path, root, k - 1)
    }
}

/// `after` holds what `before` holds, but for `path`, which it holds when `before` does
/// not.
pub open spec fn toggled(before: Seq<Seq<char>>, after: Seq<Seq<char>>, path: Seq<char>) -> bool {
    forall|q: Seq<char>|
        holds(after, q) == if same_path(q, path) {
            !holds(before, path)
        } else {
            holds(before, q)
        }
}

/// Toggling a folder twice leaves the open folders as they were.
pub proof fn law_toggle_twice_restores(
    first: Seq<Seq<char>>,
    second: Seq<Seq<char>>,
    third: Seq<Seq<char>>,
    path: Seq<char>,
)
    requires
        toggled(first, second, path),
        toggled(second, third, path),
    ensures
        forall|q: Seq<char>| holds(third, q) == holds(first, q),
{
    assert forall|q: Seq<char>| holds(third, q) == holds(first, q) by {
        if same_path(q, path) {
            assert(same_path(path, path));
            assert(holds(second, path) == !holds(first, path));
            if holds(first, q) {
                let i = choose|i: int| 0 <= i < first.len() && same_path(first[i], q);
                assert(same_path(first[i], path));
            }
            if holds(first, path) {
                let i = choose|i: int| 0 <= i < first.len() && same_path(first[i], path);
                assert(same_path(first[i], q));
            }
        }
    }
}

impl TreeState {
    /// The open folders.
    pub open spec fn expanded_paths(&self) -> Seq<Seq<char>> {
        path_texts(self.expanded@)
    }

    /// A tree with only its root open and nothing selected.
    pub fn new(root: String) -> (r: Self)
        ensures
            r.root@ == root@,
            r.expanded_paths() == seq![root@],
            r.selected.is_none(),
    {
        let expanded = vec![root.clone()];
        let r = TreeState { root, expanded, selected: None };
        assert(r.expanded_paths() =~= seq![r.root@]);
        r
    }

    /// Whether the folder `path` is open.
    pub fn is_expanded(&self, path: &str) -> (r: bool)
        ensures
            r == holds(self.expanded_paths(), path@),
    {
        let n = self.expanded.len();
        for i in 0..n
            invariant
                n == self.expanded.len(),
                forall|k: int| 0 <= k < i ==> !same_path(#[trigger] self.expanded_paths()[k], path@),
        {
            if same_path_exec(self.expanded[i].as_str(), path) {
                assert(same_path(self.expanded_paths()[i as int], path@));
                return true;
            }
        }
        false
    }

    fn insert_expanded(&mut self, path: &str)
        ensures
            forall|q: Seq<char>|
                #[trigger] holds(final(self).expanded_paths(), q) == (holds(
                    old(self).expanded_paths(),
                    q,
                ) || same_path(q, path@)),
            final(self).root == old(self).root,
            final(self).selected == old(self).selected,
    {
        if self.is_expanded(path) {
            return;
        }
        let ghost before = self.expanded_paths();
        self.expanded.push(String::from_str(path));
        assert(self.expanded_paths() =~= before.push(path@));
        assert forall|q: Seq<char>|
            holds(self.expanded_paths(), q) == (holds(before, q) || same_path(q, path@)) by {
            if holds(before, q) {
                let i = choose|i: int| 0 <= i < before.len() && same_path(before[i], q);
                assert(self.expanded_paths()[i] == before[i]);
            }
            if same_path(q, path@) {
                assert(self.expanded_paths()[before.len() as int] == path@);
            }
            if holds(self.expanded_paths(), q) {
                let i = choose|i: int|
                    0 <= i < self.expanded_paths().len() && same_path(self.expanded_paths()[i], q);
                if i < before.len() {
                    assert(before[i] == self.expanded_paths()[i]);
                }
            }
        }
    }

    /// Opens a closed folder and closes an open one.
    pub fn toggle(&mut self, path: &str)
        ensures
            toggled(old(self).expanded_paths(), final(self).expanded_paths(), path@),
            final(self).root == old(self).root,
            final(self).selected == old(self).selected,
    {
        if !self.is_expanded(path) {
            self.insert_expanded(path);
            return;
        }
        let ghost before = self.expanded_paths();
        let mut kept: Vec<String> = Vec::new();
        let n = self.expanded.len();
        for i in 0..n
            invariant
                n == self.expanded.len(),
                before == self.expanded_paths(),
                forall|q: Seq<char>|
                    #[trigger] holds(path_texts(kept@), q) == (exists|k: int|
                        0 <= k < i && same_path(#[trigger] before[k], q) && !same_path(
                            before[k],
                            path@,
                        )),
        {
            let ghost km = path_texts(kept@);
            if !same_path_exec(self.expanded[i].as_str(), path) {
                kept.push(self.expanded[i].clone());
                assert(path_texts(kept@) =~= km.push(before[i as int]));
            }
            assert forall|q: Seq<char>|
                #[trigger] holds(path_texts(kept@), q) == (exists|k: int|
                    0 <= k < i + 1 && same_path(#[trigger] before[k], q) && !same_path(
                        before[k],
                        path@,
                    )) by {
                let now = path_texts(kept@);
                if holds(now, q) {
                    let j = choose|j: int| 0 <= j < now.len() && same_path(now[j], q);
                    if j < km.len() {
                        assert(km[j] == now[j]);
                        assert(holds(km, q));
                    } else {
                        assert(same_path(before[i as int], q));
                    }
                }
                if exists|k: int|
                    0 <= k < i + 1 && same_path(#[trigger] before[k], q) && !same_path(
                        before[k],
                        path@,
                    ) {
                    let k = choose|k: int|
                        0 <= k < i + 1 && same_path(#[trigger] before[k], q) && !same_path(
                            before[k],
                            path@,
                        );
                    if k < i {
                        assert(holds(km, q));
                        let j = choose|j: int| 0 <= j < km.len() && same_path(km[j], q);
                        assert(now[j] == km[j]);
                    } else {
                        assert(now[km.len() as int] == before[i as int]);
                    }
                }
            }
        }
        self.expanded = kept;
    }

    /// Selects a path.
    pub fn select(&mut self, path: &str)
        ensures
            opt_text(final(self).selected) == Some(path@),
            final(self).root == old(self).root,
            final(self).expanded_paths() == old(self).expanded_paths(),
    {
        self.selected = Some(String::from_str(path));
    }

    /// Selects a path and opens the folders above it, up to the root.
    pub fn select_and_expand(&mut self, path: &str)
        ensures
            opt_text(final(self).selected) == Some(path@),
            final(self).root == old(self).root,
            forall|q: Seq<char>|
                #[trigger] holds(final(self).expanded_paths(), q) == (holds(
                    old(self).expanded_paths(),
                    q,
                ) || (exists|k: int|
                    stop_at(path@, old(self).root@, components(path@).len() - 1) <= k
                        < components(path@).len() && same_path(q, #[trigger] ancestor(path@, k)))),
    {
        self.select(path);
        let ghost start = self.expanded_paths();
        let ghost root = self.root@;
        let ghost root0 = self.root;
        let cs = path_components(path);
        let ghost pc = components(path@);
        let abs = absolute_path(path);
        let len = cs.len();
        let mut k = len;
        let mut done = false;
        while k > 0 && !done
            invariant
                k <= len,
                len == cs.len(),
                pc == cs@.map_values(|c: String| c@),
                pc == components(path@),
                abs == is_absolute(path@),
                self.root@ == root,
                self.root == root0,
                opt_text(self.selected) == Some(path@),
                !done ==> stop_at(path@, root, len as int - 1) == stop_at(path@, root, k as int - 1),
                done ==> stop_at(path@, root, len as int - 1) == k && k < len,
                forall|q: Seq<char>|
                    #[trigger] holds(self.expanded_paths(), q) == (holds(start, q) || (exists|j: int|
                        k <= j < len && same_path(q, #[trigger] ancestor(path@, j)))),
            decreases k, if done { 0int } else { 1int },
        {
            k = k - 1;
            let mut prefix: Vec<String> = Vec::new();
            for j in 0..k
                invariant
                    k < cs.len(),
                    prefix@.map_values(|c: String| c@) == pc.take(j as int),
                    pc == cs@.map_values(|c: String| c@),
            {
                prefix.push(cs[j].clone());
                assert(pc.take(j + 1) =~= pc.take(j as int).push(pc[j as int]));
                assert(prefix@.map_values(|c: String| c@) =~= pc.take(j + 1));
            }
            let anc = render_path(abs, &prefix);
            assert(anc@ == ancestor(path@, k as int));
            let ghost before = self.expanded_paths();
            self.insert_expanded(anc.as_str());
            assert forall|q: Seq<char>|
                #[trigger] holds(self.expanded_paths(), q) == (holds(start, q) || (exists|j: int|
                    k <= j < len && same_path(q, #[trigger] ancestor(path@, j)))) by {
                let old_ex = exists|j: int|
                    k + 1 <= j < len && same_path(q, #[trigger] ancestor(path@, j));
                let new_ex = exists|j: int| k <= j < len && same_path(q, #[trigger] ancestor(path@, j));
                assert(holds(before, q) == (holds(start, q) || old_ex));
                assert(holds(self.expanded_paths(), q) == (holds(before, q) || same_path(q, anc@)));
                if old_ex {
                    let j = choose|j: int| k + 1 <= j < len && same_path(q, #[trigger] ancestor(path@, j));
                    assert(k <= j < len && same_path(q, ancestor(path@, j)));
                }
                if same_path(q, anc@) {
                    assert(same_path(q, ancestor(path@, k as int)));
                }
                if new_ex {
                    let j = choose|j: int| k <= j < len && same_path(q, #[trigger] ancestor(path@, j));
                    if j != k {
                        assert(k + 1 <= j < len && same_path(q, ancestor(path@, j)));
                    }
                }
            }
            if same_path_exec(anc.as_str(), self.root.as_str()) {
                done = true;
            }
        }
    }
}

/// A row of the tree as shown.
pub struct VisibleRow {
    pub path: String,
    pub name: String,
    pub depth: i32,
    pub is_dir: bool,
    pub is_expanded: bool,
    pub is_selected: bool,
    pub kind: FileKind,
}

pub struct RowModel {
    pub path: Seq<char>,
    pub name: Seq<char>,
    pub depth: int,
    pub is_dir: bool,
    pub is_expanded: bool,
    pub is_selected: bool,
    pub kind: FileKind,
}

impl View for VisibleRow {
    type V = RowModel;

    open spec fn view(&self) -> RowModel {
        RowModel {
            path: self.path@,
            name: self.name@,
            depth: self.depth as int,
            is_dir: self.is_dir,
            is_expanded: self.is_expanded,
            is_selected: self.is_selected,
            kind: self.kind,
        }
    }
}

pub open spec fn row_views(v: Seq<VisibleRow>) -> Seq<RowModel> {
    v.map_values(|r: VisibleRow| r@)
}

/// The entries of one folder as read from disk, in any order.
pub struct DirListing {
    pub dir: String,
    pub entries: Vec<DirEntryInfo>,
}

pub open spec fn listing_views(ls: Seq<DirListing>) -> Seq<(Seq<char>, Seq<EntryModel>)> {
    ls.map_values(|l: DirListing| (l.dir@, entry_views(l.entries@)))
}

/// The entries read for a folder; none for a folder that was not read.
pub open spec fn listing_of(ls: Seq<(Seq<char>, Seq<EntryModel>)>, dir: Seq<char>) -> Seq<EntryModel>
    decreases ls.len(),
{
    if ls.len() == 0 {
        Seq::empty()
    } else if same_path(ls[0].0, dir) {
        ls[0].1
    } else {
        listing_of(ls.drop_first(), dir)
    }
}

pub open spec fn selected_is(selected: Option<Seq<char>>, p: Seq<char>) -> bool {
    match selected {
        Some(s) => same_path(s, p),
        None => false,
    }
}

/// The rows of the entries of a folder at `depth`, each followed by the rows of its
/// own entries when it is an open folder, at most `fuel` levels further down.
pub open spec fn rows_of_entries(
    ls: Seq<(Seq<char>, Seq<EntryModel>)>,
    expanded: Seq<Seq<char>>,
    selected: Option<Seq<char>>,
    es: Seq<EntryModel>,
    depth: int,
    fuel: nat,
) -> Seq<RowModel>
    decreases fuel, 0int, es.len(),
{
    if es.len() == 0 {
        Seq::empty()
    } else {
        let e = es[0];
        let open = e.is_dir && holds(expanded, e.path);
        let head = seq![
            RowModel {
                path: e.path,
                name: e.name,
                depth,
                is_dir: e.is_dir,
                is_expanded: open,
                is_selected: selected_is(selected, e.path),
                kind: e.kind,
            },
        ];
        let below = if open && fuel > 0 {
            rows_of_dir(ls, expanded, selected, e.path, depth + 1, (fuel - 1) as nat)
        } else {
            Seq::empty()
        };
        head + below + rows_of_entries(ls, expanded, selected, es.drop_first(), depth, fuel)
    }
}

/// The rows of a folder's entries, in the tree's order.
pub open spec fn rows_of_dir(
    ls: Seq<(Seq<char>, Seq<EntryModel>)>,
    expanded: Seq<Seq<char>>,
    selected: Option<Seq<char>>,
    dir: Seq<char>,
    depth: int,
    fuel: nat,
) -> Seq<RowModel>
    decreases fuel, 1int, 0int,
{
    rows_of_entries(ls, expanded, selected, sorted_listing(listing_of(ls, dir)), depth, fuel)
}

fn listing_entries(listings: &Vec<DirListing>, dir: &str) -> (r: Vec<DirEntryInfo>)
    ensures
        entry_views(r@) == sorted_listing(listing_of(listing_views(listings@), dir@)),
{
    let ghost ls = listing_views(listings@);
    assert(ls.skip(0) =~= ls);
    let n = listings.len();
    for i in 0..n
        invariant
            n == listings.len(),
            ls == listing_views(listings@),
            listing_of(ls, dir@) == listing_of(ls.skip(i as int), dir@),
    {
        assert(ls.skip(i as int)[0] == ls[i as int]);
        assert(ls.skip(i as int).drop_first() =~= ls.skip(i + 1));
        if same_path_exec(listings[i].dir.as_str(), dir) {
            let mut out: Vec<DirEntryInfo> = Vec::new();
            let src = &listings[i].entries;
            let m = src.len();
            for j in 0..m
                invariant
                    m == src.len(),
                    out.len() == j,
                    forall|k: int| 0 <= k < j ==> out@[k]@ == src@[k]@,
            {
                out.push(src[j].copy());
            }
            assert(entry_views(out@) =~= entry_views(src@));
            sort_entries(&mut out);
            return out;
        }
    }
    assert(ls.skip(n as int).len() == 0);
    let mut e: Vec<DirEntryInfo> = Vec::new();
    assert(entry_views(e@) =~= Seq::<EntryModel>::empty());
    sort_entries(&mut e);
    e
}

fn push_children(
    state: &TreeState,
    listings: &Vec<DirListing>,
    dir: &str,
    depth: i32,
    fuel: usize,
    rows: &mut Vec<VisibleRow>,
)
    requires
        depth >= 0,
        depth + fuel < i32::MAX,
    ensures
        row_views(final(rows)@) == row_views(old(rows)@) + rows_of_dir(
            listing_views(listings@),
            state.expanded_paths(),
            opt_text(state.selected),
            dir@,
            depth as int,
            fuel as nat,
        ),
    decreases fuel,
{
    let ghost ls = listing_views(listings@);
    let ghost ex = state.expanded_paths();
    let ghost sel = opt_text(state.selected);
    let entries = listing_entries(listings, dir);
    let ghost es = entry_views(entries@);
    let ghost start = row_views(rows@);
    assert(es.skip(0) =~= es);
    assert(start + Seq::<RowModel>::empty() =~= start);
    let n = entries.len();
    let ghost mut acc: Seq<RowModel> = Seq::empty();
    assert(acc + rows_of_entries(ls, ex, sel, es.skip(0), depth as int, fuel as nat) =~= rows_of_entries(
        ls,
        ex,
        sel,
        es,
        depth as int,
        fuel as nat,
    ));
    let mut i: usize = 0;
    while i < n
        invariant
            i <= n,
            n == entries.len(),
            es == entry_views(entries@),
            ls == listing_views(listings@),
            ex == state.expanded_paths(),
            sel == opt_text(state.selected),
            depth >= 0,
            depth + fuel < i32::MAX,
            row_views(rows@) == start + acc,
            acc + rows_of_entries(ls, ex, sel, es.skip(i as int), depth as int, fuel as nat)
                == rows_of_entries(ls, ex, sel, es, depth as int, fuel as nat),
        decreases n - i,
    {
        assert(es.skip(i as int)[0] == es[i as int]);
        assert(es.skip(i as int).drop_first() =~= es.skip(i + 1));
        let e = &entries[i];
        assert(e@ == es[i as int]);
        let open = e.is_dir && state.is_expanded(e.path.as_str());
        let selected = match &state.selected {
            Some(p) => same_path_exec(p.as_str(), e.path.as_str()),
            None => false,
        };
        let ghost before = row_views(rows@);
        let row = VisibleRow {
            path: e.path.clone(),
            name: e.name.clone(),
            depth,
            is_dir: e.is_dir,
            is_expanded: open,
            is_selected: selected,
            kind: e.kind,
        };
        let ghost head = row@;
        rows.push(row);
        assert(row_views(rows@) =~= before.push(head));
        let ghost after_head = row_views(rows@);
        if open && fuel > 0 {
            push_children(state, listings, e.path.as_str(), depth + 1, fuel - 1, rows);
        }
        let ghost below = if open && fuel > 0 {
            rows_of_dir(ls, ex, sel, es[i as int].path, depth + 1, (fuel - 1) as nat)
        } else {
            Seq::<RowModel>::empty()
        };
        assert(row_views(rows@) =~= after_head + below);
        assert(rows_of_entries(ls, ex, sel, es.skip(i as int), depth as int, fuel as nat) =~= seq![head]
            + below + rows_of_entries(ls, ex, sel, es.skip(i + 1), depth as int, fuel as nat));
        proof {
            let acc2 = acc + seq![head] + below;
            assert(row_views(rows@) =~= start + acc2);
            assert(acc2 + rows_of_entries(ls, ex, sel, es.skip(i + 1), depth as int, fuel as nat)
                =~= rows_of_entries(ls, ex, sel, es, depth as int, fuel as nat));
            acc = acc2;
        }
        i = i + 1;
    }
    assert(es.skip(n as int).len() == 0);
    assert(acc + rows_of_entries(ls, ex, sel, es.skip(n as int), depth as int, fuel as nat) =~= acc);
}

/// The rows the tree shows: the root's entries in order, folders first, each open
/// folder followed by its own entries one level deeper. `listings` are the entries read
/// from disk for the root and the open folders; a folder without one shows nothing. No
/// folder is shown deeper than there are open folders.
pub fn build_visible_rows(state: &TreeState, listings: &Vec<DirListing>) -> (r: Vec<VisibleRow>)
    requires
        state.expanded@.len() < i32::MAX,
    ensures
        row_views(r@) == rows_of_dir(
            listing_views(listings@),
            state.expanded_paths(),
            opt_text(state.selected),
            state.root@,
            0,
            state.expanded@.len() as nat,
        ),
{
    let mut rows: Vec<VisibleRow> = Vec::new();
    assert(row_views(rows@) =~= Seq::<RowModel>::empty());
    push_children(state, listings, state.root.as_str(), 0, state.expanded.len(), &mut rows);
    assert(row_views(rows@) =~= Seq::<RowModel>::empty() + rows_of_dir(
        listing_views(listings@),
        state.expanded_paths(),
        opt_text(state.selected),
        state.root@,
        0,
        state.expanded@.len() as nat,
    ));
    rows
}


proof fn lemma_insert_place_bound(s: Seq<EntryModel>, x: EntryModel)
    ensures
        0 <= insert_place(s, x) <= s.len(),
    decreases s.len(),
{
    if s.len() > 0 && !listed_before(x, s[0]) {
        lemma_insert_place_bound(s.drop_first(), x);
    }
}

/// Sorting a folder's entries keeps every entry, each as often as it came.
pub proof fn law_sorting_keeps_every_entry(s: Seq<EntryModel>)
    ensures
        sorted_listing(s).to_multiset() == s.to_multiset(),
    decreases s.len(),
{
    broadcast use vstd::seq_lib::to_multiset_insert, vstd::seq_lib::to_multiset_build;

    if s.len() > 0 {
        law_sorting_keeps_every_entry(s.drop_last());
        let t = sorted_listing(s.drop_last());
        lemma_insert_place_bound(t, s.last());
        assert(s.drop_last().push(s.last()) =~= s);
    }
}

/// No entry of the listing comes before an entry ahead of it.
pub open spec fn in_listing_order(s: Seq<EntryModel>) -> bool {
    forall|i: int, j: int| 0 <= i < j < s.len() ==> !listed_before(#[trigger] s[j], #[trigger] s[i])
}

proof fn lemma_text_lt_transitive(a: Seq<char>, b: Seq<char>, c: Seq<char>)
    requires
        text_lt(a, b),
        text_lt(b, c),
    ensures
        text_lt(a, c),
    decreases a.len(),
{
    if a.len() > 0 && b.len() > 0 && c.len() > 0 && a[0] == b[0] && b[0] == c[0] {
        lemma_text_lt_transitive(a.drop_first(), b.drop_first(), c.drop_first());
    }
}

proof fn lemma_listed_before_transitive(a: EntryModel, b: EntryModel, c: EntryModel)
    requires
        listed_before(a, b),
        listed_before(b, c),
    ensures
        listed_before(a, c),
{
    if a.is_dir == b.is_dir && b.is_dir == c.is_dir {
        lemma_text_lt_transitive(ascii_lower(a.name), ascii_lower(b.name), ascii_lower(c.name));
    }
}

proof fn lemma_insert_place(s: Seq<EntryModel>, x: EntryModel)
    requires
        in_listing_order(s),
    ensures
        0 <= insert_place(s, x) <= s.len(),
        forall|k: int| 0 <= k < insert_place(s, x) ==> !listed_before(x, #[trigger] s[k]),
        forall|k: int| insert_place(s, x) <= k < s.len() ==> !listed_before(#[trigger] s[k], x),
    decreases s.len(),
{
    if s.len() > 0 {
        if !listed_before(x, s[0]) {
            let d = s.drop_first();
            assert forall|i: int, j: int| 0 <= i < j < d.len() implies !listed_before(
                #[trigger] d[j],
                #[trigger] d[i],
            ) by {
                assert(d[i] == s[i + 1] && d[j] == s[j + 1]);
            }
            lemma_insert_place(d, x);
            assert forall|k: int| 0 <= k < insert_place(s, x) implies !listed_before(
                x,
                #[trigger] s[k],
            ) by {
                if k > 0 {
                    assert(s[k] == d[k - 1]);
                }
            }
            assert forall|k: int| insert_place(s, x) <= k < s.len() implies !listed_before(
                #[trigger] s[k],
                x,
            ) by {
                assert(s[k] == d[k - 1]);
            }
        } else {
            assert forall|k: int| 0 <= k < s.len() implies !listed_before(#[trigger] s[k], x) by {
                if listed_before(s[k], x) {
                    lemma_listed_before_transitive(s[k], x, s[0]);
                    if k == 0 {
                        lemma_listed_before_irreflexive(s[0]);
                    }
                }
            }
        }
    }
}

proof fn lemma_text_lt_irreflexive(a: Seq<char>)
    ensures
        !text_lt(a, a),
    decreases a.len(),
{
    if a.len() > 0 {
        lemma_text_lt_irreflexive(a.drop_first());
    }
}

proof fn lemma_listed_before_irreflexive(a: EntryModel)
    ensures
        !listed_before(a, a),
{
    lemma_text_lt_irreflexive(ascii_lower(a.name));
}

/// Sorting gives the listing in order, as long as it came.
proof fn lemma_sorted_listing(s: Seq<EntryModel>)
    ensures
        in_listing_order(sorted_listing(s)),
        sorted_listing(s).len() == s.len(),
    decreases s.len(),
{
    if s.len() > 0 {
        let t = sorted_listing(s.drop_last());
        lemma_sorted_listing(s.drop_last());
        lemma_insert_place(t, s.last());
        let p = insert_place(t, s.last());
        let r = t.insert(p, s.last());
        assert forall|i: int, j: int| 0 <= i < j < r.len() implies !listed_before(
            #[trigger] r[j],
            #[trigger] r[i],
        ) by {
            if j < p {
                assert(r[i] == t[i] && r[j] == t[j]);
            } else if j == p {
                assert(r[i] == t[i]);
            } else if i < p {
                assert(r[i] == t[i] && r[j] == t[j - 1]);
            } else if i == p {
                assert(r[j] == t[j - 1]);
            } else {
                assert(r[i] == t[i - 1] && r[j] == t[j - 1]);
            }
        }
    }
}

/// Whether a path lies in the workspace's own `.adbstudio` folder: one of its components
/// is `.adbstudio`.
pub fn is_internal_path(path: &str) -> (r: bool)
    ensures
        r == crate::paths::components(path@).contains(".adbstudio"@),
{
    let cs = crate::paths::path_components(path);
    let ghost m = cs@.map_values(|c: String| c@);
    let n = cs.len();
    for i in 0..n
        invariant
            n == cs.len(),
            m == cs@.map_values(|c: String| c@),
            m == crate::paths::components(path@),
            forall|k: int| 0 <= k < i ==> m[k] != ".adbstudio"@,
    {
        if crate::json::text_eq(cs[i].as_str(), ".adbstudio") {
            assert(m[i as int] == ".adbstudio"@);
            return true;
        }
    }
    false
}

/// Where pasted files go: the selected folder, or the folder of the selected file, else
/// the workspace folder (when one is open).
pub open spec fn selected_target_spec(
    selected: Option<Seq<char>>,
    selected_is_dir: bool,
    folder: Option<Seq<char>>,
) -> Option<Seq<char>> {
    match selected {
        Some(p) => if selected_is_dir {
            Some(p)
        } else {
            match crate::paths::parent_spec(p) {
                Some(q) => Some(q),
                None => folder,
            }
        },
        None => folder,
    }
}

pub open spec fn opt_str(o: Option<&str>) -> Option<Seq<char>> {
    match o {
        Some(s) => Some(s@),
        None => None,
    }
}

/// Where pasted files go (see `selected_target_spec`).
pub fn selected_target(selected: Option<&str>, selected_is_dir: bool, folder: Option<&str>) -> (r:
    Option<String>)
    ensures
        opt_text(r) == selected_target_spec(opt_str(selected), selected_is_dir, opt_str(folder)),
{
    let from_folder = match folder {
        Some(f) => Some(String::from_str(f)),
        None => None,
    };
    match selected {
        Some(p) => if selected_is_dir {
            Some(String::from_str(p))
        } else {
            match crate::paths::parent_path(p) {
                Some(q) => Some(q),
                None => from_folder,
            }
        },
        None => from_folder,
    }
}
} // verus!
