//! Paths as text, read the way `std::path` reads a Unix path: a leading `/` makes it
//! absolute, and its components are the parts between slashes, without empty parts and
//! without `.` (kept only at the head of a relative path).
use vstd::prelude::*;
use crate::json::text_eq;
use crate::text::{chars_of, string_of};

verus! {

/// The parts of a text between `/` characters, empty ones included.
pub open spec fn segments(s: Seq<char>) -> Seq<Seq<char>>
    decreases s.len(),
{
    if s.len() == 0 {
        seq![Seq::empty()]
    } else {
        let p = segments(s.drop_last());
        if s.last() == '/' {
            p.push(Seq::empty())
        } else {
            p.update(p.len() - 1, p.last().push(s.last()))
        }
    }
}

proof fn lemma_segments_nonempty(s: Seq<char>)
    ensures
        segments(s).len() >= 1,
    decreases s.len(),
{
    if s.len() > 0 {
        lemma_segments_nonempty(s.drop_last());
    }
}

/// Whether segment `i` is a component: not empty, and not `.` unless it heads the path.
pub open spec fn keeps(seg: Seq<char>, i: int) -> bool {
    seg.len() > 0 && (seg != "."@ || i == 0)
}

pub open spec fn kept(segs: Seq<Seq<char>>) -> Seq<Seq<char>>
    decreases segs.len(),
{
    if segs.len() == 0 {
        Seq::empty()
    } else {
        let rest = kept(segs.drop_last());
        if keeps(segs.last(), segs.len() - 1) {
            rest.push(segs.last())
        } else {
            rest
        }
    }
}

pub open spec fn is_absolute(s: Seq<char>) -> bool {
    s.len() > 0 && s[0] == '/'
}

/// The components of a path.
pub open spec fn components(s: Seq<char>) -> Seq<Seq<char>> {
    kept(segments(s))
}

/// Components joined by `/`.
pub open spec fn joined(cs: Seq<Seq<char>>) -> Seq<char>
    decreases cs.len(),
{
    if cs.len() == 0 {
        Seq::empty()
    } else if cs.len() == 1 {
        cs[0]
    } else {
        joined(cs.drop_last()) + "/"@ + cs.last()
    }
}

/// The text of a path with the given components.
pub open spec fn render(absolute: bool, cs: Seq<Seq<char>>) -> Seq<char> {
    if absolute {
        "/"@ + joined(cs)
    } else {
        joined(cs)
    }
}

/// `PathBuf::push`: an absolute `rel` replaces `base`; otherwise `rel` follows `base`
/// after a `/`, unless `base` is empty or already ends with one.
pub open spec fn push_path(base: Seq<char>, rel: Seq<char>) -> Seq<char> {
    if is_absolute(rel) || base.len() == 0 {
        rel
    } else if base.last() == '/' {
        base + rel
    } else {
        base + "/"@ + rel
    }
}

/// A component that names something: not `.` or `..`.
pub open spec fn is_normal(c: Seq<char>) -> bool {
    c != "."@ && c != ".."@
}

/// `Path::file_name`: the last component, when it is a normal one.
pub open spec fn file_name_of(s: Seq<char>) -> Option<Seq<char>> {
    let cs = components(s);
    if cs.len() > 0 && is_normal(cs.last()) {
        Some(cs.last())
    } else {
        None
    }
}

/// `Path::strip_prefix`: the components of `path` after those of `base`, when `base`
/// leads `path`.
pub open spec fn strip_prefix_spec(path: Seq<char>, base: Seq<char>) -> Option<Seq<Seq<char>>> {
    let pc = components(path);
    let bc = components(base);
    if is_absolute(path) == is_absolute(base) && bc.len() <= pc.len() && pc.take(bc.len() as int)
        == bc {
        Some(pc.skip(bc.len() as int))
    } else {
        None
    }
}

/// Path equality, component by component.
pub open spec fn same_path(a: Seq<char>, b: Seq<char>) -> bool {
    is_absolute(a) == is_absolute(b) && components(a) == components(b)
}

/// Components with the file name set: the last one replaced when it is a normal one,
/// else the name added (`PathBuf::set_file_name`).
pub open spec fn with_name(cs: Seq<Seq<char>>, name: Seq<char>) -> Seq<Seq<char>> {
    if cs.len() > 0 && is_normal(cs.last()) {
        cs.update(cs.len() - 1, name)
    } else {
        cs.push(name)
    }
}

/// The position of the last `.` of a name, when there is one after its first character.
pub open spec fn last_dot(name: Seq<char>) -> Option<int>
    decreases name.len(),
{
    if name.len() <= 1 {
        None
    } else if name.last() == '.' {
        Some(name.len() - 1)
    } else {
        last_dot(name.drop_last())
    }
}

pub proof fn lemma_last_dot_bound(name: Seq<char>)
    ensures
        match last_dot(name) {
            Some(k) => 0 < k < name.len() && name[k] == '.',
            None => true,
        },
    decreases name.len(),
{
    if name.len() > 1 && name.last() != '.' {
        lemma_last_dot_bound(name.drop_last());
    }
}

/// `Path::file_stem` of a normal name.
pub open spec fn stem_of(name: Seq<char>) -> Seq<char> {
    match last_dot(name) {
        Some(k) => name.take(k),
        None => name,
    }
}

/// `Path::extension` of a normal name.
pub open spec fn extension_of(name: Seq<char>) -> Option<Seq<char>> {
    match last_dot(name) {
        Some(k) => Some(name.skip(k + 1)),
        None => None,
    }
}

/// Splits a path into its components.
pub fn path_components(s: &str) -> (r: Vec<String>)
    ensures
        r@.map_values(|c: String| c@) == components(s@),
{
    let v = chars_of(s);
    let n = v.len();
    let mut out: Vec<String> = Vec::new();
    let mut current: Vec<char> = Vec::new();
    let mut index: usize = 0;
    proof {
        lemma_segments_nonempty(v@.take(0));
    }
    assert(v@.take(0) =~= Seq::<char>::empty());
    assert(out@.map_values(|c: String| c@) =~= kept(segments(v@.take(0)).drop_last()));
    for i in 0..n
        invariant
            n == v.len(),
            v@ == s@,
            segments(v@.take(i as int)).len() == index + 1,
            current@ == segments(v@.take(i as int)).last(),
            out@.map_values(|c: String| c@) == kept(segments(v@.take(i as int)).drop_last()),
            index <= i,
    {
        let ghost segs = segments(v@.take(i as int));
        assert(v@.take(i + 1).drop_last() =~= v@.take(i as int));
        if v[i] == '/' {
            let c = string_of(current.as_slice());
            let ghost before = out@.map_values(|c: String| c@);
            if keeps_exec(&current, index) {
                out.push(c);
                assert(out@.map_values(|c: String| c@) =~= before.push(current@));
            }
            assert(segments(v@.take(i + 1)).drop_last() =~= segs);
            assert(segs =~= segs.drop_last().push(segs.last()));
            current = Vec::new();
            assert(current@ =~= Seq::<char>::empty());
            index = index + 1;
        } else {
            current.push(v[i]);
            assert(segments(v@.take(i + 1)).drop_last() =~= segs.drop_last());
        }
    }
    assert(v@.take(n as int) =~= v@);
    let ghost segs = segments(v@);
    let ghost before = out@.map_values(|c: String| c@);
    if keeps_exec(&current, index) {
        out.push(string_of(current.as_slice()));
        assert(out@.map_values(|c: String| c@) =~= before.push(current@));
    }
    assert(segs =~= segs.drop_last().push(segs.last()));
    out
}

fn keeps_exec(seg: &Vec<char>, i: usize) -> (r: bool)
    ensures
        r == keeps(seg@, i as int),
{
    if seg.len() == 0 {
        return false;
    }
    if seg.len() == 1 && seg[0] == '.' {
        proof {
            reveal_strlit(".");
        }
        assert(seg@ =~= "."@);
        return i == 0;
    }
    proof {
        reveal_strlit(".");
    }
    assert(seg@ != "."@);
    true
}

/// Joins components with `/`.
pub fn join_components(cs: &Vec<String>) -> (r: String)
    ensures
        r@ == joined(cs@.map_values(|c: String| c@)),
{
    let ghost m = cs@.map_values(|c: String| c@);
    let mut out = String::new();
    let n = cs.len();
    assert(m.take(0) =~= Seq::<Seq<char>>::empty());
    for i in 0..n
        invariant
            n == cs.len(),
            m == cs@.map_values(|c: String| c@),
            out@ == joined(m.take(i as int)),
    {
        assert(m.take(i + 1).drop_last() =~= m.take(i as int));
        assert(m.take(i + 1).last() == cs@[i as int]@);
        if i > 0 {
            out.append("/");
        } else {
            assert(joined(m.take(0)) =~= Seq::<char>::empty());
            assert(out@ =~= Seq::<char>::empty());
        }
        out.append(cs[i].as_str());
        if i == 0 {
            assert(out@ =~= m.take(1)[0]);
        }
    }
    assert(m.take(n as int) =~= m);
    out
}

/// The text of a path with the given components.
pub fn render_path(absolute: bool, cs: &Vec<String>) -> (r: String)
    ensures
        r@ == render(absolute, cs@.map_values(|c: String| c@)),
{
    let j = join_components(cs);
    if absolute {
        let mut out = String::from_str("/");
        out.append(j.as_str());
        out
    } else {
        j
    }
}

pub fn absolute_path(s: &str) -> (r: bool)
    ensures
        r == is_absolute(s@),
{
    let v = chars_of(s);
    v.len() > 0 && v[0] == '/'
}

/// `PathBuf::push` on texts (see `push_path`).
pub fn join_path(base: &str, rel: &str) -> (r: String)
    ensures
        r@ == push_path(base@, rel@),
{
    let b = chars_of(base);
    if absolute_path(rel) || b.len() == 0 {
        return String::from_str(rel);
    }
    let mut out = String::from_str(base);
    if b[b.len() - 1] != '/' {
        out.append("/");
    }
    out.append(rel);
    out
}

pub fn is_normal_exec(c: &str) -> (r: bool)
    ensures
        r == is_normal(c@),
{
    !text_eq(c, ".") && !text_eq(c, "..")
}

/// `Path::file_name` (see `file_name_of`).
pub fn file_name(s: &str) -> (r: Option<String>)
    ensures
        match r {
            Some(t) => file_name_of(s@) == Some(t@),
            None => file_name_of(s@).is_none(),
        },
{
    let cs = path_components(s);
    let n = cs.len();
    if n > 0 && is_normal_exec(cs[n - 1].as_str()) {
        Some(cs[n - 1].clone())
    } else {
        None
    }
}

fn components_prefix(pc: &Vec<String>, bc: &Vec<String>) -> (r: bool)
    ensures
        r == (bc@.len() <= pc@.len() && pc@.map_values(|c: String| c@).take(bc@.len() as int)
            == bc@.map_values(|c: String| c@)),
{
    let ghost pm = pc@.map_values(|c: String| c@);
    let ghost bm = bc@.map_values(|c: String| c@);
    if bc.len() > pc.len() {
        return false;
    }
    let n = bc.len();
    for i in 0..n
        invariant
            n == bc.len(),
            n <= pc.len(),
            pm == pc@.map_values(|c: String| c@),
            bm == bc@.map_values(|c: String| c@),
            forall|k: int| 0 <= k < i ==> pm[k] == bm[k],
    {
        if !text_eq(pc[i].as_str(), bc[i].as_str()) {
            assert(pm.take(n as int)[i as int] != bm[i as int]);
            return false;
        }
    }
    assert(pm.take(n as int) =~= bm);
    true
}

/// `Path::strip_prefix`: the components of `path` after those of `base`.
pub fn strip_prefix(path: &str, base: &str) -> (r: Option<Vec<String>>)
    ensures
        match r {
            Some(v) => strip_prefix_spec(path@, base@) == Some(v@.map_values(|c: String| c@)),
            None => strip_prefix_spec(path@, base@).is_none(),
        },
{
    let pc = path_components(path);
    let bc = path_components(base);
    if absolute_path(path) != absolute_path(base) || !components_prefix(&pc, &bc) {
        return None;
    }
    let mut out: Vec<String> = Vec::new();
    let ghost pm = pc@.map_values(|c: String| c@);
    let start = bc.len();
    let mut i = start;
    while i < pc.len()
        invariant
            start <= i <= pc.len(),
            pm == pc@.map_values(|c: String| c@),
            out@.map_values(|c: String| c@) == pm.subrange(start as int, i as int),
        decreases pc.len() - i,
    {
        let ghost before = out@;
        let c = pc[i].clone();
        assert(c@ == pm[i as int]);
        out.push(c);
        assert(out@ == before.push(c));
        assert(out@.map_values(|c: String| c@) =~= before.map_values(|c: String| c@).push(c@));
        assert(pm.subrange(start as int, i + 1) =~= pm.subrange(start as int, i as int).push(pm[i as int]));
        assert(out@.map_values(|c: String| c@) =~= pm.subrange(start as int, i + 1));
        i = i + 1;
    }
    assert(pm.subrange(start as int, pc.len() as int) =~= pm.skip(start as int));
    Some(out)
}

/// Path equality, component by component.
pub fn same_path_exec(a: &str, b: &str) -> (r: bool)
    ensures
        r == same_path(a@, b@),
{
    let ac = path_components(a);
    let bc = path_components(b);
    let ghost am = ac@.map_values(|c: String| c@);
    let ghost bm = bc@.map_values(|c: String| c@);
    if absolute_path(a) != absolute_path(b) {
        return false;
    }
    if ac.len() != bc.len() {
        assert(am.len() != bm.len());
        return false;
    }
    let r = components_prefix(&ac, &bc);
    assert(am.take(am.len() as int) =~= am);
    assert(r == (am == bm));
    r
}

/// Sets the last component to `name` (see `with_name`).
pub fn set_name(cs: &mut Vec<String>, name: &str)
    ensures
        final(cs)@.map_values(|c: String| c@) == with_name(old(cs)@.map_values(|c: String| c@), name@),
{
    let ghost before = cs@.map_values(|c: String| c@);
    let n = cs.len();
    if n > 0 && is_normal_exec(cs[n - 1].as_str()) {
        cs.set(n - 1, String::from_str(name));
        assert(cs@.map_values(|c: String| c@) =~= with_name(before, name@));
    } else {
        cs.push(String::from_str(name));
        assert(cs@.map_values(|c: String| c@) =~= with_name(before, name@));
    }
}

/// The position of the last `.` after the first character of a name.
pub fn last_dot_exec(name: &str) -> (r: Option<usize>)
    ensures
        match r {
            Some(k) => last_dot(name@) == Some(k as int),
            None => last_dot(name@).is_none(),
        },
{
    let v = chars_of(name);
    let mut i = v.len();
    assert(v@.take(i as int) =~= v@);
    while i > 1
        invariant
            i <= v.len(),
            v@ == name@,
            last_dot(v@) == last_dot(v@.take(i as int)),
        decreases i,
    {
        assert(v@.take(i as int).drop_last() =~= v@.take(i - 1));
        if v[i - 1] == '.' {
            return Some(i - 1);
        }
        i = i - 1;
    }
    None
}


proof fn lemma_segments_concat(a: Seq<char>, b: Seq<char>)
    ensures
        segments(a + seq!['/'] + b) == segments(a) + segments(b),
    decreases b.len(),
{
    lemma_segments_nonempty(b);
    if b.len() == 0 {
        assert(a + seq!['/'] + b =~= a.push('/'));
        assert(a.push('/').drop_last() =~= a);
        assert(segments(a) + segments(b) =~= segments(a).push(Seq::empty()));
    } else {
        let w = a + seq!['/'] + b;
        assert(w.drop_last() =~= a + seq!['/'] + b.drop_last());
        assert(w.last() == b.last());
        lemma_segments_concat(a, b.drop_last());
        lemma_segments_nonempty(b.drop_last());
        lemma_segments_nonempty(a);
        let sa = segments(a);
        let sb = segments(b.drop_last());
        if b.last() == '/' {
            assert(segments(w) =~= (sa + sb).push(Seq::empty()));
            assert((sa + sb).push(Seq::empty()) =~= sa + sb.push(Seq::empty()));
        } else {
            let joined_segs = sa + sb;
            assert(joined_segs.last() == sb.last());
            assert(joined_segs.update(joined_segs.len() - 1, joined_segs.last().push(b.last())) =~= sa
                + sb.update(sb.len() - 1, sb.last().push(b.last())));
        }
    }
}

/// The segments kept, segment `j` counted as at place `off + j` of the whole path.
pub open spec fn kept_at(segs: Seq<Seq<char>>, off: int) -> Seq<Seq<char>>
    decreases segs.len(),
{
    if segs.len() == 0 {
        Seq::empty()
    } else {
        let rest = kept_at(segs.drop_last(), off);
        if keeps(segs.last(), off + segs.len() - 1) {
            rest.push(segs.last())
        } else {
            rest
        }
    }
}

proof fn lemma_kept_concat(x: Seq<Seq<char>>, y: Seq<Seq<char>>)
    ensures
        kept(x + y) == kept(x) + kept_at(y, x.len() as int),
    decreases y.len(),
{
    if y.len() == 0 {
        assert(x + y =~= x);
    } else {
        assert((x + y).drop_last() =~= x + y.drop_last());
        assert((x + y).last() == y.last());
        lemma_kept_concat(x, y.drop_last());
        let a = kept(x);
        let b = kept_at(y.drop_last(), x.len() as int);
        assert((a + b).push(y.last()) =~= a + b.push(y.last()));
    }
}

proof fn lemma_kept_at_shift(y: Seq<Seq<char>>, off: int)
    requires
        off > 0,
        y.len() == 0 || y[0] != "."@,
    ensures
        kept_at(y, off) == kept(y),
    decreases y.len(),
{
    if y.len() > 0 {
        if y.len() > 1 {
            assert(y.drop_last()[0] == y[0]);
        }
        lemma_kept_at_shift(y.drop_last(), off);
    }
}

/// Joining a relative path whose first part is not `.` onto a folder, and taking the
/// folder off again, gives the relative path's components back.
pub proof fn law_strip_what_was_pushed(base: Seq<char>, rel: Seq<char>)
    requires
        base.len() > 0,
        !is_absolute(rel),
        segments(rel)[0] != "."@,
    ensures
        strip_prefix_spec(push_path(base, rel), base) == Some(components(rel)),
{
    lemma_segments_nonempty(rel);
    reveal_strlit("/");
    let full = push_path(base, rel);
    let b = if base.last() == '/' {
        base.drop_last()
    } else {
        base
    };
    if base.last() == '/' {
        assert(base =~= b.push('/'));
    }
    assert(full =~= b + seq!['/'] + rel);
    lemma_segments_concat(b, rel);
    lemma_kept_concat(segments(b), segments(rel));
    lemma_segments_nonempty(b);
    lemma_kept_at_shift(segments(rel), segments(b).len() as int);
    let bc = components(base);
    if base.last() == '/' {
        assert(base =~= b + seq!['/'] + Seq::<char>::empty());
        lemma_segments_concat(b, Seq::<char>::empty());
        lemma_kept_concat(segments(b), segments(Seq::<char>::empty()));
        assert(kept_at(segments(Seq::<char>::empty()), segments(b).len() as int) =~= Seq::<
            Seq<char>,
        >::empty()) by {
            let e = segments(Seq::<char>::empty());
            assert(e =~= seq![Seq::<char>::empty()]);
            assert(e.drop_last() =~= Seq::<Seq<char>>::empty());
            assert(kept_at(e.drop_last(), segments(b).len() as int) =~= Seq::<Seq<char>>::empty());
            assert(!keeps(e.last(), segments(b).len() as int));
        }
        assert(bc =~= kept(segments(b)));
    }
    assert(bc =~= kept(segments(b)));
    let pc = components(full);
    assert(pc =~= bc + components(rel));
    assert(pc.take(bc.len() as int) =~= bc);
    assert(pc.skip(bc.len() as int) =~= components(rel));
    assert(is_absolute(full) == is_absolute(base)) by {
        assert(full[0] == base[0]) by {
            if b.len() == 0 {
                assert(base =~= seq!['/']);
            }
        }
    }
}

/// `Path::parent`: the path without its last component; `None` for a path that is only a
/// root, or empty.
pub open spec fn parent_spec(path: Seq<char>) -> Option<Seq<char>> {
    let cs = components(path);
    if cs.len() > 0 {
        Some(render(is_absolute(path), cs.drop_last()))
    } else {
        None
    }
}

/// `Path::parent` (see `parent_spec`).
pub fn parent_path(path: &str) -> (r: Option<String>)
    ensures
        match r {
            Some(p) => parent_spec(path@) == Some(p@),
            None => parent_spec(path@).is_none(),
        },
{
    let mut cs = path_components(path);
    if cs.len() == 0 {
        return None;
    }
    let ghost before = cs@.map_values(|c: String| c@);
    cs.pop();
    assert(cs@.map_values(|c: String| c@) =~= before.drop_last());
    Some(render_path(absolute_path(path), &cs))
}
} // verus!
