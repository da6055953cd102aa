//! Unix paths as raw bytes, compared component by component the way the
//! standard library's `Path` compares them: repeated separators and `.`
//! components (other than a leading one) are ignored, a leading `/` is the
//! root component.
use vstd::prelude::*;

use crate::model::bytes_equal;

verus! {

pub open spec fn slash() -> u8 {
    0x2fu8
}

pub open spec fn dot() -> u8 {
    0x2eu8
}

/// The splitter's state: the parts found so far and the part being read.
pub struct SplitState {
    pub parts: Seq<Seq<u8>>,
    pub current: Seq<u8>,
}

/// A finished part is kept unless it is empty or `.`.
pub open spec fn keep_part(parts: Seq<Seq<u8>>, part: Seq<u8>) -> Seq<Seq<u8>> {
    if part.len() == 0 || part == seq![dot()] {
        parts
    } else {
        parts.push(part)
    }
}

pub open spec fn split_step(st: SplitState, b: u8) -> SplitState {
    if b == slash() {
        SplitState { parts: keep_part(st.parts, st.current), current: Seq::empty() }
    } else {
        SplitState { parts: st.parts, current: st.current.push(b) }
    }
}

pub open spec fn split_scan(p: Seq<u8>) -> SplitState
    decreases p.len(),
{
    if p.len() == 0 {
        SplitState { parts: Seq::empty(), current: Seq::empty() }
    } else {
        split_step(split_scan(p.drop_last()), p.last())
    }
}

/// The non-empty parts of `p` between separators, without `.` parts.
pub open spec fn normal_parts(p: Seq<u8>) -> Seq<Seq<u8>> {
    let st = split_scan(p);
    keep_part(st.parts, st.current)
}

/// `p` begins with a `.` component: it is `.` or starts with `./`.
pub open spec fn starts_with_cur_dir(p: Seq<u8>) -> bool {
    p.len() >= 1 && p[0] == dot() && (p.len() == 1 || p[1] == slash())
}

/// The components of a path. The root directory is written `/` and a
/// leading current-directory component `.`; no other component can take
/// either form.
pub open spec fn components(p: Seq<u8>) -> Seq<Seq<u8>> {
    if p.len() > 0 && p[0] == slash() {
        seq![seq![slash()]] + normal_parts(p)
    } else if starts_with_cur_dir(p) {
        seq![seq![dot()]] + normal_parts(p.skip(1))
    } else {
        normal_parts(p)
    }
}

/// `base`'s components are a prefix of `path`'s (`Path::starts_with`).
pub open spec fn path_starts_with(path: Seq<u8>, base: Seq<u8>) -> bool {
    let c = components(path);
    let b = components(base);
    b.len() <= c.len() && c.take(b.len() as int) == b
}

/// Components joined by single separators.
pub open spec fn join_parts(parts: Seq<Seq<u8>>) -> Seq<u8>
    decreases parts.len(),
{
    if parts.len() == 0 {
        Seq::empty()
    } else if parts.len() == 1 {
        parts[0]
    } else {
        join_parts(parts.drop_last()) + seq![slash()] + parts.last()
    }
}

/// What is left of `path` below `base`, when `path` lies below it: the
/// remaining components joined by `/` (`Path::strip_prefix`).
pub open spec fn strip_base(path: Seq<u8>, base: Seq<u8>) -> Option<Seq<u8>> {
    if path_starts_with(path, base) {
        Some(join_parts(components(path).skip(components(base).len() as int)))
    } else {
        None
    }
}

/// The last component of a path when it is an ordinary name
/// (`Path::file_name`).
pub open spec fn file_name_of(path: Seq<u8>) -> Option<Seq<u8>> {
    let c = components(path);
    if c.len() > 0 && c.last() != seq![slash()] && c.last() != seq![dot()] && c.last() != seq![
        dot(),
        dot(),
    ] {
        Some(c.last())
    } else {
        None
    }
}

/// The components of the parent directory, if the path has one
/// (`Path::parent`): none for an empty path or the root itself.
pub open spec fn parent_components(path: Seq<u8>) -> Option<Seq<Seq<u8>>> {
    let c = components(path);
    if c.len() == 0 || c.last() == seq![slash()] {
        None
    } else {
        Some(c.drop_last())
    }
}

fn is_dot_part(part: &Vec<u8>) -> (r: bool)
    ensures
        r == (part@ == seq![dot()]),
{
    let r = part.len() == 1 && part[0] == 0x2eu8;
    assert(r == (part@ =~= seq![dot()]));
    r
}

fn split_from(p: &[u8], start: usize, parts: &mut Vec<Vec<u8>>)
    requires
        start <= p.len(),
    ensures
        final(parts)@.len() >= old(parts)@.len(),
        parts_view(final(parts)@) == parts_view(old(parts)@) + normal_parts(p@.skip(start as int)),
{
    let ghost q = p@.skip(start as int);
    let ghost base = parts_view(parts@);
    let mut current: Vec<u8> = Vec::new();
    let mut i: usize = start;
    while i < p.len()
        invariant
            start <= i <= p.len(),
            q == p@.skip(start as int),
            ({
                let st = split_scan(q.take(i - start));
                &&& parts_view(parts@) == base + st.parts
                &&& current@ == st.current
            }),
        decreases p.len() - i,
    {
        let b = p[i];
        assert(q.take(i + 1 - start).drop_last() =~= q.take(i - start));
        assert(q.take(i + 1 - start).last() == b);
        if b == 0x2fu8 {
            let ghost before = parts_view(parts@);
            if current.len() > 0 && !is_dot_part(&current) {
                parts.push(current);
                assert(parts_view(parts@) =~= before.push(split_scan(q.take(i - start)).current));
            }
            assert(parts_view(parts@) =~= base + split_step(split_scan(q.take(i - start)), b).parts);
            current = Vec::new();
        } else {
            current.push(b);
        }
        i = i + 1;
    }
    assert(q.take(p.len() - start) =~= q);
    let ghost before = parts_view(parts@);
    if current.len() > 0 && !is_dot_part(&current) {
        parts.push(current);
        assert(parts_view(parts@) =~= before.push(split_scan(q).current));
    }
    assert(parts_view(parts@) =~= base + normal_parts(q));
}

pub open spec fn parts_view(parts: Seq<Vec<u8>>) -> Seq<Seq<u8>> {
    parts.map_values(|v: Vec<u8>| v@)
}

/// The components of a path.
pub fn components_of(p: &[u8]) -> (out: Vec<Vec<u8>>)
    ensures
        parts_view(out@) == components(p@),
{
    let mut out: Vec<Vec<u8>> = Vec::new();
    if p.len() > 0 && p[0] == 0x2fu8 {
        let mut root: Vec<u8> = Vec::new();
        root.push(0x2fu8);
        assert(root@ =~= seq![slash()]);
        out.push(root);
        assert(parts_view(out@) =~= seq![seq![slash()]]);
        assert(p@.skip(0) =~= p@);
        split_from(p, 0, &mut out);
    } else if p.len() >= 1 && p[0] == 0x2eu8 && (p.len() == 1 || p[1] == 0x2fu8) {
        let mut cur: Vec<u8> = Vec::new();
        cur.push(0x2eu8);
        assert(cur@ =~= seq![dot()]);
        out.push(cur);
        assert(parts_view(out@) =~= seq![seq![dot()]]);
        split_from(p, 1, &mut out);
    } else {
        assert(parts_view(out@) =~= Seq::empty());
        assert(p@.skip(0) =~= p@);
        split_from(p, 0, &mut out);
        assert(parts_view(out@) =~= normal_parts(p@));
    }
    out
}

fn parts_prefix(parts: &Vec<Vec<u8>>, prefix: &Vec<Vec<u8>>) -> (r: bool)
    ensures
        r == (parts_view(prefix@).len() <= parts_view(parts@).len() && parts_view(parts@).take(
            parts_view(prefix@).len() as int,
        ) == parts_view(prefix@)),
{
    let ghost a = parts_view(parts@);
    let ghost b = parts_view(prefix@);
    if prefix.len() > parts.len() {
        return false;
    }
    let mut i: usize = 0;
    while i < prefix.len()
        invariant
            i <= prefix@.len(),
            prefix@.len() <= parts@.len(),
            a == parts_view(parts@),
            b == parts_view(prefix@),
            forall|k: int| 0 <= k < i ==> a[k] == b[k],
        decreases prefix.len() - i,
    {
        if !bytes_equal(parts[i].as_slice(), prefix[i].as_slice()) {
            assert(a.take(b.len() as int)[i as int] != b[i as int]);
            return false;
        }
        i = i + 1;
    }
    assert(a.take(b.len() as int) =~= b);
    true
}

/// Whether `base`'s components are a prefix of `path`'s.
pub fn starts_with(path: &[u8], base: &[u8]) -> (r: bool)
    ensures
        r == path_starts_with(path@, base@),
{
    let c = components_of(path);
    let b = components_of(base);
    parts_prefix(&c, &b)
}

/// Whether two paths have the same components (`Path` equality).
pub fn same_path(a: &[u8], b: &[u8]) -> (r: bool)
    ensures
        r == (components(a@) == components(b@)),
{
    let ca = components_of(a);
    let cb = components_of(b);
    if ca.len() != cb.len() {
        return false;
    }
    let r = parts_prefix(&ca, &cb);
    proof {
        if r {
            assert(parts_view(ca@).take(parts_view(cb@).len() as int) =~= parts_view(ca@));
        } else {
            if components(a@) == components(b@) {
                assert(parts_view(ca@).take(parts_view(cb@).len() as int) =~= parts_view(ca@));
            }
        }
    }
    r
}

/// The number of components of a path.
pub fn component_count(path: &[u8]) -> (n: usize)
    ensures
        n == components(path@).len(),
{
    components_of(path).len()
}

fn join_from(parts: &Vec<Vec<u8>>, start: usize) -> (out: Vec<u8>)
    requires
        start <= parts@.len(),
    ensures
        out@ == join_parts(parts_view(parts@).skip(start as int)),
{
    let ghost pv = parts_view(parts@);
    let mut out: Vec<u8> = Vec::new();
    let mut i: usize = start;
    while i < parts.len()
        invariant
            start <= i <= parts@.len(),
            pv == parts_view(parts@),
            out@ == join_parts(pv.skip(start as int).take(i - start)),
        decreases parts.len() - i,
    {
        let ghost before = out@;
        let ghost pre = pv.skip(start as int).take(i - start);
        assert(pv.skip(start as int).take(i + 1 - start).drop_last() =~= pre);
        assert(pv.skip(start as int).take(i + 1 - start).last() == parts@[i as int]@);
        if i > start {
            out.push(0x2fu8);
        }
        let part = &parts[i];
        let mut j: usize = 0;
        let ghost mid = out@;
        while j < part.len()
            invariant
                j <= part@.len(),
                out@ == mid + part@.take(j as int),
            decreases part.len() - j,
        {
            out.push(part[j]);
            assert(part@.take(j + 1) =~= part@.take(j as int).push(part@[j as int]));
            j = j + 1;
        }
        assert(part@.take(part@.len() as int) =~= part@);
        proof {
            if i > start {
                assert(out@ =~= before + seq![slash()] + part@);
            } else {
                assert(before =~= Seq::<u8>::empty());
                assert(out@ =~= part@);
            }
        }
        i = i + 1;
    }
    assert(pv.skip(start as int).take(parts@.len() - start) =~= pv.skip(start as int));
    out
}

/// What is left of `path` below `base`, if `path` lies below it.
pub fn strip_prefix(path: &[u8], base: &[u8]) -> (r: Option<Vec<u8>>)
    ensures
        match strip_base(path@, base@) {
            Some(rest) => r matches Some(v) && v@ == rest,
            None => r is None,
        },
{
    let c = components_of(path);
    let b = components_of(base);
    if !parts_prefix(&c, &b) {
        return None;
    }
    let rest = join_from(&c, b.len());
    Some(rest)
}

/// The final component of a path when it is an ordinary name.
pub fn file_name(path: &[u8]) -> (r: Option<Vec<u8>>)
    ensures
        match file_name_of(path@) {
            Some(name) => r matches Some(v) && v@ == name,
            None => r is None,
        },
{
    let mut c = components_of(path);
    let ghost cv = parts_view(c@);
    match c.pop() {
        None => None,
        Some(last) => {
            assert(cv.last() == last@);
            let is_root = last.len() == 1 && last[0] == 0x2fu8;
            let is_dot = last.len() == 1 && last[0] == 0x2eu8;
            let is_dotdot = last.len() == 2 && last[0] == 0x2eu8 && last[1] == 0x2eu8;
            assert(is_root == (last@ =~= seq![slash()]));
            assert(is_dot == (last@ =~= seq![dot()]));
            assert(is_dotdot == (last@ =~= seq![dot(), dot()]));
            if is_root || is_dot || is_dotdot {
                None
            } else {
                Some(last)
            }
        },
    }
}

/// Whether `path` lies in the directory that holds `database`.
pub fn in_parent_dir(path: &[u8], database: &[u8]) -> (r: bool)
    ensures
        r == (match parent_components(database@) {
            Some(dir) => dir.len() <= components(path@).len() && components(path@).take(dir.len() as int) == dir,
            None => false,
        }),
{
    let mut d = components_of(database);
    let ghost dv = parts_view(d@);
    if d.len() == 0 {
        return false;
    }
    let last_is_root = d[d.len() - 1].len() == 1 && d[d.len() - 1][0] == 0x2fu8;
    assert(dv.last() == d@[d@.len() - 1]@);
    assert(last_is_root == (d@[d@.len() - 1]@ =~= seq![slash()]));
    if last_is_root {
        return false;
    }
    d.pop();
    assert(parts_view(d@) =~= dv.drop_last());
    let c = components_of(path);
    parts_prefix(&c, &d)
}

} // verus!
