//! Slash-separated path text, read component by component as Unix paths are.
use crate::text::str_eq;
use vstd::prelude::*;

verus! {

/// One component of a path.
pub enum Comp {
    RootDir,
    CurDir,
    ParentDir,
    Normal(Seq<char>),
}

/// The texts between slashes, empty ones included.
pub open spec fn spec_segments(s: Seq<char>) -> Seq<Seq<char>>
    decreases s.len(),
{
    if s.len() == 0 {
        seq![seq![]]
    } else {
        let prev = spec_segments(s.drop_last());
        if s.last() == '/' {
            prev.push(seq![])
        } else {
            prev.update(prev.len() - 1, prev.last().push(s.last()))
        }
    }
}

/// Components of the segments after the first: empty and `.` segments vanish.
pub open spec fn spec_tail_comps(segs: Seq<Seq<char>>) -> Seq<Comp>
    decreases segs.len(),
{
    if segs.len() == 0 {
        seq![]
    } else {
        let prev = spec_tail_comps(segs.drop_last());
        let t = segs.last();
        if t.len() == 0 || t == seq!['.'] {
            prev
        } else if t == seq!['.', '.'] {
            prev.push(Comp::ParentDir)
        } else {
            prev.push(Comp::Normal(t))
        }
    }
}

/// The components of a path: a leading root, a leading `.` of a relative
/// path, `..` as parent, every other nonempty segment except `.`.
pub open spec fn spec_components(s: Seq<char>) -> Seq<Comp> {
    let segs = spec_segments(s);
    let first = segs[0];
    let head: Seq<Comp> = if s.len() > 0 && s[0] == '/' {
        seq![Comp::RootDir]
    } else if first == seq!['.'] {
        seq![Comp::CurDir]
    } else if first == seq!['.', '.'] {
        seq![Comp::ParentDir]
    } else if first.len() == 0 {
        seq![]
    } else {
        seq![Comp::Normal(first)]
    };
    head + spec_tail_comps(segs.drop_first())
}

/// The parent of a component list: all but the last component, unless the
/// path is empty or ends in the root.
pub open spec fn spec_parent(c: Seq<Comp>) -> Option<Seq<Comp>> {
    if c.len() == 0 || c.last() is RootDir {
        None
    } else {
        Some(c.drop_last())
    }
}

pub proof fn lemma_segments_nonempty(s: Seq<char>)
    ensures
        spec_segments(s).len() >= 1,
    decreases s.len(),
{
    if s.len() > 0 {
        lemma_segments_nonempty(s.drop_last());
    }
}

/// Splits path text at every slash.
pub fn segments(s: &str) -> (r: Vec<Vec<char>>)
    ensures
        r@.len() == spec_segments(s@).len(),
        forall|i: int| 0 <= i < r@.len() ==> #[trigger] r@[i]@ == spec_segments(s@)[i],
{
    let mut out: Vec<Vec<char>> = Vec::new();
    out.push(Vec::new());
    let ghost mut seen: Seq<char> = seq![];
    for c in it: s.chars()
        invariant
            it.seq() == s@,
            seen == s@.take(it.index() as int),
            out@.len() == spec_segments(seen).len(),
            out@.len() >= 1,
            forall|i: int| 0 <= i < out@.len() ==> #[trigger] out@[i]@ == spec_segments(seen)[i],
    {
        proof {
            assert(s@.take(it.index() + 1).drop_last() =~= seen);
            seen = s@.take(it.index() + 1);
            lemma_segments_nonempty(seen.drop_last());
        }
        if c == '/' {
            out.push(Vec::new());
            assert(out@[out@.len() - 1]@ =~= seq![]);
        } else {
            let n = out.len();
            let mut last = out.pop().unwrap();
            let ghost before = last@;
            last.push(c);
            out.push(last);
            proof {
                assert(out@.len() == n);
                assert(out@[n - 1]@ =~= before.push(c));
            }
        }
    }
    proof {
        assert(s@.take(s@.len() as int) =~= s@);
    }
    out
}


/// One component of a path, as computed.
pub enum PathPart {
    RootDir,
    CurDir,
    ParentDir,
    Normal(Vec<char>),
}

impl View for PathPart {
    type V = Comp;

    open spec fn view(&self) -> Comp {
        match self {
            PathPart::RootDir => Comp::RootDir,
            PathPart::CurDir => Comp::CurDir,
            PathPart::ParentDir => Comp::ParentDir,
            PathPart::Normal(v) => Comp::Normal(v@),
        }
    }
}

pub open spec fn parts_view(v: Seq<PathPart>) -> Seq<Comp> {
    v.map_values(|p: PathPart| p@)
}

/// Whether two character vectors are equal.
pub fn chars_eq(a: &Vec<char>, b: &Vec<char>) -> (r: bool)
    ensures
        r == (a@ == b@),
{
    if a.len() != b.len() {
        return false;
    }
    for i in 0..a.len()
        invariant
            a@.len() == b@.len(),
            forall|j: int| 0 <= j < i ==> a@[j] == b@[j],
    {
        if a[i] != b[i] {
            return false;
        }
    }
    assert(a@ =~= b@);
    true
}

fn is_dot(t: &Vec<char>) -> (r: bool)
    ensures
        r == (t@ == seq!['.']),
{
    let r = t.len() == 1 && t[0] == '.';
    proof {
        if t@ == seq!['.'] {
            assert(t@[0] == '.');
        }
    }
    if r {
        assert(t@ =~= seq!['.']);
    }
    r
}

fn is_dot_dot(t: &Vec<char>) -> (r: bool)
    ensures
        r == (t@ == seq!['.', '.']),
{
    let r = t.len() == 2 && t[0] == '.' && t[1] == '.';
    proof {
        if t@ == seq!['.', '.'] {
            assert(t@[0] == '.' && t@[1] == '.');
        }
    }
    if r {
        assert(t@ =~= seq!['.', '.']);
    }
    r
}

/// A copy of a character vector.
pub fn copy_chars(v: &Vec<char>) -> (r: Vec<char>)
    ensures
        r@ == v@,
{
    let mut out: Vec<char> = Vec::new();
    for i in 0..v.len()
        invariant
            out@ == v@.take(i as int),
    {
        out.push(v[i]);
        assert(out@ =~= v@.take(i + 1));
    }
    assert(v@.take(v@.len() as int) =~= v@);
    out
}

/// The components of path text, as `Path::components` yields them.
pub fn components(s: &str) -> (r: Vec<PathPart>)
    ensures
        parts_view(r@) == spec_components(s@),
{
    let segs = segments(s);
    proof {
        lemma_segments_nonempty(s@);
    }
    let ghost sv = spec_segments(s@);
    let cs = crate::text::chars_of(s);
    let mut out: Vec<PathPart> = Vec::new();
    let first = &segs[0];
    if cs.len() > 0 && cs[0] == '/' {
        out.push(PathPart::RootDir);
    } else if is_dot(first) {
        out.push(PathPart::CurDir);
    } else if is_dot_dot(first) {
        out.push(PathPart::ParentDir);
    } else if first.len() > 0 {
        out.push(PathPart::Normal(copy_chars(first)));
    }
    let ghost head = parts_view(out@);
    assert(head =~= spec_components(s@).take(head.len() as int)) by {
        assert(spec_components(s@) =~= head + spec_tail_comps(sv.drop_first()));
    }
    for i in 1..segs.len()
        invariant
            1 <= segs@.len(),
            segs@.len() == sv.len(),
            forall|k: int| 0 <= k < segs@.len() ==> #[trigger] segs@[k]@ == sv[k],
            head + spec_tail_comps(sv.drop_first()) == spec_components(s@),
            parts_view(out@) == head + spec_tail_comps(sv.subrange(1, i as int)),
    {
        let t = &segs[i];
        let ghost prev = parts_view(out@);
        proof {
            let a = sv.subrange(1, i + 1);
            assert(a.drop_last() =~= sv.subrange(1, i as int));
            assert(a.last() == sv[i as int]);
            assert(t@ == sv[i as int]);
            assert(spec_tail_comps(a) == (if t@.len() == 0 || t@ == seq!['.'] {
                spec_tail_comps(sv.subrange(1, i as int))
            } else if t@ == seq!['.', '.'] {
                spec_tail_comps(sv.subrange(1, i as int)).push(Comp::ParentDir)
            } else {
                spec_tail_comps(sv.subrange(1, i as int)).push(Comp::Normal(t@))
            }));
        }
        if t.len() == 0 || is_dot(t) {
        } else if is_dot_dot(t) {
            out.push(PathPart::ParentDir);
            assert(parts_view(out@) =~= prev.push(Comp::ParentDir));
        } else {
            let c = copy_chars(t);
            out.push(PathPart::Normal(c));
            assert(parts_view(out@) =~= prev.push(Comp::Normal(t@)));
        }
    }
    assert(sv.subrange(1, sv.len() as int) =~= sv.drop_first());
    out
}

fn same_part(a: &PathPart, b: &PathPart) -> (r: bool)
    ensures
        r == (a@ == b@),
{
    match (a, b) {
        (PathPart::RootDir, PathPart::RootDir) => true,
        (PathPart::CurDir, PathPart::CurDir) => true,
        (PathPart::ParentDir, PathPart::ParentDir) => true,
        (PathPart::Normal(x), PathPart::Normal(y)) => chars_eq(x, y),
        _ => false,
    }
}

/// Whether `a` and the first `n` parts of `b` are the same components.
pub fn same_parts_prefix(a: &Vec<PathPart>, b: &Vec<PathPart>, n: usize) -> (r: bool)
    requires
        n <= b@.len(),
    ensures
        r == (parts_view(a@) == parts_view(b@).take(n as int)),
{
    if a.len() != n {
        assert(parts_view(a@).len() != parts_view(b@).take(n as int).len());
        return false;
    }
    for i in 0..n
        invariant
            a@.len() == n,
            n <= b@.len(),
            forall|j: int| 0 <= j < i ==> a@[j]@ == b@[j]@,
    {
        if !same_part(&a[i], &b[i]) {
            assert(parts_view(a@)[i as int] != parts_view(b@).take(n as int)[i as int]);
            return false;
        }
    }
    assert(parts_view(a@) =~= parts_view(b@).take(n as int));
    true
}

/// Whether two component lists are the same.
pub fn same_components_of(a: &Vec<PathPart>, b: &Vec<PathPart>) -> (r: bool)
    ensures
        r == (parts_view(a@) == parts_view(b@)),
{
    let r = same_parts_prefix(a, b, b.len());
    assert(parts_view(b@).take(b@.len() as int) =~= parts_view(b@));
    r
}

/// Whether two paths have the same components (`Path == Path`).
pub fn same_path(a: &str, b: &str) -> (r: bool)
    ensures
        r == (spec_components(a@) == spec_components(b@)),
{
    let x = components(a);
    let y = components(b);
    let r = same_parts_prefix(&x, &y, y.len());
    assert(parts_view(y@).take(y@.len() as int) =~= parts_view(y@));
    r
}

/// Whether `root` is the parent of `dir` (`dir.parent() == Some(root)`).
pub fn is_parent_of(root: &str, dir: &str) -> (r: bool)
    ensures
        r == (spec_parent(spec_components(dir@)) == Some(spec_components(root@))),
{
    let d = components(dir);
    if d.len() == 0 {
        return false;
    }
    match &d[d.len() - 1] {
        PathPart::RootDir => {
            return false;
        },
        _ => {},
    }
    let x = components(root);
    let r = same_parts_prefix(&x, &d, d.len() - 1);
    assert(parts_view(d@).take(d@.len() - 1) =~= parts_view(d@).drop_last());
    r
}

/// The final component of a path when it is a normal name (`Path::file_name`).
pub open spec fn spec_file_name(s: Seq<char>) -> Option<Seq<char>> {
    let c = spec_components(s);
    if c.len() > 0 && c.last() is Normal {
        Some(c.last()->Normal_0)
    } else {
        None
    }
}

/// The position of the last `.` in a name.
pub open spec fn spec_last_dot(n: Seq<char>) -> Option<int> {
    if exists|i: int| 0 <= i < n.len() && n[i] == '.' {
        Some(choose|i: int| 0 <= i < n.len() && n[i] == '.' && forall|j: int| i < j < n.len() ==> n[j] != '.')
    } else {
        None
    }
}

/// `Path::file_stem`: the name before its last dot, unless the only dot leads.
pub open spec fn spec_file_stem(s: Seq<char>) -> Option<Seq<char>> {
    match spec_file_name(s) {
        None => None,
        Some(n) => match spec_last_dot(n) {
            Some(d) => if d == 0 { Some(n) } else { Some(n.take(d)) },
            None => Some(n),
        },
    }
}

/// `Path::extension`: the name after its last dot, unless the only dot leads.
pub open spec fn spec_extension(s: Seq<char>) -> Option<Seq<char>> {
    match spec_file_name(s) {
        None => None,
        Some(n) => match spec_last_dot(n) {
            Some(d) => if d == 0 { None } else { Some(n.skip(d + 1)) },
            None => None,
        },
    }
}

/// The last dot of `n`, if any.
fn last_dot(n: &Vec<char>) -> (r: Option<usize>)
    ensures
        match r {
            Some(d) => spec_last_dot(n@) == Some(d as int) && d < n@.len(),
            None => spec_last_dot(n@) is None,
        },
{
    let mut i = n.len();
    while i > 0
        invariant
            i <= n@.len(),
            forall|j: int| i <= j < n@.len() ==> n@[j] != '.',
        decreases i,
    {
        if n[i - 1] == '.' {
            let d = i - 1;
            proof {
                let c = choose|k: int| 0 <= k < n@.len() && n@[k] == '.' && forall|j: int| k < j < n@.len() ==> n@[j] != '.';
                assert(n@[d as int] == '.');
                if c < d {
                    assert(n@[d as int] != '.');
                }
                if c > d {
                    assert(n@[c] != '.');
                }
            }
            return Some(d);
        }
        i = i - 1;
    }
    None
}

/// The final normal component of a path.
fn file_name(s: &str) -> (r: Option<Vec<char>>)
    ensures
        match r {
            Some(n) => spec_file_name(s@) == Some(n@),
            None => spec_file_name(s@) is None,
        },
{
    let c = components(s);
    if c.len() == 0 {
        return None;
    }
    proof {
        assert(parts_view(c@).last() == c@.last()@);
    }
    match &c[c.len() - 1] {
        PathPart::Normal(n) => Some(copy_chars(n)),
        _ => None,
    }
}

fn take_chars(v: &Vec<char>, n: usize) -> (r: Vec<char>)
    requires
        n <= v@.len(),
    ensures
        r@ == v@.take(n as int),
{
    let mut out: Vec<char> = Vec::new();
    for i in 0..n
        invariant
            n <= v@.len(),
            out@ == v@.take(i as int),
    {
        out.push(v[i]);
        assert(out@ =~= v@.take(i + 1));
    }
    out
}

fn skip_chars(v: &Vec<char>, n: usize) -> (r: Vec<char>)
    requires
        n <= v@.len(),
    ensures
        r@ == v@.skip(n as int),
{
    let mut out: Vec<char> = Vec::new();
    let mut i = n;
    while i < v.len()
        invariant
            n <= i <= v@.len(),
            out@ == v@.subrange(n as int, i as int),
        decreases v@.len() - i,
    {
        out.push(v[i]);
        assert(out@ =~= v@.subrange(n as int, i + 1));
        i = i + 1;
    }
    assert(v@.subrange(n as int, v@.len() as int) =~= v@.skip(n as int));
    out
}

/// `Path::file_stem` on path text.
pub fn file_stem(s: &str) -> (r: Option<Vec<char>>)
    ensures
        match r {
            Some(n) => spec_file_stem(s@) == Some(n@),
            None => spec_file_stem(s@) is None,
        },
{
    let n = match file_name(s) {
        Some(n) => n,
        None => {
            return None;
        },
    };
    match last_dot(&n) {
        Some(d) => if d == 0 {
            Some(n)
        } else {
            Some(take_chars(&n, d))
        },
        None => Some(n),
    }
}

/// `Path::extension` on path text.
pub fn extension(s: &str) -> (r: Option<Vec<char>>)
    ensures
        match r {
            Some(n) => spec_extension(s@) == Some(n@),
            None => spec_extension(s@) is None,
        },
{
    let n = match file_name(s) {
        Some(n) => n,
        None => {
            return None;
        },
    };
    let len = n.len();
    match last_dot(&n) {
        Some(d) => if d == 0 {
            None
        } else {
            assert(d < len);
            Some(skip_chars(&n, d + 1))
        },
        None => None,
    }
}

/// ASCII lower case of one character.
pub open spec fn ascii_lower(c: char) -> char {
    if 'A' <= c && c <= 'Z' {
        ((c as u32) + 32) as char
    } else {
        c
    }
}

/// `eq_ignore_ascii_case`: equal after mapping ASCII upper case to lower case.
pub open spec fn spec_eq_ignore_ascii_case(a: Seq<char>, b: Seq<char>) -> bool {
    a.len() == b.len() && forall|i: int| 0 <= i < a.len() ==> ascii_lower(#[trigger] a[i]) == ascii_lower(b[i])
}

fn lower_char(c: char) -> (r: char)
    ensures
        r == ascii_lower(c),
{
    if 'A' <= c && c <= 'Z' {
        let n: u32 = (c as u32) + 32;
        assert(n <= 0x7a);
        char_from_ascii(n)
    } else {
        c
    }
}

fn char_from_ascii(n: u32) -> (r: char)
    requires
        n < 128,
    ensures
        r == n as char,
{
    (n as u8) as char
}

/// Compares characters with `text`, ignoring ASCII case.
pub fn eq_ignore_ascii_case(a: &Vec<char>, text: &str) -> (r: bool)
    ensures
        r == spec_eq_ignore_ascii_case(a@, text@),
{
    let b = crate::text::chars_of(text);
    if a.len() != b.len() {
        return false;
    }
    for i in 0..a.len()
        invariant
            a@.len() == b@.len(),
            b@ == text@,
            forall|j: int| 0 <= j < i ==> ascii_lower(#[trigger] a@[j]) == ascii_lower(b@[j]),
    {
        if lower_char(a[i]) != lower_char(b[i]) {
            return false;
        }
    }
    true
}


proof fn lemma_tail_no_root(segs: Seq<Seq<char>>)
    ensures
        forall|j: int| 0 <= j < spec_tail_comps(segs).len() ==> !(#[trigger] spec_tail_comps(segs)[j] is RootDir),
    decreases segs.len(),
{
    if segs.len() > 0 {
        lemma_tail_no_root(segs.drop_last());
    }
}

/// Only the first component of a path can be the root.
pub proof fn lemma_root_first(s: Seq<char>)
    ensures
        forall|j: int| 1 <= j < spec_components(s).len() ==> !(#[trigger] spec_components(s)[j] is RootDir),
{
    let segs = spec_segments(s);
    lemma_segments_nonempty(s);
    lemma_tail_no_root(segs.drop_first());
    let c = spec_components(s);
    let t = spec_tail_comps(segs.drop_first());
    assert forall|j: int| 1 <= j < c.len() implies !(#[trigger] c[j] is RootDir) by {
        let hl = c.len() - t.len();
        assert(hl <= 1);
        if j >= hl {
            assert(c[j] == t[j - hl]);
        }
    }
}

/// Lexicographic order of texts by code point (byte order of UTF-8).
pub open spec fn chars_lt(a: Seq<char>, b: Seq<char>) -> bool
    decreases a.len(),
{
    if a.len() == 0 {
        b.len() > 0
    } else if b.len() == 0 {
        false
    } else if a[0] == b[0] {
        chars_lt(a.skip(1), b.skip(1))
    } else {
        (a[0] as u32) < (b[0] as u32)
    }
}

/// The rank of a component kind in the order of `std::path::Component`.
pub open spec fn comp_rank(c: Comp) -> int {
    match c {
        Comp::RootDir => 1,
        Comp::CurDir => 2,
        Comp::ParentDir => 3,
        Comp::Normal(_) => 4,
    }
}

/// The order of components: by kind, names by text.
pub open spec fn comp_lt(a: Comp, b: Comp) -> bool {
    match (a, b) {
        (Comp::Normal(x), Comp::Normal(y)) => chars_lt(x, y),
        _ => comp_rank(a) < comp_rank(b),
    }
}

/// The order of paths (`Ord for Path`): lexicographic by component.
pub open spec fn comps_lt(a: Seq<Comp>, b: Seq<Comp>) -> bool
    decreases a.len(),
{
    if a.len() == 0 {
        b.len() > 0
    } else if b.len() == 0 {
        false
    } else if a[0] == b[0] {
        comps_lt(a.skip(1), b.skip(1))
    } else {
        comp_lt(a[0], b[0])
    }
}

pub proof fn lemma_chars_total(a: Seq<char>, b: Seq<char>)
    ensures
        chars_lt(a, b) || chars_lt(b, a) || a == b,
    decreases a.len(),
{
    if a.len() > 0 && b.len() > 0 && a[0] == b[0] {
        lemma_chars_total(a.skip(1), b.skip(1));
        if a.skip(1) == b.skip(1) {
            assert(a =~= seq![a[0]] + a.skip(1));
            assert(b =~= seq![b[0]] + b.skip(1));
        }
    } else if a.len() == 0 && b.len() == 0 {
        assert(a =~= b);
    } else if a.len() > 0 && b.len() > 0 {
        vstd::utf8::char_is_scalar(a[0]);
        vstd::utf8::char_is_scalar(b[0]);
        vstd::utf8::char_u32_cast(a[0], a[0] as u32);
        vstd::utf8::char_u32_cast(b[0], b[0] as u32);
    }
}

pub proof fn lemma_comps_total(a: Seq<Comp>, b: Seq<Comp>)
    ensures
        comps_lt(a, b) || comps_lt(b, a) || a == b,
    decreases a.len(),
{
    if a.len() > 0 && b.len() > 0 {
        if a[0] == b[0] {
            lemma_comps_total(a.skip(1), b.skip(1));
            if a.skip(1) == b.skip(1) {
                assert(a =~= seq![a[0]] + a.skip(1));
                assert(b =~= seq![b[0]] + b.skip(1));
            }
        } else {
            match (a[0], b[0]) {
                (Comp::Normal(x), Comp::Normal(y)) => {
                    lemma_chars_total(x, y);
                },
                _ => {},
            }
        }
    } else if a.len() == 0 && b.len() == 0 {
        assert(a =~= b);
    }
}

pub fn chars_less(a: &Vec<char>, b: &Vec<char>) -> (r: bool)
    ensures
        r == chars_lt(a@, b@),
{
    let mut i: usize = 0;
    assert(a@.skip(0) =~= a@);
    assert(b@.skip(0) =~= b@);
    while i < a.len() && i < b.len()
        invariant
            i <= a@.len(),
            i <= b@.len(),
            chars_lt(a@, b@) == chars_lt(a@.skip(i as int), b@.skip(i as int)),
        decreases a@.len() - i,
    {
        if a[i] != b[i] {
            return (a[i] as u32) < (b[i] as u32);
        }
        assert(a@.skip(i as int).skip(1) =~= a@.skip(i + 1));
        assert(b@.skip(i as int).skip(1) =~= b@.skip(i + 1));
        i = i + 1;
    }
    i < b.len()
}

fn comp_less(a: &PathPart, b: &PathPart) -> (r: bool)
    ensures
        r == comp_lt(a@, b@),
{
    match (a, b) {
        (PathPart::Normal(x), PathPart::Normal(y)) => chars_less(x, y),
        _ => {
            let ra: u8 = match a {
                PathPart::RootDir => 1,
                PathPart::CurDir => 2,
                PathPart::ParentDir => 3,
                PathPart::Normal(_) => 4,
            };
            let rb: u8 = match b {
                PathPart::RootDir => 1,
                PathPart::CurDir => 2,
                PathPart::ParentDir => 3,
                PathPart::Normal(_) => 4,
            };
            ra < rb
        },
    }
}

/// Whether path `a` sorts before path `b` (`Path < Path`).
pub fn parts_less(a: &Vec<PathPart>, b: &Vec<PathPart>) -> (r: bool)
    ensures
        r == comps_lt(parts_view(a@), parts_view(b@)),
{
    let ghost av = parts_view(a@);
    let ghost bv = parts_view(b@);
    let mut i: usize = 0;
    assert(av.skip(0) =~= av);
    assert(bv.skip(0) =~= bv);
    while i < a.len() && i < b.len()
        invariant
            av == parts_view(a@),
            bv == parts_view(b@),
            i <= a@.len(),
            i <= b@.len(),
            comps_lt(av, bv) == comps_lt(av.skip(i as int), bv.skip(i as int)),
        decreases a@.len() - i,
    {
        assert(av[i as int] == a@[i as int]@);
        assert(bv[i as int] == b@[i as int]@);
        if !same_part(&a[i], &b[i]) {
            return comp_less(&a[i], &b[i]);
        }
        assert(av.skip(i as int).skip(1) =~= av.skip(i + 1));
        assert(bv.skip(i as int).skip(1) =~= bv.skip(i + 1));
        i = i + 1;
    }
    i < b.len()
}

pub proof fn lemma_chars_asym(a: Seq<char>, b: Seq<char>)
    ensures
        chars_lt(a, b) ==> !chars_lt(b, a),
    decreases a.len(),
{
    if a.len() > 0 && b.len() > 0 && a[0] == b[0] {
        lemma_chars_asym(a.skip(1), b.skip(1));
    }
}

pub proof fn lemma_comps_asym(a: Seq<Comp>, b: Seq<Comp>)
    ensures
        comps_lt(a, b) ==> !comps_lt(b, a),
    decreases a.len(),
{
    if a.len() > 0 && b.len() > 0 {
        if a[0] == b[0] {
            lemma_comps_asym(a.skip(1), b.skip(1));
        } else {
            match (a[0], b[0]) {
                (Comp::Normal(x), Comp::Normal(y)) => {
                    lemma_chars_asym(x, y);
                },
                _ => {},
            }
        }
    }
}

} // verus!
