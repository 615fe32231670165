//! The `index.theme` metadata of a cursor theme: its display name and the
//! themes it inherits from.
use crate::model::{ThemeName, valid_theme_name};
use crate::text::{spec_trim, spec_trim_end, spec_trim_start, string_from_chars, trim};
use vstd::prelude::*;

verus! {

/// Characters that separate inherited theme names.
pub open spec fn is_list_sep(c: char) -> bool {
    c == ',' || c == ';' || c == ':' || c == ' ' || c == '\t' || c == '\n' || c == '\x0C' || c == '\r'
}

/// The pieces of `s` between separators (newlines when `nl`, else list
/// separators), empty pieces included.
pub open spec fn spec_split_by(s: Seq<char>, nl: bool) -> Seq<Seq<char>>
    decreases s.len(),
{
    if s.len() == 0 {
        seq![seq![]]
    } else {
        let prev = spec_split_by(s.drop_last(), nl);
        if (if nl { s.last() == '\n' } else { is_list_sep(s.last()) }) {
            prev.push(seq![])
        } else {
            prev.update(prev.len() - 1, prev.last().push(s.last()))
        }
    }
}

pub proof fn lemma_split_nonempty(s: Seq<char>, nl: bool)
    ensures
        spec_split_by(s, nl).len() >= 1,
    decreases s.len(),
{
    if s.len() > 0 {
        lemma_split_nonempty(s.drop_last(), nl);
    }
}

/// The lines of `s` as `str::lines` yields them: split at `\n`, without a
/// `\r` before it, and without a final empty line.
pub open spec fn spec_lines(s: Seq<char>) -> Seq<Seq<char>> {
    let segs = spec_split_by(s, true);
    let n = if segs.last().len() == 0 {
        segs.len() - 1
    } else {
        segs.len() as int
    };
    Seq::new(
        n as nat,
        |i: int|
            if i < segs.len() - 1 && segs[i].len() > 0 && segs[i].last() == '\r' {
                segs[i].drop_last()
            } else {
                segs[i]
            },
    )
}

/// The first `=` in a line.
pub open spec fn spec_first_eq(l: Seq<char>) -> Option<int> {
    if exists|i: int| 0 <= i < l.len() && l[i] == '=' {
        Some(choose|i: int| 0 <= i < l.len() && l[i] == '=' && forall|j: int| 0 <= j < i ==> l[j] != '=')
    } else {
        None
    }
}

/// The valid names of an `Inherits` value, at most 32.
pub open spec fn spec_inherits(v: Seq<char>) -> Seq<Seq<char>> {
    let names = spec_split_by(v, false).map_values(|p: Seq<char>| spec_trim(p)).filter(|n: Seq<char>| valid_theme_name(n));
    if names.len() > 32 {
        names.take(32)
    } else {
        names
    }
}

/// The valid names of an `Inherits` value, in order: the pieces between
/// list separators, trimmed, that are valid theme names.
pub open spec fn inherit_names(v: Seq<char>) -> Seq<Seq<char>> {
    spec_split_by(v, false).map_values(|p: Seq<char>| spec_trim(p)).filter(|n: Seq<char>| valid_theme_name(n))
}

/// Every valid name of an `Inherits` value is kept, in order, up to 32:
/// the result is that many names, each the valid name at its position.
pub proof fn law_inherits_keeps_names(v: Seq<char>)
    ensures
        spec_inherits(v).len() == (if inherit_names(v).len() <= 32 { inherit_names(v).len() } else { 32 }),
        forall|i: int| 0 <= i < spec_inherits(v).len() ==> #[trigger] spec_inherits(v)[i] == inherit_names(v)[i],
        forall|i: int| 0 <= i < spec_inherits(v).len() ==> valid_theme_name(#[trigger] spec_inherits(v)[i]),
{
    let pieces = spec_split_by(v, false).map_values(|p: Seq<char>| spec_trim(p));
    let names = inherit_names(v);
    assert forall|i: int| 0 <= i < spec_inherits(v).len() implies valid_theme_name(#[trigger] spec_inherits(v)[i]) by {
        pieces.lemma_filter_pred(|n: Seq<char>| valid_theme_name(n), i);
        assert(spec_inherits(v)[i] == names[i]);
    }
}

/// Reading state: inside `[Icon Theme]`, the name, the inherited names.
pub open spec fn spec_meta_step(st: (bool, Option<Seq<char>>, Seq<Seq<char>>), line: Seq<char>) -> (
    bool,
    Option<Seq<char>>,
    Seq<Seq<char>>,
) {
    let l = spec_trim(line);
    if l.len() > 0 && l[0] == '[' {
        (l == "[Icon Theme]"@, st.1, st.2)
    } else if !st.0 || (l.len() > 0 && l[0] == '#') {
        st
    } else {
        match spec_first_eq(l) {
            None => st,
            Some(i) => {
                let k = spec_trim(l.take(i));
                let v = l.skip(i + 1);
                if k == "Name"@ {
                    (st.0, Some(spec_trim(v)), st.2)
                } else if k == "Inherits"@ && st.2.len() == 0 {
                    (st.0, st.1, spec_inherits(v))
                } else {
                    st
                }
            },
        }
    }
}

pub open spec fn spec_meta_lines(ls: Seq<Seq<char>>) -> (bool, Option<Seq<char>>, Seq<Seq<char>>)
    decreases ls.len(),
{
    if ls.len() == 0 {
        (false, None, seq![])
    } else {
        spec_meta_step(spec_meta_lines(ls.drop_last()), ls.last())
    }
}

/// The display name (`Name=`) and the first nonempty `Inherits=` list of
/// the `[Icon Theme]` section; later sections and comments are ignored.
pub open spec fn spec_metadata(s: Seq<char>) -> (Option<Seq<char>>, Seq<Seq<char>>) {
    let st = spec_meta_lines(spec_lines(s));
    (st.1, st.2)
}

/// The `Inherits=` list of the `[Icon Theme]` section is what the theme
/// inherits: after the section header, a line `Inherits=<list>` (with no
/// white space around it) gives exactly the valid names of the list, in
/// order, up to 32, and no display name.
pub proof fn law_metadata_inherits(v: Seq<char>)
    requires
        spec_trim("Inherits="@ + v) == "Inherits="@ + v,
    ensures
        spec_meta_lines(seq!["[Icon Theme]"@, "Inherits="@ + v]).2 == spec_inherits(v),
        spec_meta_lines(seq!["[Icon Theme]"@, "Inherits="@ + v]).1 is None,
{
    reveal_strlit("[Icon Theme]");
    reveal_strlit("Inherits=");
    reveal_strlit("Inherits");
    reveal_strlit("Name");
    let h = "[Icon Theme]"@;
    let line = "Inherits="@ + v;
    let ls = seq![h, line];
    assert(ls.drop_last() =~= seq![h]);
    assert(seq![h].drop_last() =~= Seq::<Seq<char>>::empty());
    assert(spec_trim_start(h) == h);
    assert(spec_trim_end(h) == h);
    assert(spec_trim(h) == h);
    assert(spec_meta_lines(Seq::<Seq<char>>::empty()) == (false, None::<Seq<char>>, Seq::<Seq<char>>::empty()));
    assert(h.len() > 0 && h[0] == '[');
    assert(spec_meta_lines(seq![h]) == spec_meta_step(spec_meta_lines(Seq::<Seq<char>>::empty()), h));
    let st1 = spec_meta_lines(seq![h]);
    assert(st1 == (true, None::<Seq<char>>, Seq::<Seq<char>>::empty()));
    assert(line[8] == '=');
    assert forall|j: int| 0 <= j < 8 implies line[j] != '=' by {}
    assert(spec_first_eq(line) == Some(8int));
    let k = line.take(8);
    assert(k =~= "Inherits"@);
    assert(spec_trim_start(k) == k);
    assert(spec_trim_end(k) == k);
    assert(line.skip(9) =~= v);
    assert(k != "Name"@);
}

pub open spec fn chars_vecs_view(v: Seq<Vec<char>>) -> Seq<Seq<char>> {
    v.map_values(|x: Vec<char>| x@)
}

/// Splits characters at separators (see `spec_split_by`).
fn split_by(s: &Vec<char>, nl: bool) -> (r: Vec<Vec<char>>)
    ensures
        chars_vecs_view(r@) == spec_split_by(s@, nl),
{
    let mut out: Vec<Vec<char>> = Vec::new();
    out.push(Vec::new());
    assert(chars_vecs_view(out@) =~= spec_split_by(s@.take(0), nl));
    for i in 0..s.len()
        invariant
            out@.len() >= 1,
            chars_vecs_view(out@) == spec_split_by(s@.take(i as int), nl),
    {
        let c = s[i];
        proof {
            assert(s@.take(i + 1).drop_last() =~= s@.take(i as int));
            assert(s@.take(i + 1).last() == c);
        }
        let sep = if nl {
            c == '\n'
        } else {
            c == ',' || c == ';' || c == ':' || c == ' ' || c == '\t' || c == '\n' || c == '\x0C' || c == '\r'
        };
        let ghost prev = out@;
        if sep {
            out.push(Vec::new());
            assert(chars_vecs_view(out@) =~= chars_vecs_view(prev).push(seq![]));
        } else {
            let n = out.len();
            let mut last = out.pop().unwrap();
            let ghost before = last@;
            last.push(c);
            out.push(last);
            assert(chars_vecs_view(out@) =~= chars_vecs_view(prev).update(n - 1, before.push(c)));
        }
    }
    assert(s@.take(s@.len() as int) =~= s@);
    out
}

/// The lines of `s` (see `spec_lines`).
fn lines(s: &str) -> (r: Vec<Vec<char>>)
    ensures
        chars_vecs_view(r@) == spec_lines(s@),
{
    let cs = crate::text::chars_of(s);
    let segs = split_by(&cs, true);
    proof {
        lemma_split_nonempty(s@, true);
    }
    let ghost sv = spec_split_by(s@, true);
    let n = if segs[segs.len() - 1].len() == 0 { segs.len() - 1 } else { segs.len() };
    proof {
        assert(sv.last() == segs@[segs@.len() - 1]@);
    }
    let mut out: Vec<Vec<char>> = Vec::new();
    for i in 0..n
        invariant
            n <= segs@.len(),
            sv.len() >= 1,
            sv == spec_split_by(s@, true),
            segs@.len() == sv.len(),
            n == (if sv.last().len() == 0 { sv.len() - 1 } else { sv.len() as int }),
            forall|k: int| 0 <= k < segs@.len() ==> #[trigger] segs@[k]@ == sv[k],
            chars_vecs_view(out@) == spec_lines(s@).take(i as int),
    {
        let seg = &segs[i];
        let ghost prev = out@;
        proof {
            assert(seg@ == sv[i as int]);
        }
        if i < segs.len() - 1 && seg.len() > 0 && seg[seg.len() - 1] == '\r' {
            let mut t = Vec::new();
            for j in 0..seg.len() - 1
                invariant
                    seg@.len() > 0,
                    t@ == seg@.take(j as int),
            {
                t.push(seg[j]);
                assert(t@ =~= seg@.take(j + 1));
            }
            assert(t@ =~= seg@.drop_last());
            out.push(t);
        } else {
            let mut t = Vec::new();
            for j in 0..seg.len()
                invariant
                    t@ == seg@.take(j as int),
            {
                t.push(seg[j]);
                assert(t@ =~= seg@.take(j + 1));
            }
            assert(t@ =~= seg@);
            out.push(t);
        }
        proof {
            assert(spec_lines(s@).len() == n);
            assert(chars_vecs_view(out@).last() == spec_lines(s@)[i as int]);
            assert(chars_vecs_view(out@).drop_last() =~= chars_vecs_view(prev));
        }
        assert(chars_vecs_view(out@) =~= spec_lines(s@).take(i + 1));
    }
    assert(spec_lines(s@).take(n as int) =~= spec_lines(s@));
    out
}

fn first_eq(l: &Vec<char>) -> (r: Option<usize>)
    ensures
        match r {
            Some(i) => spec_first_eq(l@) == Some(i as int) && i < l@.len(),
            None => spec_first_eq(l@) is None,
        },
{
    for i in 0..l.len()
        invariant
            forall|j: int| 0 <= j < i ==> l@[j] != '=',
    {
        if l[i] == '=' {
            proof {
                let c = choose|c: int| 0 <= c < l@.len() && l@[c] == '=' && forall|j: int| 0 <= j < c ==> l@[j] != '=';
                if c > i {
                    assert(l@[i as int] != '=');
                }
            }
            return Some(i);
        }
    }
    None
}

fn trimmed(v: &Vec<char>) -> (r: Vec<char>)
    ensures
        r@ == spec_trim(v@),
{
    let s = string_from_chars(v);
    crate::text::chars_of(trim(s.as_str()))
}

fn sub_chars(v: &Vec<char>, a: usize, b: usize) -> (r: Vec<char>)
    requires
        a <= b <= v@.len(),
    ensures
        r@ == v@.subrange(a as int, b as int),
{
    let mut out = Vec::new();
    for j in a..b
        invariant
            b <= v@.len(),
            out@ == v@.subrange(a as int, j as int),
    {
        out.push(v[j]);
        assert(out@ =~= v@.subrange(a as int, j + 1));
    }
    out
}

fn is_text(v: &Vec<char>, t: &str) -> (r: bool)
    ensures
        r == (v@ == t@),
{
    let tv = crate::text::chars_of(t);
    crate::paths::chars_eq(v, &tv)
}

/// The valid names of an `Inherits` value (see `spec_inherits`).
fn inherits(v: &Vec<char>) -> (r: Vec<ThemeName>)
    ensures
        r@.map_values(|n: ThemeName| n@) == spec_inherits(v@),
{
    let pieces = split_by(v, false);
    let ghost pv = chars_vecs_view(pieces@);
    let ghost tv = pv.map_values(|p: Seq<char>| spec_trim(p));
    let mut out: Vec<ThemeName> = Vec::new();
    for i in 0..pieces.len()
        invariant
            pv == chars_vecs_view(pieces@),
            tv == pv.map_values(|p: Seq<char>| spec_trim(p)),
            out@.map_values(|n: ThemeName| n@) == tv.take(i as int).filter(|n: Seq<char>| valid_theme_name(n)),
    {
        let t = trimmed(&pieces[i]);
        let s = string_from_chars(&t);
        proof {
            assert(tv.take(i + 1).drop_last() =~= tv.take(i as int));
            assert(tv[i as int] == t@);
            reveal(Seq::filter);
        }
        let ghost prev = out@;
        match ThemeName::new(s.as_str()) {
            Ok(name) => {
                out.push(name);
                assert(out@.map_values(|n: ThemeName| n@) =~= prev.map_values(|n: ThemeName| n@).push(t@));
            },
            Err(_) => {},
        }
    }
    assert(tv.take(pieces@.len() as int) =~= tv);
    if out.len() > 32 {
        out.truncate(32);
        assert(out@.map_values(|n: ThemeName| n@) =~= tv.filter(|n: Seq<char>| valid_theme_name(n)).take(32));
    }
    out
}

/// Reads `index.theme` text (see `spec_metadata`).
pub fn metadata(s: &str) -> (r: (Option<String>, Vec<ThemeName>))
    ensures
        (match r.0 {
            Some(n) => Some(n@),
            None => None::<Seq<char>>,
        }) == spec_metadata(s@).0,
        r.1@.map_values(|n: ThemeName| n@) == spec_metadata(s@).1,
{
    let ls = lines(s);
    let ghost lv = chars_vecs_view(ls@);
    let mut section = false;
    let mut name: Option<Vec<char>> = None;
    let mut names: Vec<ThemeName> = Vec::new();
    for i in 0..ls.len()
        invariant
            lv == chars_vecs_view(ls@),
            lv == spec_lines(s@),
            spec_meta_lines(lv.take(i as int)) == (
                section,
                match name {
                    Some(n) => Some(n@),
                    None => None::<Seq<char>>,
                },
                names@.map_values(|n: ThemeName| n@),
            ),
    {
        proof {
            assert(lv.take(i + 1).drop_last() =~= lv.take(i as int));
            assert(lv.take(i + 1).last() == ls@[i as int]@);
        }
        let l = trimmed(&ls[i]);
        if l.len() > 0 && l[0] == '[' {
            section = is_text(&l, "[Icon Theme]");
        } else if !section || (l.len() > 0 && l[0] == '#') {
        } else {
            match first_eq(&l) {
                None => {},
                Some(k) => {
                    let key = trimmed(&sub_chars(&l, 0, k));
                    let value = sub_chars(&l, k + 1, l.len());
                    proof {
                        assert(l@.take(k as int) =~= l@.subrange(0, k as int));
                        assert(l@.skip(k + 1) =~= l@.subrange(k + 1, l@.len() as int));
                    }
                    if is_text(&key, "Name") {
                        name = Some(trimmed(&value));
                    } else if is_text(&key, "Inherits") && names.len() == 0 {
                        names = inherits(&value);
                    }
                },
            }
        }
    }
    assert(lv.take(ls@.len() as int) =~= lv);
    let display = match name {
        Some(n) => Some(string_from_chars(&n)),
        None => None,
    };
    (display, names)
}

} // verus!
