//! Import planning for Windows cursor packages: role suggestions, the
//! reviewed mapping, uninstalled previews and trials. Nothing here can
//! reach desktop settings.
use crate::browser::{groups_view, role_groups, spec_role_groups, strs_view};
use crate::current_cursor::{Coverage, coverage, names_view, spec_missing, spec_roles};
use crate::model::{Error, Preview, Resolution, ThemeName, Variant, VariantV, clone_variants, never_cancels, valid_theme_name, variants_view};
use crate::paths::{Comp, PathPart, comps_lt, components, file_stem, lemma_comps_asym, lemma_comps_total, parts_less, parts_view, spec_components, spec_file_stem, spec_parent};
use crate::resize::spec_pixel_bytes;
use crate::settings::strings_view;
use crate::text::{concat2, concat3, spec_lowercase, str_eq, string_from_chars, to_lowercase};
use crate::trial::{TrialSet, pixel_bytes_within, prepare, source_thumbnail, MAX_BYTES};
use crate::windows::{Decoded, DecodedV};
use vstd::prelude::*;
use vstd::string::StringExecFns;

verus! {

/// The roles an import can fill: the browser's role groups, then four
/// more Windows roles.
pub open spec fn spec_import_roles() -> Seq<(Seq<char>, Seq<Seq<char>>)> {
    spec_role_groups() + seq![
            ("Help"@, seq!["help"@, "question_arrow"@, "whats_this"@]),
            ("Handwriting"@, seq!["pencil"@, "draft_small"@, "draft_large"@]),
            ("Resize other diagonal"@, seq!["nesw-resize"@, "fd_double_arrow"@, "size_bdiag"@, "ne-resize"@, "sw-resize"@, "top_right_corner"@, "bottom_left_corner"@]),
            ("Alternate select (up arrow)"@, seq!["up-arrow"@, "center_ptr"@])
        ]
}

/// The import roles: a label and alias file names; the first alias is the
/// file the role is installed as.
pub fn import_roles() -> (r: Vec<(&'static str, Vec<&'static str>)>)
    ensures
        groups_view(r@) == spec_import_roles(),
{
    let mut out = role_groups();
    let ghost first = groups_view(out@);
    out.push(("Help", vec!["help", "question_arrow", "whats_this"]));
    out.push(("Handwriting", vec!["pencil", "draft_small", "draft_large"]));
    out.push(("Resize other diagonal", vec!["nesw-resize", "fd_double_arrow", "size_bdiag", "ne-resize", "sw-resize", "top_right_corner", "bottom_left_corner"]));
    out.push(("Alternate select (up arrow)", vec!["up-arrow", "center_ptr"]));
    assert(groups_view(out@) =~~= spec_import_roles());
    out
}

pub proof fn lemma_import_roles_nonempty()
    ensures
        spec_import_roles().len() == 15,
        forall|i: int| 0 <= i < 15 ==> #[trigger] spec_import_roles()[i].1.len() > 0,
{
    let gs = spec_import_roles();
    assert(gs[0].1.len() > 0);
    assert(gs[1].1.len() > 0);
    assert(gs[2].1.len() > 0);
    assert(gs[3].1.len() > 0);
    assert(gs[4].1.len() > 0);
    assert(gs[5].1.len() > 0);
    assert(gs[6].1.len() > 0);
    assert(gs[7].1.len() > 0);
    assert(gs[8].1.len() > 0);
    assert(gs[9].1.len() > 0);
    assert(gs[10].1.len() > 0);
    assert(gs[11].1.len() > 0);
    assert(gs[12].1.len() > 0);
    assert(gs[13].1.len() > 0);
    assert(gs[14].1.len() > 0);
}

/// Common Windows file stems that suggest a role, beyond the alias names.
pub const EXTRA_NAMES: [(&'static str, usize); 26] = [
    ("normal", 0),
    ("normal select", 0),
    ("text select", 2),
    ("work", 4),
    ("horizontal resize", 5),
    ("vertical resize", 6),
    ("diagonal resize 1", 9),
    ("diagonal resize 2", 13),
    ("precision select", 10),
    ("help select", 11),
    ("handwriting", 12),
    ("alternate select", 14),
    ("arrow", 0),
    ("link", 1),
    ("hand", 1),
    ("ibeam", 2),
    ("busy", 3),
    ("working", 4),
    ("background", 4),
    ("unavailable", 8),
    ("precision", 10),
    ("appstarting", 4),
    ("help", 11),
    ("nwpen", 12),
    ("sizenesw", 13),
    ("uparrow", 14),
];

pub open spec fn extra_view(v: Seq<(&'static str, usize)>) -> Seq<(Seq<char>, usize)> {
    v.map_values(|p: (&'static str, usize)| (p.0@, p.1))
}

pub open spec fn spec_extra_names() -> Seq<(Seq<char>, usize)> {
    seq![
        ("normal"@, 0),
        ("normal select"@, 0),
        ("text select"@, 2),
        ("work"@, 4),
        ("horizontal resize"@, 5),
        ("vertical resize"@, 6),
        ("diagonal resize 1"@, 9),
        ("diagonal resize 2"@, 13),
        ("precision select"@, 10),
        ("help select"@, 11),
        ("handwriting"@, 12),
        ("alternate select"@, 14),
        ("arrow"@, 0),
        ("link"@, 1),
        ("hand"@, 1),
        ("ibeam"@, 2),
        ("busy"@, 3),
        ("working"@, 4),
        ("background"@, 4),
        ("unavailable"@, 8),
        ("precision"@, 10),
        ("appstarting"@, 4),
        ("help"@, 11),
        ("nwpen"@, 12),
        ("sizenesw"@, 13),
        ("uparrow"@, 14)
    ]
}

/// A file of an import package and what decoding it gave.
#[derive(Debug)]
pub struct Asset {
    pub path: String,
    pub decoded: Result<Decoded, Error>,
}

pub struct AssetV {
    pub path: Seq<char>,
    pub decoded: Result<DecodedV, Error>,
}

impl View for Asset {
    type V = AssetV;

    open spec fn view(&self) -> AssetV {
        AssetV {
            path: self.path@,
            decoded: match self.decoded {
                Ok(d) => Ok(d@),
                Err(e) => Err(e),
            },
        }
    }
}

impl Clone for Asset {
    fn clone(&self) -> (r: Self)
        ensures
            r@ == self@,
    {
        let decoded = match &self.decoded {
            Ok(d) => Ok(d.clone()),
            Err(e) => Err(e.clone()),
        };
        Asset { path: self.path.clone(), decoded }
    }
}

/// The cursor files of a package, and how many other files it held.
#[derive(Debug)]
pub struct Package {
    pub assets: Vec<Asset>,
    pub ignored: usize,
}

impl Default for Package {
    fn default() -> (r: Self)
        ensures
            r.assets@.len() == 0,
            r.ignored == 0,
    {
        Package { assets: Vec::new(), ignored: 0 }
    }
}

/// A directory and each of its ancestors, nearest first (`Path::ancestors`).
pub open spec fn spec_ancestors(c: Seq<Comp>) -> Seq<Seq<Comp>>
    decreases c.len(),
{
    if c.len() == 0 || c.last() is RootDir {
        seq![c]
    } else {
        seq![c] + spec_ancestors(c.drop_last())
    }
}

/// The directories that hold a package file: its parent and the parent's
/// ancestors.
pub open spec fn asset_dirs(p: Seq<char>) -> Seq<Seq<Comp>> {
    match spec_parent(spec_components(p)) {
        Some(d) => spec_ancestors(d),
        None => seq![],
    }
}

/// The directories of all package files, in file order.
pub open spec fn spec_dirs(ps: Seq<Seq<char>>) -> Seq<Seq<Comp>>
    decreases ps.len(),
{
    if ps.len() == 0 {
        seq![]
    } else {
        spec_dirs(ps.drop_last()) + asset_dirs(ps.last())
    }
}

/// Whether some package file lies at the top of the package.
pub open spec fn has_top_level(ps: Seq<Seq<char>>) -> bool {
    exists|k: int| 0 <= k < ps.len() && spec_parent(spec_components(#[trigger] ps[k])) == Some(Seq::<Comp>::empty())
}

/// A package root: a directory of a package file; the package top itself
/// only when a file lies there.
pub open spec fn is_package_root(ps: Seq<Seq<char>>, x: Seq<Comp>) -> bool {
    spec_dirs(ps).contains(x) && (x.len() > 0 || has_top_level(ps))
}

/// Paths in strictly increasing order.
pub open spec fn sorted_paths(v: Seq<Seq<Comp>>) -> bool {
    forall|i: int| 0 <= i && i + 1 < v.len() ==> #[trigger] comps_lt(v[i], v[i + 1])
}

pub open spec fn asset_paths(v: Seq<Asset>) -> Seq<Seq<char>> {
    v.map_values(|a: Asset| a.path@)
}

pub open spec fn parts_list(v: Seq<Vec<PathPart>>) -> Seq<Seq<Comp>> {
    v.map_values(|p: Vec<PathPart>| parts_view(p@))
}

fn parts_prefix(c: &Vec<PathPart>, n: usize) -> (r: Vec<PathPart>)
    requires
        n <= c@.len(),
    ensures
        parts_view(r@) == parts_view(c@).take(n as int),
{
    let mut out: Vec<PathPart> = Vec::new();
    for i in 0..n
        invariant
            n <= c@.len(),
            parts_view(out@) == parts_view(c@).take(i as int),
    {
        let q = match &c[i] {
            PathPart::RootDir => PathPart::RootDir,
            PathPart::CurDir => PathPart::CurDir,
            PathPart::ParentDir => PathPart::ParentDir,
            PathPart::Normal(x) => PathPart::Normal(crate::paths::copy_chars(x)),
        };
        let ghost prev = out@;
        out.push(q);
        assert(parts_view(out@) =~= parts_view(prev).push(c@[i as int]@));
        assert(parts_view(c@).take(i + 1) =~= parts_view(c@).take(i as int).push(c@[i as int]@));
    }
    out
}

fn insert_sorted(v: &mut Vec<Vec<PathPart>>, c: Vec<PathPart>)
    requires
        sorted_paths(parts_list(old(v)@)),
        parts_list(old(v)@).no_duplicates(),
    ensures
        sorted_paths(parts_list(final(v)@)),
        parts_list(final(v)@).no_duplicates(),
        forall|x: Seq<Comp>| #[trigger] parts_list(final(v)@).contains(x) <==> (parts_list(old(v)@).contains(x) || x == parts_view(c@)),
{
    let ghost old_list = parts_list(v@);
    let ghost cv = parts_view(c@);
    for i in 0..v.len()
        invariant
            old_list == parts_list(v@),
            sorted_paths(old_list),
            old_list.no_duplicates(),
            cv == parts_view(c@),
            forall|j: int| 0 <= j < i ==> old_list[j] != cv,
    {
        if crate::paths::same_components_of(&v[i], &c) {
            assert(old_list[i as int] == cv);
            return;
        }
    }
    assert(!old_list.contains(cv));
    let mut k: usize = 0;
    while k < v.len() && parts_less(&v[k], &c)
        invariant
            old_list == parts_list(v@),
            sorted_paths(old_list),
            old_list.no_duplicates(),
            !old_list.contains(cv),
            cv == parts_view(c@),
            k <= v@.len(),
            forall|j: int| 0 <= j < k ==> comps_lt(#[trigger] old_list[j], cv),
        decreases v@.len() - k,
    {
        k = k + 1;
    }
    proof {
        if k < old_list.len() {
            lemma_comps_total(old_list[k as int], cv);
            assert(old_list[k as int] != cv);
            assert(!comps_lt(old_list[k as int], cv));
        }
    }
    assert(k < old_list.len() ==> comps_lt(cv, old_list[k as int]));
    v.insert(k, c);
    let ghost nl = parts_list(v@);
    assert(nl =~= old_list.insert(k as int, cv));
    assert forall|i: int| 0 <= i && i + 1 < nl.len() implies #[trigger] comps_lt(nl[i], nl[i + 1]) by {
        if i + 1 < k {
            assert(nl[i] == old_list[i]);
            assert(nl[i + 1] == old_list[i + 1]);
            assert(comps_lt(old_list[i], old_list[i + 1]));
        } else if i + 1 == k {
            assert(nl[i] == old_list[i]);
            assert(comps_lt(old_list[i], cv));
        } else if i == k {
            assert(nl[i + 1] == old_list[i]);
        } else {
            let j = i - 1;
            assert(comps_lt(old_list[j], old_list[j + 1]));
            assert(j + 1 == i);
            assert(nl[i] == old_list[i - 1]);
            assert(nl[i + 1] == old_list[i]);
        }
    }
    assert forall|a: int, b: int| 0 <= a < nl.len() && 0 <= b < nl.len() && a != b implies nl[a] != nl[b] by {
        if a == k || b == k {
            if a != k {
                assert(old_list.contains(nl[a]));
            }
            if b != k {
                assert(old_list.contains(nl[b]));
            }
        } else {
            let oa = if a < k { a } else { a - 1 };
            let ob = if b < k { b } else { b - 1 };
            assert(nl[a] == old_list[oa]);
            assert(nl[b] == old_list[ob]);
        }
    }
    assert forall|x: Seq<Comp>| #[trigger] nl.contains(x) <==> (old_list.contains(x) || x == cv) by {
        if nl.contains(x) {
            let j = choose|j: int| 0 <= j < nl.len() && nl[j] == x;
            if j < k {
                assert(old_list[j] == x);
            } else if j > k {
                assert(old_list[j - 1] == x);
            }
        }
        if old_list.contains(x) {
            let j = choose|j: int| 0 <= j < old_list.len() && old_list[j] == x;
            if j < k {
                assert(nl[j] == x);
            } else {
                assert(nl[j + 1] == x);
            }
        }
        if x == cv {
            assert(nl[k as int] == x);
        }
    }
}

proof fn lemma_contains_concat(a: Seq<Seq<Comp>>, b: Seq<Seq<Comp>>, x: Seq<Comp>)
    ensures
        (a + b).contains(x) <==> (a.contains(x) || b.contains(x)),
{
    if (a + b).contains(x) {
        let j = choose|j: int| 0 <= j < (a + b).len() && (a + b)[j] == x;
        if j >= a.len() {
            assert(b[j - a.len()] == x);
        }
    }
    if a.contains(x) {
        let j = choose|j: int| 0 <= j < a.len() && a[j] == x;
        assert((a + b)[j] == x);
    }
    if b.contains(x) {
        let j = choose|j: int| 0 <= j < b.len() && b[j] == x;
        assert((a + b)[a.len() + j] == x);
    }
}

impl Package {
    /// The package directories that hold cursor files, with their
    /// ancestors, each once, in path order (see `is_package_root`).
    pub fn roots(&self) -> (r: Vec<String>)
        ensures
            exists|c: Seq<Seq<Comp>>| #![trigger crate::platform::rendered(c)]
                strings_view(r@) == crate::platform::rendered(c)
                && sorted_paths(c)
                && c.no_duplicates()
                && forall|x: Seq<Comp>| #[trigger] c.contains(x) <==> is_package_root(asset_paths(self.assets@), x),
    {
        let ghost ps = asset_paths(self.assets@);
        let mut top = false;
        for k in 0..self.assets.len()
            invariant
                ps == asset_paths(self.assets@),
                top <==> exists|j: int| 0 <= j < k && spec_parent(spec_components(#[trigger] ps[j])) == Some(Seq::<Comp>::empty()),
        {
            let c = components(self.assets[k].path.as_str());
            let single = c.len() == 1 && match &c[0] {
                PathPart::RootDir => false,
                _ => true,
            };
            proof {
                assert(ps[k as int] == self.assets@[k as int].path@);
                if c@.len() > 0 {
                    assert(parts_view(c@)[0] == c@[0]@);
                }
                if c@.len() == 1 {
                    assert(parts_view(c@).drop_last() =~= Seq::<Comp>::empty());
                }
                if spec_parent(spec_components(ps[k as int])) == Some(Seq::<Comp>::empty()) {
                    assert(parts_view(c@).len() == 1);
                }
            }
            if single {
                top = true;
            }
        }
        let mut acc: Vec<Vec<PathPart>> = Vec::new();
        proof {
            assert(ps.take(0) =~= seq![]);
        }
        for k in 0..self.assets.len()
            invariant
                ps == asset_paths(self.assets@),
                top == has_top_level(ps),
                sorted_paths(parts_list(acc@)),
                parts_list(acc@).no_duplicates(),
                forall|x: Seq<Comp>| #[trigger] parts_list(acc@).contains(x) <==> (spec_dirs(ps.take(k as int)).contains(x) && (x.len() > 0 || top)),
        {
            proof {
                assert(ps.take(k + 1).drop_last() =~= ps.take(k as int));
                assert(ps.take(k + 1).last() == ps[k as int]);
                assert(ps[k as int] == self.assets@[k as int].path@);
            }
            let ghost base = spec_dirs(ps.take(k as int));
            let c = components(self.assets[k].path.as_str());
            let has_parent = c.len() > 0 && match &c[c.len() - 1] {
                PathPart::RootDir => false,
                _ => true,
            };
            proof {
                if c@.len() > 0 {
                    assert(parts_view(c@).last() == c@[c@.len() - 1]@);
                }
            }
            if has_parent {
                let mut cur = parts_prefix(&c, c.len() - 1);
                assert(parts_view(c@).take(c@.len() - 1) =~= parts_view(c@).drop_last());
                let ghost d = spec_ancestors(parts_view(cur@));
                let ghost mut processed: Seq<Seq<Comp>> = seq![];
                let mut done = false;
                while !done
                    invariant
                        d == spec_ancestors_of_dir(ps[k as int]),
                        !done ==> d == processed + spec_ancestors(parts_view(cur@)),
                        done ==> d == processed,
                        sorted_paths(parts_list(acc@)),
                        parts_list(acc@).no_duplicates(),
                        forall|x: Seq<Comp>| #[trigger] parts_list(acc@).contains(x) <==> ((base.contains(x) || processed.contains(x)) && (x.len() > 0 || top)),
                    decreases cur@.len() + (if done { 0int } else { 1int }),
                {
                    let ghost cv = parts_view(cur@);
                    let ghost before = parts_list(acc@);
                    if cur.len() > 0 || top {
                        let copy = parts_prefix(&cur, cur.len());
                        assert(parts_view(cur@).take(cur@.len() as int) =~= parts_view(cur@));
                        insert_sorted(&mut acc, copy);
                    }
                    proof {
                        let np = processed.push(cv);
                        assert forall|x: Seq<Comp>| #[trigger] parts_list(acc@).contains(x) <==> ((base.contains(x) || np.contains(x)) && (x.len() > 0 || top)) by {
                            if np.contains(x) && x != cv {
                                let j = choose|j: int| 0 <= j < np.len() && np[j] == x;
                                assert(processed[j] == x);
                            }
                            if processed.contains(x) {
                                let j = choose|j: int| 0 <= j < processed.len() && processed[j] == x;
                                assert(np[j] == x);
                            }
                            assert(np[np.len() - 1] == cv);
                        }
                        processed = np;
                    }
                    let at_end = cur.len() == 0 || match &cur[cur.len() - 1] {
                        PathPart::RootDir => true,
                        _ => false,
                    };
                    proof {
                        if cur@.len() > 0 {
                            assert(parts_view(cur@).last() == cur@[cur@.len() - 1]@);
                        }
                    }
                    if at_end {
                        assert(spec_ancestors(cv) == seq![cv]);
                        assert(d =~= processed);
                        done = true;
                    } else {
                        cur.pop();
                        assert(parts_view(cur@) =~= cv.drop_last());
                        assert(d =~= processed + spec_ancestors(parts_view(cur@)));
                    }
                }
                proof {
                    assert(asset_dirs(ps[k as int]) == d);
                }
            } else {
                proof {
                    assert(asset_dirs(ps[k as int]) =~= seq![]);
                }
            }
            proof {
                assert(spec_dirs(ps.take(k + 1)) == base + asset_dirs(ps[k as int]));
                assert forall|x: Seq<Comp>| #[trigger] parts_list(acc@).contains(x) <==> (spec_dirs(ps.take(k + 1)).contains(x) && (x.len() > 0 || top)) by {
                    lemma_contains_concat(base, asset_dirs(ps[k as int]), x);
                }
            }
        }
        assert(ps.take(ps.len() as int) =~= ps);
        let r = crate::platform::render_paths(&acc);
        assert(crate::platform::comps_list_view(acc@) =~= parts_list(acc@));
        assert(crate::platform::rendered(parts_list(acc@)) == strings_view(r@));
        r
    }
}

/// Files in path order: no file is followed by one whose path sorts
/// before it.
pub open spec fn path_ordered(v: Seq<Asset>) -> bool {
    forall|i: int| 0 <= i && i + 1 < v.len() ==> !#[trigger] comps_lt(spec_components(v[i + 1].path@), spec_components(v[i].path@))
}

/// A package's files sorted by path (`Path` order), equal paths in their
/// original order.
pub fn sort_assets(assets: Vec<Asset>) -> (r: Vec<Asset>)
    ensures
        path_ordered(r@),
        r@.to_multiset() == assets@.to_multiset(),
{
    broadcast use vstd::seq_lib::group_to_multiset_ensures;
    let ghost all = assets@;
    let n = assets.len();
    let mut rest = assets;
    let mut out: Vec<Asset> = Vec::new();
    let mut keys: Vec<Vec<PathPart>> = Vec::new();
    let mut k: usize = 0;
    proof {
        assert(all.take(0) =~= seq![]);
        assert(all.skip(0) =~= all);
    }
    while rest.len() > 0
        invariant
            n == all.len(),
            k <= all.len(),
            rest@ == all.skip(k as int),
            keys@.len() == out@.len(),
            forall|j: int| 0 <= j < out@.len() ==> #[trigger] parts_view(keys@[j]@) == spec_components(out@[j].path@),
            path_ordered(out@),
            out@.to_multiset() == all.take(k as int).to_multiset(),
        decreases rest@.len(),
    {
        let t = rest.remove(0);
        proof {
            assert(all.take(k + 1) =~= all.take(k as int).push(t));
            assert(rest@ =~= all.skip(k + 1));
        }
        let key = components(t.path.as_str());
        let ghost old_out = out@;
        let ghost old_keys = keys@;
        let ghost tk = parts_view(key@);
        let mut p: usize = 0;
        while p < out.len() && !parts_less(&key, &keys[p])
            invariant
                old_out == out@,
                old_keys == keys@,
                keys@.len() == out@.len(),
                forall|j: int| 0 <= j < out@.len() ==> #[trigger] parts_view(keys@[j]@) == spec_components(out@[j].path@),
                tk == parts_view(key@),
                p <= out@.len(),
                forall|j: int| 0 <= j < p ==> !comps_lt(tk, #[trigger] spec_components(old_out[j].path@)),
            decreases out@.len() - p,
        {
            assert(parts_view(keys@[p as int]@) == spec_components(out@[p as int].path@));
            p = p + 1;
        }
        if p < out.len() {
            assert(parts_view(keys@[p as int]@) == spec_components(out@[p as int].path@));
        }
        proof {
            if p < old_out.len() {
                lemma_comps_asym(tk, spec_components(old_out[p as int].path@));
            }
        }
        let ghost tv = t;
        out.insert(p, t);
        keys.insert(p, key);
        let ghost nl = out@;
        assert(nl =~= old_out.insert(p as int, tv));
        assert(keys@ =~= old_keys.insert(p as int, key));
        proof {
            vstd::seq_lib::to_multiset_insert(old_out, p as int, tv);
            vstd::seq_lib::to_multiset_build(all.take(k as int), tv);
            assert(nl.to_multiset() == all.take(k + 1).to_multiset());
            assert forall|j: int| 0 <= j < nl.len() implies #[trigger] parts_view(keys@[j]@) == spec_components(nl[j].path@) by {
                if j < p {
                    assert(keys@[j] == old_keys[j]);
                } else if j > p {
                    assert(keys@[j] == old_keys[j - 1]);
                    assert(nl[j] == old_out[j - 1]);
                }
            }
        }
        assert forall|i: int| 0 <= i && i + 1 < nl.len() implies !#[trigger] comps_lt(spec_components(nl[i + 1].path@), spec_components(nl[i].path@)) by {
            if i + 1 < p {
                assert(nl[i] == old_out[i]);
                assert(nl[i + 1] == old_out[i + 1]);
                assert(!comps_lt(spec_components(old_out[i + 1].path@), spec_components(old_out[i].path@)));
            } else if i + 1 == p {
                assert(nl[i] == old_out[i]);
                assert(!comps_lt(tk, spec_components(old_out[i].path@)));
            } else if i == p {
                assert(nl[i + 1] == old_out[i]);
            } else {
                let j = i - 1;
                assert(nl[i] == old_out[j]);
                assert(nl[i + 1] == old_out[j + 1]);
                assert(!comps_lt(spec_components(old_out[j + 1].path@), spec_components(old_out[j].path@)));
            }
        }
        k = k + 1;
    }
    assert(all.take(k as int) =~= all);
    out
}

/// The ancestors of the directory holding a package file.
pub open spec fn spec_ancestors_of_dir(p: Seq<char>) -> Seq<Seq<Comp>> {
    spec_ancestors(spec_components(p).drop_last())
}

/// A reviewed import: the theme name, the file installed for each mapped
/// role, the labels of roles left unmapped, and notes on the conversion.
#[derive(Debug)]
pub struct Plan {
    pub name: ThemeName,
    pub mapped: Vec<(String, Asset)>,
    pub missing: Vec<&'static str>,
    pub notes: Vec<String>,
}

/// The role index a file name suggests: the first role with an alias equal
/// to the lower-cased file stem, else the first common Windows name equal
/// to it.
pub open spec fn spec_suggestion(path: Seq<char>) -> Option<usize> {
    match spec_file_stem(path) {
        None => None,
        Some(stem) => {
            let l = spec_lowercase(stem);
            match spec_first_group(spec_import_roles(), l) {
                Some(i) => Some(i),
                None => spec_first_extra(spec_extra_names(), l),
            }
        },
    }
}

/// The first group whose aliases include `n`.
pub open spec fn spec_first_group(gs: Seq<(Seq<char>, Seq<Seq<char>>)>, n: Seq<char>) -> Option<usize>
    decreases gs.len(),
{
    if gs.len() == 0 {
        None
    } else {
        match spec_first_group(gs.drop_last(), n) {
            Some(i) => Some(i),
            None => if gs.last().1.contains(n) {
                Some((gs.len() - 1) as usize)
            } else {
                None
            },
        }
    }
}

/// The role of the first common name equal to `n`.
pub open spec fn spec_first_extra(es: Seq<(Seq<char>, usize)>, n: Seq<char>) -> Option<usize>
    decreases es.len(),
{
    if es.len() == 0 {
        None
    } else {
        match spec_first_extra(es.drop_last(), n) {
            Some(i) => Some(i),
            None => if es.last().0 == n {
                Some(es.last().1)
            } else {
                None
            },
        }
    }
}

fn contains_alias(names: &Vec<&'static str>, n: &str) -> (r: bool)
    ensures
        r == strs_view(names@).contains(n@),
{
    for i in 0..names.len()
        invariant
            forall|j: int| 0 <= j < i ==> names@[j]@ != n@,
    {
        if str_eq(names[i], n) {
            assert(strs_view(names@)[i as int] == n@);
            return true;
        }
    }
    proof {
        if strs_view(names@).contains(n@) {
            let j = choose|j: int| 0 <= j < strs_view(names@).len() && strs_view(names@)[j] == n@;
            assert(names@[j]@ == n@);
        }
    }
    false
}

fn first_group(groups: &Vec<(&'static str, Vec<&'static str>)>, n: &str) -> (r: Option<usize>)
    ensures
        r == spec_first_group(groups_view(groups@), n@),
{
    let ghost gs = groups_view(groups@);
    let mut i: usize = 0;
    while i < groups.len()
        invariant
            gs == groups_view(groups@),
            i <= groups@.len(),
            spec_first_group(gs.take(i as int), n@) is None,
        decreases groups@.len() - i,
    {
        proof {
            assert(gs.take(i + 1).drop_last() =~= gs.take(i as int));
            assert(gs.take(i + 1).last() == gs[i as int]);
            assert(gs[i as int].1 == strs_view(groups@[i as int].1@));
        }
        if contains_alias(&groups[i].1, n) {
            proof {
                assert(spec_first_group(gs.take(i + 1), n@) == Some(i));
                lemma_first_group_prefix(gs, i + 1, n@);
            }
            return Some(i);
        }
        i = i + 1;
    }
    assert(gs.take(groups@.len() as int) =~= gs);
    None
}

fn first_extra(es: &[(&'static str, usize)], n: &str) -> (r: Option<usize>)
    ensures
        r == spec_first_extra(extra_view(es@), n@),
{
    let ghost ev = extra_view(es@);
    for k in 0..es.len()
        invariant
            ev == extra_view(es@),
            spec_first_extra(ev.take(k as int), n@) is None,
    {
        let (name, role) = es[k];
        proof {
            assert(ev.take(k + 1).drop_last() =~= ev.take(k as int));
            assert(ev.take(k + 1).last() == (name@, role));
        }
        if str_eq(name, n) {
            proof {
                assert(spec_first_extra(ev.take(k + 1), n@) == Some(role));
                lemma_first_extra_prefix(ev, k + 1, n@);
            }
            return Some(role);
        }
    }
    assert(ev.take(es@.len() as int) =~= ev);
    None
}

pub proof fn lemma_extra_names()
    ensures
        extra_view(EXTRA_NAMES@) == spec_extra_names(),
{
    assert(extra_view(EXTRA_NAMES@) =~~= spec_extra_names());
}

/// Suggests the role for a package file from its name. Users review and
/// may change every suggestion.
pub fn suggestion(path: &str) -> (r: Option<usize>)
    ensures
        r == spec_suggestion(path@),
{
    let stem = match file_stem(path) {
        Some(s) => s,
        None => {
            return None;
        },
    };
    let stem = string_from_chars(&stem);
    let lower = to_lowercase(stem.as_str());
    let groups = import_roles();
    match first_group(&groups, lower.as_str()) {
        Some(i) => Some(i),
        None => {
            proof {
                lemma_extra_names();
            }
            first_extra(&EXTRA_NAMES, lower.as_str())
        },
    }
}

pub proof fn lemma_first_group_prefix(gs: Seq<(Seq<char>, Seq<Seq<char>>)>, k: int, n: Seq<char>)
    requires
        0 <= k <= gs.len(),
        spec_first_group(gs.take(k), n) is Some,
    ensures
        spec_first_group(gs, n) == spec_first_group(gs.take(k), n),
    decreases gs.len() - k,
{
    if k < gs.len() {
        assert(gs.take(k + 1).drop_last() =~= gs.take(k));
        lemma_first_group_prefix(gs, k + 1, n);
    } else {
        assert(gs.take(k) =~= gs);
    }
}

pub proof fn lemma_first_extra_prefix(es: Seq<(Seq<char>, usize)>, k: int, n: Seq<char>)
    requires
        0 <= k <= es.len(),
        spec_first_extra(es.take(k), n) is Some,
    ensures
        spec_first_extra(es, n) == spec_first_extra(es.take(k), n),
    decreases es.len() - k,
{
    if k < es.len() {
        assert(es.take(k + 1).drop_last() =~= es.take(k));
        lemma_first_extra_prefix(es, k + 1, n);
    } else {
        assert(es.take(k) =~= es);
    }
}


/// A character allowed in an imported theme's name.
pub open spec fn allowed_name_char(c: char) -> bool {
    ('a' <= c && c <= 'z') || ('A' <= c && c <= 'Z') || ('0' <= c && c <= '9') || c == '-' || c
        == '_' || c == '.'
}

/// A portable name for an imported theme: 1 to 80 ASCII letters, digits,
/// dashes, underscores or dots, not starting with a dot.
pub open spec fn valid_import_name(s: Seq<char>) -> bool {
    &&& 1 <= s.len() <= 80
    &&& s[0] != '.'
    &&& forall|i: int| 0 <= i < s.len() ==> allowed_name_char(#[trigger] s[i])
}

pub proof fn lemma_import_name_is_theme_name(s: Seq<char>)
    requires
        valid_import_name(s),
    ensures
        valid_theme_name(s),
{
    assert(s != seq!['.']) by {
        if s == seq!['.'] {
            assert(s[0] == '.');
        }
    }
    assert(s != seq!['.', '.']) by {
        if s == seq!['.', '.'] {
            assert(s[0] == '.');
        }
    }
    assert forall|i: int| 0 <= i < s.len() implies !crate::model::forbidden_name_char(#[trigger] s[i]) by {
        assert(allowed_name_char(s[i]));
    }
}

fn valid_import_name_exec(name: &str) -> (r: bool)
    ensures
        r == valid_import_name(name@),
{
    let cs = crate::text::chars_of(name);
    if cs.len() == 0 || cs.len() > 80 || cs[0] == '.' {
        return false;
    }
    for i in 0..cs.len()
        invariant
            cs@ == name@,
            forall|j: int| 0 <= j < i ==> allowed_name_char(#[trigger] cs@[j]),
    {
        let c = cs[i];
        if !(('a' <= c && c <= 'z') || ('A' <= c && c <= 'Z') || ('0' <= c && c <= '9') || c == '-'
            || c == '_' || c == '.') {
            return false;
        }
    }
    true
}

pub open spec fn assignments_view(a: Seq<(usize, Asset)>) -> Seq<(usize, AssetV)> {
    a.map_values(|x: (usize, Asset)| (x.0, x.1@))
}

pub open spec fn mapped_view(m: Seq<(String, Asset)>) -> Seq<(Seq<char>, AssetV)> {
    m.map_values(|x: (String, Asset)| (x.0@, x.1@))
}

/// Pixel bytes of all frames of all variants.
pub open spec fn spec_variants_bytes(vs: Seq<VariantV>) -> int
    decreases vs.len(),
{
    if vs.len() == 0 {
        0
    } else {
        spec_variants_bytes(vs.drop_last()) + spec_pixel_bytes(vs.last().frames)
    }
}

/// The pixel bytes of `vs` when they are at most `cap`.
pub fn variants_bytes_within(vs: &Vec<Variant>, cap: usize) -> (r: Option<usize>)
    ensures
        match r {
            Some(n) => n == spec_variants_bytes(variants_view(vs@)) && n <= cap,
            None => spec_variants_bytes(variants_view(vs@)) > cap,
        },
{
    let ghost vv = variants_view(vs@);
    let mut n: usize = 0;
    for i in 0..vs.len()
        invariant
            vv == variants_view(vs@),
            n == spec_variants_bytes(vv.take(i as int)),
            n <= cap,
    {
        proof {
            assert(vv.take(i + 1).drop_last() =~= vv.take(i as int));
            assert(vv[i as int].frames == crate::model::frames_view(vs@[i as int].frames@));
        }
        match pixel_bytes_within(&vs[i].frames, cap - n) {
            Some(m) => {
                n = n + m;
            },
            None => {
                proof {
                    lemma_variants_bytes_prefix(vv, i + 1);
                }
                return None;
            },
        }
    }
    assert(vv.take(vs@.len() as int) =~= vv);
    Some(n)
}

pub proof fn lemma_variants_bytes_prefix(vs: Seq<VariantV>, k: int)
    requires
        0 <= k <= vs.len(),
    ensures
        spec_variants_bytes(vs.take(k)) <= spec_variants_bytes(vs),
    decreases vs.len() - k,
{
    if k < vs.len() {
        lemma_variants_bytes_prefix(vs, k + 1);
        assert(vs.take(k + 1).drop_last() =~= vs.take(k));
        crate::trial::lemma_pixel_bytes_nonneg(vs.take(k + 1).last().frames);
    } else {
        assert(vs.take(k) =~= vs);
    }
}

/// Checking the first `k` assignments: the roles seen and the pixel bytes
/// so far, or the first error: an unknown role, a role mapped twice, a file
/// that failed to decode, or more than 64 MiB of pixels.
pub open spec fn spec_plan_scan(asg: Seq<(usize, AssetV)>, k: int) -> Result<(Set<usize>, int), Error>
    decreases k,
{
    if k <= 0 {
        Ok((Set::empty(), 0))
    } else {
        match spec_plan_scan(asg, k - 1) {
            Err(e) => Err(e),
            Ok((seen, bytes)) => {
                let idx = asg[k - 1].0;
                if idx >= 15 {
                    Err(Error::Invalid("unknown role"))
                } else if seen.contains(idx) {
                    Err(Error::Invalid("multiple files mapped to one role"))
                } else {
                    match asg[k - 1].1.decoded {
                        Err(e) => Err(e),
                        Ok(d) => {
                            let b = bytes + spec_variants_bytes(d.variants);
                            if b > 67108864 {
                                Err(Error::LimitExceeded("theme decoded pixels"))
                            } else {
                                Ok((seen.insert(idx), b))
                            }
                        },
                    }
                }
            },
        }
    }
}

pub proof fn lemma_plan_scan_err(asg: Seq<(usize, AssetV)>, k: int, n: int)
    requires
        0 <= k <= n,
        spec_plan_scan(asg, k) is Err,
    ensures
        spec_plan_scan(asg, n) == spec_plan_scan(asg, k),
    decreases n - k,
{
    if k < n {
        lemma_plan_scan_err(asg, k, n - 1);
    }
}

/// The conversion notes of one file, each prefixed by the file's path.
pub open spec fn spec_prefixed(path: Seq<char>, notes: Seq<Seq<char>>) -> Seq<Seq<char>> {
    Seq::new(notes.len(), |i: int| path + ": "@ + notes[i])
}

/// The notes a role adds: shared edge/corner names, shared pane dividers.
pub open spec fn spec_role_notes(idx: usize) -> Seq<Seq<char>> {
    let label = spec_import_roles()[idx as int].0;
    (if idx == 5 || idx == 6 || idx == 9 || idx == 13 {
        seq![label + ": window-edge/corner names reuse the confirmed resize image on the same axis; pixels and hotspots are not rotated or mirrored."@]
    } else {
        seq![]
    }) + (if idx == 5 {
        seq![label + ": pane divider (col-resize) reuses the confirmed resize image on the same axis; no separate divider artwork was supplied."@]
    } else if idx == 6 {
        seq![label + ": pane divider (row-resize) reuses the confirmed resize image on the same axis; no separate divider artwork was supplied."@]
    } else {
        seq![]
    })
}

/// The notes of the first `k` assignments.
pub open spec fn spec_plan_notes(asg: Seq<(usize, AssetV)>, k: int) -> Seq<Seq<char>>
    decreases k,
{
    if k <= 0 {
        seq![]
    } else {
        let prev = spec_plan_notes(asg, k - 1);
        match asg[k - 1].1.decoded {
            Ok(d) => prev + spec_prefixed(asg[k - 1].1.path, d.notes) + spec_role_notes(asg[k - 1].0),
            Err(_) => prev,
        }
    }
}

/// The file installed for each of the first `k` assignments, under its
/// role's customary file name.
pub open spec fn spec_plan_mapped(asg: Seq<(usize, AssetV)>, k: int) -> Seq<(Seq<char>, AssetV)> {
    Seq::new(k as nat, |j: int| (spec_import_roles()[asg[j].0 as int].1[0], asg[j].1))
}

/// The labels of the roles not in `seen`, in role order.
pub open spec fn spec_unseen(gs: Seq<(Seq<char>, Seq<Seq<char>>)>, seen: Set<usize>) -> Seq<Seq<char>>
    decreases gs.len(),
{
    if gs.len() == 0 {
        seq![]
    } else {
        let p = spec_unseen(gs.drop_last(), seen);
        if seen.contains((gs.len() - 1) as usize) {
            p
        } else {
            p.push(gs.last().0)
        }
    }
}

pub open spec fn desktop_sizes_note() -> Seq<char> {
    "Desktop sizes: 16, 24, 32, 48, 64, 96 and 128 px plus original sizes. Missing sizes are area-resampled in premultiplied RGBA; aspect ratio and hotspot positions are scaled with nearest-pixel rounding, with hotspots clamped inside the image. Resampling changes pixels; original-size variants stay unchanged. Frame order and delays are preserved. Other requested sizes use the loader’s nearest available size; visual size across every toolkit is not guaranteed."@
}

/// Builds the reviewed import plan: a confirmed portable theme name, each
/// assigned file under its role's customary name, the labels of the roles
/// left unmapped, and the conversion notes.
pub fn plan(name: &str, assignments: &[(usize, Asset)], confirmed: bool) -> (r: Result<Plan, Error>)
    ensures
        !confirmed ==> r == Err::<Plan, Error>(Error::Invalid("confirm root, mappings, missing roles and conversion differences")),
        confirmed && !valid_import_name(name@) ==> r == Err::<Plan, Error>(Error::Invalid("theme name: 1–80 ASCII letters, digits, dash, underscore or dot; no leading dot")),
        confirmed && valid_import_name(name@) ==> ({
            let asg = assignments_view(assignments@);
            match spec_plan_scan(asg, asg.len() as int) {
                Err(e) => r == Err::<Plan, Error>(e),
                Ok((seen, _)) => if asg.len() == 0 {
                    r == Err::<Plan, Error>(Error::Missing)
                } else {
                    r matches Ok(p) && p.name@ == name@ && mapped_view(p.mapped@) == spec_plan_mapped(
                        asg,
                        asg.len() as int,
                    ) && strs_view(p.missing@) == spec_unseen(spec_import_roles(), seen)
                        && strings_view(p.notes@) == seq![desktop_sizes_note()] + spec_plan_notes(
                        asg,
                        asg.len() as int,
                    )
                },
            }
        }),
{
    if !confirmed {
        return Err(Error::Invalid("confirm root, mappings, missing roles and conversion differences"));
    }
    if !valid_import_name_exec(name) {
        return Err(Error::Invalid("theme name: 1–80 ASCII letters, digits, dash, underscore or dot; no leading dot"));
    }
    let ghost asg = assignments_view(assignments@);
    let groups = import_roles();
    let ghost gs = spec_import_roles();
    assert(groups_view(groups@).len() == groups@.len());
    let mut seen: Vec<bool> = Vec::new();
    for j in 0..15
        invariant
            seen@.len() == j,
            forall|q: int| 0 <= q < j ==> !seen@[q],
    {
        seen.push(false);
    }
    let ghost mut sset: Set<usize> = Set::empty();
    let mut bytes: usize = 0;
    let mut mapped: Vec<(String, Asset)> = Vec::new();
    let mut notes: Vec<String> = Vec::new();
    notes.push(String::from_str("Desktop sizes: 16, 24, 32, 48, 64, 96 and 128 px plus original sizes. Missing sizes are area-resampled in premultiplied RGBA; aspect ratio and hotspot positions are scaled with nearest-pixel rounding, with hotspots clamped inside the image. Resampling changes pixels; original-size variants stay unchanged. Frame order and delays are preserved. Other requested sizes use the loader’s nearest available size; visual size across every toolkit is not guaranteed."));
    assert(strings_view(notes@) =~= seq![desktop_sizes_note()]);
    for i in 0..assignments.len()
        invariant
            asg == assignments_view(assignments@),
            confirmed,
            valid_import_name(name@),
            groups_view(groups@) == gs,
            gs == spec_import_roles(),
            groups@.len() == 15,
            seen@.len() == 15,
            spec_plan_scan(asg, i as int) == Ok::<(Set<usize>, int), Error>((sset, bytes as int)),
            forall|q: int| 0 <= q < 15 ==> seen@[q] == sset.contains(q as usize),
            mapped_view(mapped@) == spec_plan_mapped(asg, i as int),
            strings_view(notes@) == seq![desktop_sizes_note()] + spec_plan_notes(asg, i as int),
            bytes <= 67108864,
    {
        let index = assignments[i].0;
        let asset = &assignments[i].1;
        proof {
            assert(asg[i as int] == (index, asset@));
        }
        if index >= groups.len() {
            proof {
                lemma_plan_scan_err(asg, i + 1, asg.len() as int);
            }
            return Err(Error::Invalid("unknown role"));
        }
        if seen[index] {
            proof {
                lemma_plan_scan_err(asg, i + 1, asg.len() as int);
            }
            return Err(Error::Invalid("multiple files mapped to one role"));
        }
        let data = match &asset.decoded {
            Ok(d) => d,
            Err(e) => {
                proof {
                    lemma_plan_scan_err(asg, i + 1, asg.len() as int);
                }
                return Err(e.clone());
            },
        };
        let n = match variants_bytes_within(&data.variants, 67108864 - bytes) {
            Some(n) => n,
            None => {
                proof {
                    lemma_plan_scan_err(asg, i + 1, asg.len() as int);
                }
                return Err(Error::LimitExceeded("theme decoded pixels"));
            },
        };
        bytes = bytes + n;
        seen.set(index, true);
        proof {
            sset = sset.insert(index);
        }
        let ghost before_notes = strings_view(notes@);
        let ghost dn = data@.notes;
        for j in 0..data.notes.len()
            invariant
                dn == strings_view(data.notes@),
                strings_view(notes@) == before_notes + spec_prefixed(asset.path@, dn.take(j as int)),
        {
            let ghost prev = notes@;
            notes.push(concat3(asset.path.as_str(), ": ", data.notes[j].as_str()));
            proof {
                assert(strings_view(notes@) =~= strings_view(prev).push(asset.path@ + ": "@ + dn[j as int]));
                assert(spec_prefixed(asset.path@, dn.take(j + 1)) =~= spec_prefixed(asset.path@, dn.take(j as int)).push(asset.path@ + ": "@ + dn[j as int]));
                assert(strings_view(notes@) =~= before_notes + spec_prefixed(asset.path@, dn.take(j + 1)));
            }
        }
        assert(dn.take(dn.len() as int) =~= dn);
        proof {
            lemma_import_roles_nonempty();
            assert(gs[index as int].1 == strs_view(groups@[index as int].1@));
        }
        let label = groups[index].0;
        let first = groups[index].1[0];
        proof {
            assert(gs[index as int].0 == label@);
            assert(gs[index as int].1.len() > 0);
            assert(gs[index as int].1[0] == first@);
        }
        let ghost mid = strings_view(notes@);
        if index == 5 || index == 6 || index == 9 || index == 13 {
            let ghost prev = notes@;
            notes.push(concat2(label, ": window-edge/corner names reuse the confirmed resize image on the same axis; pixels and hotspots are not rotated or mirrored."));
            assert(strings_view(notes@) =~= strings_view(prev).push(label@ + ": window-edge/corner names reuse the confirmed resize image on the same axis; pixels and hotspots are not rotated or mirrored."@));
        }
        if index == 5 {
            let ghost prev = notes@;
            notes.push(concat2(label, ": pane divider (col-resize) reuses the confirmed resize image on the same axis; no separate divider artwork was supplied."));
            assert(strings_view(notes@) =~= strings_view(prev).push(label@ + ": pane divider (col-resize) reuses the confirmed resize image on the same axis; no separate divider artwork was supplied."@));
        } else if index == 6 {
            let ghost prev = notes@;
            notes.push(concat2(label, ": pane divider (row-resize) reuses the confirmed resize image on the same axis; no separate divider artwork was supplied."));
            assert(strings_view(notes@) =~= strings_view(prev).push(label@ + ": pane divider (row-resize) reuses the confirmed resize image on the same axis; no separate divider artwork was supplied."@));
        }
        proof {
            assert(strings_view(notes@) =~= mid + spec_role_notes(index));
            assert(strings_view(notes@) =~= seq![desktop_sizes_note()] + spec_plan_notes(asg, i + 1));
        }
        let ghost prev_mapped = mapped@;
        let entry = (String::from_str(first), asset.clone());
        mapped.push(entry);
        proof {
            assert(mapped_view(mapped@) =~= mapped_view(prev_mapped).push((first@, asset@)));
            assert(spec_plan_mapped(asg, i + 1) =~= spec_plan_mapped(asg, i as int).push((first@, asset@)));
        }
    }
    if mapped.len() == 0 {
        return Err(Error::Missing);
    }
    let mut missing: Vec<&'static str> = Vec::new();
    for g in 0..groups.len()
        invariant
            groups_view(groups@) == gs,
            groups@.len() == 15,
            seen@.len() == 15,
            forall|q: int| 0 <= q < 15 ==> seen@[q] == sset.contains(q as usize),
            strs_view(missing@) == spec_unseen(gs.take(g as int), sset),
    {
        proof {
            assert(gs.take(g + 1).drop_last() =~= gs.take(g as int));
            assert(gs.take(g + 1).last() == gs[g as int]);
            assert(gs[g as int].0 == groups@[g as int].0@);
        }
        if !seen[g] {
            missing.push(groups[g].0);
            assert(strs_view(missing@) =~= spec_unseen(gs.take(g + 1), sset));
        }
    }
    assert(gs.take(15) =~= gs);
    proof {
        lemma_import_name_is_theme_name(name@);
    }
    let theme = match ThemeName::new(name) {
        Ok(t) => t,
        Err(e) => {
            return Err(e);
        },
    };
    Ok(Plan { name: theme, mapped, missing, notes })
}


/// The placeholder theme name of uninstalled previews is a valid name.
pub proof fn lemma_placeholder_name()
    ensures
        valid_theme_name("Uninstalled-preview"@),
{
    reveal_strlit("Uninstalled-preview");
    let s = "Uninstalled-preview"@;
    assert(s.len() == 19);
    assert forall|i: int| 0 <= i < s.len() implies !crate::model::forbidden_name_char(#[trigger] s[i]) by {
        if i == 0 {
            assert(s[0] == 'U');
        }
        if i == 1 {
            assert(s[1] == 'n');
        }
        if i == 2 {
            assert(s[2] == 'i');
        }
        if i == 3 {
            assert(s[3] == 'n');
        }
        if i == 4 {
            assert(s[4] == 's');
        }
        if i == 5 {
            assert(s[5] == 't');
        }
        if i == 6 {
            assert(s[6] == 'a');
        }
        if i == 7 {
            assert(s[7] == 'l');
        }
        if i == 8 {
            assert(s[8] == 'l');
        }
        if i == 9 {
            assert(s[9] == 'e');
        }
        if i == 10 {
            assert(s[10] == 'd');
        }
        if i == 11 {
            assert(s[11] == '-');
        }
        if i == 12 {
            assert(s[12] == 'p');
        }
        if i == 13 {
            assert(s[13] == 'r');
        }
        if i == 14 {
            assert(s[14] == 'e');
        }
        if i == 15 {
            assert(s[15] == 'v');
        }
        if i == 16 {
            assert(s[16] == 'i');
        }
        if i == 17 {
            assert(s[17] == 'e');
        }
        if i == 18 {
            assert(s[18] == 'w');
        }
    }
    assert(s != seq!['.']);
    assert(s != seq!['.', '.']);
}

/// Previews an uninstalled file as a direct role file of a placeholder theme.
pub fn preview(asset: &Asset, role: &str) -> (r: Result<Preview, Error>)
    ensures
        match asset@.decoded {
            Err(e) => r == Err::<Preview, Error>(e),
            Ok(d) => r matches Ok(p) && p.requested@ == "Uninstalled-preview"@ && p.role@ == role@
                && p.source@ == asset.path@ && strings_view(p.chain@) == seq![
                "Uninstalled import · direct file; no inheritance"@,
            ] && p.resolution == Resolution::Direct && variants_view(p.variants@) == d.variants,
        },
{
    let d = match &asset.decoded {
        Ok(d) => d,
        Err(e) => {
            return Err(e.clone());
        },
    };
    proof {
        lemma_placeholder_name();
    }
    let requested = match ThemeName::new("Uninstalled-preview") {
        Ok(t) => t,
        Err(e) => {
            return Err(e);
        },
    };
    let mut chain = Vec::new();
    chain.push(String::from_str("Uninstalled import · direct file; no inheritance"));
    assert(strings_view(chain@) =~= seq!["Uninstalled import · direct file; no inheritance"@]);
    Ok(
        Preview {
            requested,
            role: String::from_str(role),
            source: asset.path.clone(),
            chain,
            resolution: Resolution::Direct,
            variants: clone_variants(&d.variants),
        },
    )
}

/// Role `role` of an uninstalled trial at `size`, from assigned file `a`:
/// the file's decoding error, or its preview `w.0` prepared
/// (`spec_prepare_result`) into `w.1`; the entry is that result, or the
/// refusal of a prepared preview once the trial's pixels are spent.
pub open spec fn trial_role(a: AssetV, role: Seq<char>, size: u32, w: (Option<Preview>, Result<Preview, Error>), entry: Result<Preview, Error>) -> bool {
    &&& match a.decoded {
        Err(e) => w.1 == Err::<Preview, Error>(e),
        Ok(d) => w.0 matches Some(p) && assignment_preview(p, a, role) && variants_view(p.variants@) == d.variants
            && crate::trial::spec_prepare_result(p, size, w.1),
    }
    &&& entry == w.1 || (w.1 is Ok && entry == Err::<Preview, Error>(Error::LimitExceeded("trial pixels")))
}

/// A trial preview made from an assigned file: the file itself, direct,
/// under the given role name, for the uninstalled theme.
pub open spec fn assignment_preview(q: Preview, a: AssetV, role: Seq<char>) -> bool {
    &&& q.requested@ == "Uninstalled-preview"@
    &&& q.role@ == role
    &&& q.source@ == a.path
    &&& q.resolution == Resolution::Direct
}

/// The first assignment to role `g`.
pub open spec fn spec_assigned(asg: Seq<(usize, AssetV)>, g: usize) -> Option<int> {
    if exists|k: int| 0 <= k < asg.len() && asg[k].0 == g {
        Some(choose|k: int| 0 <= k < asg.len() && asg[k].0 == g && forall|q: int| 0 <= q < k ==> asg[q].0 != g)
    } else {
        None
    }
}

fn find_assigned(assignments: &[(usize, Asset)], g: usize) -> (r: Option<usize>)
    ensures
        match r {
            Some(k) => spec_assigned(assignments_view(assignments@), g) == Some(k as int) && k < assignments@.len(),
            None => spec_assigned(assignments_view(assignments@), g) is None,
        },
{
    let ghost asg = assignments_view(assignments@);
    for k in 0..assignments.len()
        invariant
            asg == assignments_view(assignments@),
            forall|q: int| 0 <= q < k ==> asg[q].0 != g,
    {
        assert(asg[k as int].0 == assignments@[k as int].0);
        if assignments[k].0 == g {
            proof {
                let c = choose|c: int| 0 <= c < asg.len() && asg[c].0 == g && forall|q: int| 0 <= q < c ==> asg[q].0 != g;
                if c < k {
                } else if c > k {
                    assert(asg[k as int].0 == g);
                }
            }
            return Some(k);
        }
    }
    None
}

/// Tries an uninstalled import: per role group, the file assigned to that
/// group (none means `Missing`, never a fallback) is previewed, thumbnailed
/// and prepared at `size`. Only cancellation fails the whole trial.
#[verifier::rlimit(50)]
#[verifier::spinoff_prover]
pub fn trial<F: Fn() -> bool>(assignments: &[(usize, Asset)], size: u32, cancel: &F) -> (r: Result<TrialSet, Error>)
    requires
        cancel.requires(()),
    ensures
        r matches Err(e) ==> e == Error::Cancelled,
        never_cancels(cancel) ==> r is Ok,
        r matches Ok(t) ==> {
            &&& t.theme@ == "Uninstalled-preview"@
            &&& t.size == size
            &&& t.thumbnails@.len() == 11
            &&& t.roles@.len() == 11
            &&& forall|i: int| 0 <= i < 11 ==> (#[trigger] t.roles@[i]).0@ == spec_role_groups()[i].0
            &&& forall|i: int| 0 <= i < 11 && spec_assigned(assignments_view(assignments@), i as usize) is None
                ==> t.roles@[i].1 == Err::<Preview, Error>(Error::Missing) && t.thumbnails@[i] == Err::<Variant, Error>(Error::Missing)
            &&& forall|i: int| 0 <= i < 11 ==> ((#[trigger] t.roles@[i]).1 matches Ok(q) ==> q.variants@.len() == 1)
            &&& forall|i: int| 0 <= i < 11 ==> ((#[trigger] t.roles@[i]).1 matches Ok(q) ==> (spec_assigned(
                assignments_view(assignments@),
                i as usize,
            ) matches Some(k) && assignment_preview(q, assignments_view(assignments@)[k].1, spec_role_groups()[i].1[0])))
            &&& crate::trial::spec_trial_bytes(t.roles@) <= MAX_BYTES
            &&& exists|ws: Seq<(Option<Preview>, Result<Preview, Error>)>| #[trigger] ws.len() == 11 && forall|i: int|
                #![trigger ws[i]]
                0 <= i < 11 ==> (spec_assigned(assignments_view(assignments@), i as usize) matches Some(k) ==> trial_role(
                    assignments_view(assignments@)[k].1,
                    spec_role_groups()[i].1[0],
                    size,
                    ws[i],
                    t.roles@[i].1,
                ))
        },
{
    let groups = role_groups();
    let ghost mut ws: Seq<(Option<Preview>, Result<Preview, Error>)> = seq![];
    proof {
        lemma_placeholder_name();
    }
    let theme = match ThemeName::new("Uninstalled-preview") {
        Ok(t) => t,
        Err(e) => {
            return Err(Error::Cancelled);
        },
    };
    let mut roles: Vec<(&'static str, Result<Preview, Error>)> = Vec::new();
    let mut thumbnails: Vec<Result<Variant, Error>> = Vec::new();
    let mut thumbnail_bytes: usize = 0;
    let mut bytes: usize = 0;
    assert(groups_view(groups@).len() == groups@.len());
    for g in 0..groups.len()
        invariant
            cancel.requires(()),
            groups_view(groups@) == spec_role_groups(),
            groups@.len() == 11,
            theme@ == "Uninstalled-preview"@,
            roles@.len() == g,
            thumbnails@.len() == g,
            bytes <= g * MAX_BYTES,
            crate::trial::spec_trial_bytes(roles@) <= bytes,
            crate::trial::spec_trial_bytes(roles@) <= MAX_BYTES,
            forall|i: int| 0 <= i < g ==> ((#[trigger] roles@[i]).1 matches Ok(q) ==> q.variants@.len() == 1),
            forall|i: int| 0 <= i < g ==> ((#[trigger] roles@[i]).1 matches Ok(q) ==> (spec_assigned(
                assignments_view(assignments@),
                i as usize,
            ) matches Some(k) && assignment_preview(q, assignments_view(assignments@)[k].1, spec_role_groups()[i].1[0]))),
            forall|i: int| 0 <= i < g ==> (#[trigger] roles@[i]).0@ == spec_role_groups()[i].0,
            ws.len() == g,
            forall|i: int| #![trigger ws[i]] 0 <= i < g ==> (spec_assigned(assignments_view(assignments@), i as usize) matches Some(k) ==> trial_role(
                assignments_view(assignments@)[k].1,
                spec_role_groups()[i].1[0],
                size,
                ws[i],
                roles@[i].1,
            )),
            forall|i: int| 0 <= i < g && spec_assigned(assignments_view(assignments@), i as usize) is None
                ==> roles@[i].1 == Err::<Preview, Error>(Error::Missing) && thumbnails@[i] == Err::<Variant, Error>(Error::Missing),
    {
        if cancel() {
            return Err(Error::Cancelled);
        }
        let label = groups[g].0;
        proof {
            assert(spec_role_groups()[g as int].0 == label@);
            assert(spec_role_groups()[g as int].1 == strs_view(groups@[g as int].1@));
            assert(spec_role_groups()[g as int].1.len() > 0);
        }
        let p = match find_assigned(assignments, g) {
            Some(k) => preview(&assignments[k].1, groups[g].1[0]),
            None => Err(Error::Missing),
        };
        let ghost pv: Option<Preview> = if p is Ok {
            Some(p->Ok_0)
        } else {
            None
        };
        let thumbnail = match &p {
            Ok(q) => source_thumbnail(q, &mut thumbnail_bytes),
            Err(e) => Err(e.clone()),
        };
        thumbnails.push(thumbnail);
        let prepared = match p {
            Ok(q) => prepare(q, size, cancel),
            Err(e) => Err(e),
        };
        let ghost prep = prepared;
        let checked = match prepared {
            Ok(q) => {
                let n = match pixel_bytes_within(&q.variants[0].frames, MAX_BYTES) {
                    Some(n) => n,
                    None => 0,
                };
                bytes = bytes + n;
                if bytes > MAX_BYTES {
                    Err(Error::LimitExceeded("trial pixels"))
                } else {
                    Ok(q)
                }
            },
            Err(e) => Err(e),
        };
        let ghost old_roles = roles@;
        roles.push((label, checked));
        proof {
            assert(roles@.drop_last() =~= old_roles);
            ws = ws.push((pv, prep));
            assert forall|i: int| #![trigger ws[i]] 0 <= i < g + 1 implies (spec_assigned(assignments_view(assignments@), i as usize) matches Some(k) ==> trial_role(
                assignments_view(assignments@)[k].1,
                spec_role_groups()[i].1[0],
                size,
                ws[i],
                roles@[i].1,
            )) by {
                if i < g {
                    assert(roles@[i] == old_roles[i]);
                }
            }
        }
    }
    let t = TrialSet { theme, size, thumbnails, roles };
    assert(ws.len() == 11);
    Ok(t)
}

/// The system test files that installing this plan provides: every alias
/// of each mapped role.
pub open spec fn spec_plan_names(roles: Seq<Seq<char>>) -> Seq<Seq<char>>
    decreases roles.len(),
{
    if roles.len() == 0 {
        seq![]
    } else {
        spec_plan_names(roles.drop_last()) + match spec_group_of_first(spec_import_roles(), roles.last()) {
            Some(g) => spec_import_roles()[g as int].1,
            None => seq![],
        }
    }
}

/// The first group whose customary name is `n`.
pub open spec fn spec_group_of_first(gs: Seq<(Seq<char>, Seq<Seq<char>>)>, n: Seq<char>) -> Option<int> {
    if exists|g: int| 0 <= g < gs.len() && gs[g].1.len() > 0 && gs[g].1[0] == n {
        Some(choose|g: int| 0 <= g < gs.len() && gs[g].1.len() > 0 && gs[g].1[0] == n && forall|q: int| 0 <= q < g ==> !(gs[q].1.len() > 0 && gs[q].1[0] == n))
    } else {
        None
    }
}

pub(crate) fn group_of_first(groups: &Vec<(&'static str, Vec<&'static str>)>, n: &str) -> (r: Option<usize>)
    ensures
        match r {
            Some(g) => spec_group_of_first(groups_view(groups@), n@) == Some(g as int) && g < groups@.len(),
            None => spec_group_of_first(groups_view(groups@), n@) is None,
        },
{
    let ghost gs = groups_view(groups@);
    for g in 0..groups.len()
        invariant
            gs == groups_view(groups@),
            forall|q: int| 0 <= q < g ==> !(gs[q].1.len() > 0 && gs[q].1[0] == n@),
    {
        proof {
            assert(gs[g as int].1 == strs_view(groups@[g as int].1@));
        }
        if groups[g].1.len() > 0 && str_eq(groups[g].1[0], n) {
            proof {
                let c = choose|c: int| 0 <= c < gs.len() && gs[c].1.len() > 0 && gs[c].1[0] == n@ && forall|q: int| 0 <= q < c ==> !(gs[q].1.len() > 0 && gs[q].1[0] == n@);
                if c > g {
                    assert(!(gs[g as int].1.len() > 0 && gs[g as int].1[0] == n@));
                }
            }
            return Some(g);
        }
    }
    None
}

impl Plan {
    /// The system test coverage that installing this plan gives.
    #[verifier::rlimit(40)]
    #[verifier::spinoff_prover]
    pub fn system_coverage(&self) -> (r: Coverage)
        ensures
            crate::current_cursor::pairs_view(r.missing@) == spec_missing(
                spec_roles(),
                spec_plan_names(self.mapped@.map_values(|m: (String, Asset)| m.0@)),
            ),
    {
        let groups = import_roles();
        let ghost mr = self.mapped@.map_values(|m: (String, Asset)| m.0@);
        let mut names: Vec<&str> = Vec::new();
        for i in 0..self.mapped.len()
            invariant
                groups_view(groups@) == spec_import_roles(),
                mr == self.mapped@.map_values(|m: (String, Asset)| m.0@),
                names_view(names@) == spec_plan_names(mr.take(i as int)),
        {
            proof {
                assert(mr.take(i + 1).drop_last() =~= mr.take(i as int));
                assert(mr.take(i + 1).last() == self.mapped@[i as int].0@);
            }
            let ghost before = names_view(names@);
            match group_of_first(&groups, self.mapped[i].0.as_str()) {
                Some(g) => {
                    let aliases = &groups[g].1;
                    proof {
                        assert(spec_import_roles()[g as int].1 == strs_view(aliases@));
                    }
                    for j in 0..aliases.len()
                        invariant
                            names_view(names@) == before + strs_view(aliases@).take(j as int),
                    {
                        let ghost prev = names@;
                        names.push(aliases[j]);
                        proof {
                            assert(names_view(names@) =~= names_view(prev).push(aliases@[j as int]@));
                            assert(strs_view(aliases@).take(j + 1) =~= strs_view(aliases@).take(j as int).push(aliases@[j as int]@));
                            assert(names_view(names@) =~= before + strs_view(aliases@).take(j + 1));
                        }
                    }
                    assert(strs_view(aliases@).take(aliases@.len() as int) =~= strs_view(aliases@));
                },
                None => {
                    assert(names_view(names@) =~= before + seq![]);
                },
            }
        }
        assert(mr.take(self.mapped@.len() as int) =~= mr);
        coverage(names.as_slice())
    }
}

/// Whether a character may stay in a suggested theme name.
pub open spec fn name_char(c: char) -> bool {
    ('a' <= c && c <= 'z') || ('A' <= c && c <= 'Z') || ('0' <= c && c <= '9') || c == '-' || c == '_'
}

/// The characters of `s` that may stay in a name, in order.
pub open spec fn spec_name_chars(s: Seq<char>) -> Seq<char>
    decreases s.len(),
{
    if s.len() == 0 {
        seq![]
    } else {
        let p = spec_name_chars(s.drop_last());
        if name_char(s.last()) {
            p.push(s.last())
        } else {
            p
        }
    }
}

/// The theme name suggested for a package: the ASCII letters, digits,
/// hyphens and underscores of its file stem, at most 80, or
/// "Imported-Cursors" when none remain.
pub open spec fn spec_suggested_name(source: Seq<char>) -> Seq<char> {
    let stem = match spec_file_stem(source) {
        Some(n) => n,
        None => seq![],
    };
    let kept = spec_name_chars(stem);
    let name = if kept.len() <= 80 { kept } else { kept.take(80) };
    if name.len() == 0 {
        "Imported-Cursors"@
    } else {
        name
    }
}

/// An editable theme name for a package (see `spec_suggested_name`);
/// planning still validates the final name.
pub fn suggested_name(source: &str) -> (r: String)
    ensures
        r@ == spec_suggested_name(source@),
{
    let stem = match file_stem(source) {
        Some(n) => n,
        None => Vec::new(),
    };
    let ghost sv = stem@;
    let mut kept: Vec<char> = Vec::new();
    proof {
        assert(sv.take(0) =~= seq![]);
    }
    for i in 0..stem.len()
        invariant
            sv == stem@,
            kept@ == spec_name_chars(sv.take(i as int)),
    {
        proof {
            assert(sv.take(i + 1).drop_last() =~= sv.take(i as int));
            assert(sv.take(i + 1).last() == stem@[i as int]);
        }
        let c = stem[i];
        if ('a' <= c && c <= 'z') || ('A' <= c && c <= 'Z') || ('0' <= c && c <= '9') || c == '-' || c == '_' {
            kept.push(c);
        }
    }
    assert(sv.take(sv.len() as int) =~= sv);
    let ghost all = kept@;
    kept.truncate(80);
    if kept.len() == 0 {
        String::from_str("Imported-Cursors")
    } else {
        string_from_chars(&kept)
    }
}

} // verus!
