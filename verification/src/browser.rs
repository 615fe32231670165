//! Theme browsing: selection across refreshes, search, ordering, thumbnail
//! choice and the role list.
use crate::model::{Error, Frame, Preview, Resolution, Theme, ThemeName, Variant, VariantV, variants_view};
use crate::paths::{is_parent_of, spec_components, spec_parent};
use crate::settings::strings_view;
use crate::text::{concat2, concat3, contains_str, is_substring, spec_lowercase, spec_trim, str_eq, to_lowercase, trim};
use vstd::prelude::*;
use vstd::string::StringExecFns;

verus! {

/// The theme list's selection and search text.
pub struct Browser {
    pub selected: Option<ThemeName>,
    pub query: String,
    pub initialized: bool,
}

impl Default for Browser {
    fn default() -> (r: Self)
        ensures
            r.selected is None,
            r.query@.len() == 0,
            !r.initialized,
    {
        Browser { selected: None, query: String::new(), initialized: false }
    }
}

pub open spec fn theme_names(ts: Seq<Theme>) -> Seq<Seq<char>> {
    ts.map_values(|t: Theme| t.name@)
}

pub open spec fn opt_name_view(o: Option<ThemeName>) -> Option<Seq<char>> {
    match o {
        Some(n) => Some(n@),
        None => None,
    }
}

pub open spec fn opt_str_view(o: Option<&str>) -> Option<Seq<char>> {
    match o {
        Some(s) => Some(s@),
        None => None,
    }
}

pub open spec fn opt_string_view(o: Option<String>) -> Option<Seq<char>> {
    match o {
        Some(s) => Some(s@),
        None => None,
    }
}

/// The first selection: the current theme when listed, else the first theme.
pub open spec fn spec_initial_selection(names: Seq<Seq<char>>, current: Option<Seq<char>>) -> Option<
    Seq<char>,
> {
    match current {
        Some(n) if names.contains(n) => Some(n),
        _ => if names.len() > 0 {
            Some(names[0])
        } else {
            None
        },
    }
}

/// The first selection is always a listed theme, and there is one whenever
/// the list is not empty: the current theme when it is listed, otherwise the
/// first theme of the list.
pub proof fn law_initial_selection(names: Seq<Seq<char>>, current: Option<Seq<char>>)
    ensures
        forall|n: Seq<char>| spec_initial_selection(names, current) == Some(n) ==> names.contains(n),
        names.len() > 0 ==> spec_initial_selection(names, current) is Some,
        forall|n: Seq<char>| current == Some(n) && names.contains(n) ==> spec_initial_selection(names, current) == Some(n),
        (forall|n: Seq<char>| current == Some(n) ==> !names.contains(n)) && names.len() > 0 ==> spec_initial_selection(
            names,
            current,
        ) == Some(names[0]),
        names.len() == 0 ==> spec_initial_selection(names, current) is None,
{
    if names.len() > 0 {
        assert(names.contains(names[0]));
    }
}

/// The notice for a current theme that is not listed.
pub open spec fn spec_missing_current(names: Seq<Seq<char>>, current: Option<Seq<char>>) -> Option<
    Seq<char>,
> {
    match current {
        Some(n) => if names.contains(n) {
            None
        } else {
            Some(
                "Current theme ‘"@ + n + "’ is not in the verified list. Your settings are unchanged."@,
            )
        },
        None => None,
    }
}

/// The index of the first theme named `n`.
fn find_theme(themes: &[Theme], n: &str) -> (r: Option<usize>)
    ensures
        match r {
            Some(i) => i < themes@.len() && themes@[i as int].name@ == n@,
            None => !theme_names(themes@).contains(n@),
        },
{
    for i in 0..themes.len()
        invariant
            forall|j: int| 0 <= j < i ==> themes@[j].name@ != n@,
    {
        if str_eq(themes[i].name.as_str(), n) {
            return Some(i);
        }
    }
    proof {
        if theme_names(themes@).contains(n@) {
            let j = choose|j: int| 0 <= j < theme_names(themes@).len() && theme_names(themes@)[j] == n@;
            assert(themes@[j].name@ == n@);
        }
    }
    None
}

impl Browser {
    /// Keeps the selection consistent with a fresh theme list. The first call
    /// selects the current theme (or the first theme) and reports a current
    /// theme that is not listed; later calls keep a listed selection and drop
    /// an unlisted one with a notice. The query is never touched.
    pub fn reconcile(&mut self, themes: &[Theme], current: Option<&str>) -> (r: Option<String>)
        ensures
            final(self).query@ == old(self).query@,
            final(self).initialized,
            !old(self).initialized && themes@.len() > 0 ==> final(self).selected is Some,
            !old(self).initialized ==> {
                &&& opt_name_view(final(self).selected) == spec_initial_selection(
                    theme_names(themes@),
                    opt_str_view(current),
                )
                &&& opt_string_view(r) == spec_missing_current(
                    theme_names(themes@),
                    opt_str_view(current),
                )
            },
            old(self).initialized ==> match old(self).selected {
                Some(s) => if theme_names(themes@).contains(s@) {
                    opt_name_view(final(self).selected) == Some(s@) && r is None
                } else {
                    final(self).selected is None && opt_string_view(r) == Some(
                        "‘"@ + s@ + "’ is no longer available. Select another theme."@,
                    )
                },
                None => final(self).selected is None && r is None,
            },
    {
        if !self.initialized {
            self.initialized = true;
            let found = match current {
                Some(n) => find_theme(themes, n),
                None => None,
            };
            self.selected = match found {
                Some(i) => Some(themes[i].name.clone()),
                None => if themes.len() > 0 {
                    Some(themes[0].name.clone())
                } else {
                    None
                },
            };
            proof {
                if themes@.len() > 0 {
                    assert(theme_names(themes@)[0] == themes@[0].name@);
                }
                if let Some(i) = found {
                    assert(theme_names(themes@)[i as int] == themes@[i as int].name@);
                }
            }
            return match current {
                Some(n) => match found {
                    Some(_) => None,
                    None => Some(
                        concat3(
                            "Current theme ‘",
                            n,
                            "’ is not in the verified list. Your settings are unchanged.",
                        ),
                    ),
                },
                None => None,
            };
        }
        let gone = match &self.selected {
            Some(s) => {
                let f = find_theme(themes, s.as_str());
                proof {
                    if let Some(i) = f {
                        assert(theme_names(themes@)[i as int] == themes@[i as int].name@);
                    }
                }
                f.is_none()
            },
            None => false,
        };
        if gone {
            let notice = match &self.selected {
                Some(s) => concat3("‘", s.as_str(), "’ is no longer available. Select another theme."),
                None => String::new(),
            };
            self.selected = None;
            return Some(notice);
        }
        None
    }
}

/// Whether a theme's display name or name contains the trimmed query,
/// compared in lower case.
pub fn matches(theme: &Theme, query: &str) -> (r: bool)
    ensures
        r == (is_substring(spec_lowercase(theme.display@), spec_lowercase(spec_trim(query@)))
            || is_substring(spec_lowercase(theme.name@), spec_lowercase(spec_trim(query@)))),
{
    let q = to_lowercase(trim(query));
    let d = to_lowercase(theme.display.as_str());
    if contains_str(d.as_str(), q.as_str()) {
        return true;
    }
    let n = to_lowercase(theme.name.as_str());
    contains_str(n.as_str(), q.as_str())
}

/// Whether a theme has a location directly inside one of the user roots
/// (compared component by component).
pub open spec fn spec_in_user_root(t: Theme, roots: Seq<String>) -> bool {
    exists|i: int, j: int|
        0 <= i < t.locations.len() && 0 <= j < roots.len() && #[trigger] spec_parent(
            spec_components(t.locations@[i].directory@),
        ) == Some(#[trigger] spec_components(roots[j]@))
}

/// The themes of `ts` that are (or are not) in a user root, in order.
pub open spec fn spec_user_part(ts: Seq<Theme>, roots: Seq<String>, user: bool) -> Seq<Theme>
    decreases ts.len(),
{
    if ts.len() == 0 {
        seq![]
    } else {
        let p = spec_user_part(ts.drop_last(), roots, user);
        if spec_in_user_root(ts.last(), roots) == user {
            p.push(ts.last())
        } else {
            p
        }
    }
}

fn in_user_root(t: &Theme, roots: &[String]) -> (r: bool)
    ensures
        r == spec_in_user_root(*t, roots@),
{
    for i in 0..t.locations.len()
        invariant
            forall|a: int, b: int|
                0 <= a < i && 0 <= b < roots@.len() ==> spec_parent(
                    spec_components(t.locations@[a].directory@),
                ) != Some(spec_components(roots@[b]@)),
    {
        for j in 0..roots.len()
            invariant
                i < t.locations@.len(),
                forall|a: int, b: int|
                    0 <= a < i && 0 <= b < roots@.len() ==> spec_parent(
                        spec_components(t.locations@[a].directory@),
                    ) != Some(spec_components(roots@[b]@)),
                forall|b: int|
                    0 <= b < j ==> spec_parent(spec_components(t.locations@[i as int].directory@))
                        != Some(spec_components(roots@[b]@)),
        {
            if is_parent_of(roots[j].as_str(), t.locations[i].directory.as_str()) {
                return true;
            }
        }
    }
    false
}

/// Stable ordering for display: themes with a location directly inside one
/// of the user roots come first, each group in its previous order.
pub fn user_themes_first(themes: &mut Vec<Theme>, roots: &[String])
    ensures
        final(themes)@ == spec_user_part(old(themes)@, roots@, true) + spec_user_part(
            old(themes)@,
            roots@,
            false,
        ),
{
    let mut rest: Vec<Theme> = Vec::new();
    std::mem::swap(&mut rest, themes);
    let ghost all = rest@;
    let n = rest.len();
    let mut users: Vec<Theme> = Vec::new();
    let mut others: Vec<Theme> = Vec::new();
    let mut k: usize = 0;
    while rest.len() > 0
        invariant
            k + rest@.len() == all.len(),
            all.len() == n,
            rest@ == all.skip(k as int),
            users@ == spec_user_part(all.take(k as int), roots@, true),
            others@ == spec_user_part(all.take(k as int), roots@, false),
        decreases rest@.len(),
    {
        let t = rest.remove(0);
        proof {
            assert(all.take(k + 1).drop_last() =~= all.take(k as int));
            assert(all.take(k + 1).last() == t);
            assert(rest@ =~= all.skip(k + 1));
        }
        if in_user_root(&t, roots) {
            users.push(t);
        } else {
            others.push(t);
        }
        k = k + 1;
    }
    assert(all.take(k as int) =~= all);
    users.append(&mut others);
    *themes = users;
}

/// The extent of a variant's first frame: its larger side.
pub open spec fn spec_extent(v: VariantV) -> u32 {
    let f = v.frames[0];
    if f.width >= f.height {
        f.width
    } else {
        f.height
    }
}

/// Preference of a variant as a thumbnail of `pixels` pixels: sources at
/// least that large first, then the closest extent.
pub open spec fn spec_thumb_key(v: VariantV, pixels: u32) -> int {
    let e = spec_extent(v) as int;
    let d = if e >= pixels { e - pixels } else { pixels - e };
    if e < pixels {
        0x1_0000_0000 + d
    } else {
        d
    }
}

/// Whether variant `i` is the first nonempty variant with the least key.
pub open spec fn spec_best_thumb(vs: Seq<VariantV>, pixels: u32, i: int) -> bool {
    &&& 0 <= i < vs.len()
    &&& vs[i].frames.len() > 0
    &&& forall|j: int|
        0 <= j < vs.len() && vs[j].frames.len() > 0 ==> spec_thumb_key(vs[i], pixels) <= #[trigger] spec_thumb_key(
            vs[j],
            pixels,
        )
    &&& forall|j: int|
        0 <= j < i && vs[j].frames.len() > 0 ==> spec_thumb_key(vs[i], pixels) < #[trigger] spec_thumb_key(
            vs[j],
            pixels,
        )
}

fn thumb_key(v: &Variant, pixels: u32) -> (r: u64)
    requires
        v.frames@.len() > 0,
    ensures
        r == spec_thumb_key(v@, pixels),
{
    let f = &v.frames[0];
    let e = if f.width >= f.height {
        f.width
    } else {
        f.height
    };
    let d = if e >= pixels {
        e - pixels
    } else {
        pixels - e
    };
    if e < pixels {
        0x1_0000_0000u64 + d as u64
    } else {
        d as u64
    }
}

/// The variant to draw a thumbnail of `pixels` pixels from: among variants
/// with frames, the first one that is at least that large and closest, else
/// the closest smaller one.
pub fn thumbnail_variant(preview: &Preview, pixels: u32) -> (r: Option<&Variant>)
    ensures
        match r {
            Some(v) => exists|i: int|
                spec_best_thumb(variants_view(preview.variants@), pixels, i) && *v
                    == preview.variants@[i],
            None => forall|j: int|
                0 <= j < preview.variants@.len() ==> (#[trigger] preview.variants@[j]).frames@.len() == 0,
        },
{
    let vs = &preview.variants;
    let ghost vv = variants_view(vs@);
    let mut best: Option<usize> = None;
    let mut best_key: u64 = 0;
    for i in 0..vs.len()
        invariant
            vv == variants_view(vs@),
            match best {
                Some(b) => b < i && spec_best_thumb(vv.take(i as int), pixels, b as int)
                    && best_key == spec_thumb_key(vv[b as int], pixels),
                None => forall|j: int| 0 <= j < i ==> vs@[j].frames@.len() == 0,
            },
    {
        proof {
            assert(vv[i as int] == vs@[i as int]@);
        }
        if vs[i].frames.len() > 0 {
            let k = thumb_key(&vs[i], pixels);
            let better = match best {
                None => true,
                Some(_) => k < best_key,
            };
            if better {
                best = Some(i);
                best_key = k;
            }
        }
        proof {
            let t = vv.take(i + 1);
            match best {
                Some(b) => {
                    assert forall|j: int| 0 <= j < t.len() && t[j].frames.len() > 0 implies spec_thumb_key(
                        t[b as int],
                        pixels,
                    ) <= #[trigger] spec_thumb_key(t[j], pixels) by {
                        if j < i {
                            assert(t[j] == vv.take(i as int)[j]);
                        }
                    }
                    assert forall|j: int| 0 <= j < b && t[j].frames.len() > 0 implies spec_thumb_key(
                        t[b as int],
                        pixels,
                    ) < #[trigger] spec_thumb_key(t[j], pixels) by {
                        assert(t[j] == vv.take(i as int)[j]);
                        if b < i {
                            assert(t[b as int] == vv.take(i as int)[b as int]);
                        }
                    }
                },
                None => {},
            }
        }
    }
    assert(vv.take(vs@.len() as int) =~= vv);
    match best {
        Some(b) => {
            assert(vv[b as int] == vs@[b as int]@);
            Some(&vs[b])
        },
        None => None,
    }
}


pub open spec fn strs_view(v: Seq<&'static str>) -> Seq<Seq<char>> {
    v.map_values(|s: &'static str| s@)
}

pub open spec fn groups_view(v: Seq<(&'static str, Vec<&'static str>)>) -> Seq<(Seq<char>, Seq<Seq<char>>)> {
    v.map_values(|g: (&'static str, Vec<&'static str>)| (g.0@, strs_view(g.1@)))
}

/// The cursor roles offered by name, each with its alias file names; the
/// The frame a thumbnail of `pixels` pixels is drawn from, with how the
/// file was found: a fallback file is refused (the theme changed since it
/// was verified), and a preview without frames gives `Missing`.
pub fn thumbnail_frame(p: &Preview, pixels: u32) -> (r: Result<(Frame, Resolution), Error>)
    ensures
        p.resolution == Resolution::Fallback ==> r == Err::<(Frame, Resolution), Error>(Error::Invalid("Source changed; refresh to verify")),
        p.resolution != Resolution::Fallback ==> match r {
            Ok((f, res)) => res == p.resolution && exists|i: int|
                spec_best_thumb(variants_view(p.variants@), pixels, i) && f == p.variants@[i].frames@[0],
            Err(e) => e == Error::Missing && forall|j: int|
                0 <= j < p.variants@.len() ==> (#[trigger] p.variants@[j]).frames@.len() == 0,
        },
{
    if p.resolution == Resolution::Fallback {
        return Err(Error::Invalid("Source changed; refresh to verify"));
    }
    match thumbnail_variant(p, pixels) {
        None => Err(Error::Missing),
        Some(v) => {
            proof {
                let i = choose|i: int| spec_best_thumb(variants_view(p.variants@), pixels, i) && *v == p.variants@[i];
                assert(variants_view(p.variants@)[i] == p.variants@[i]@);
            }
            if v.frames.len() == 0 {
                return Err(Error::Missing);
            }
            Ok((v.frames[0].clone(), p.resolution))
        },
    }
}

/// first alias is the customary one.
pub open spec fn spec_role_groups() -> Seq<(Seq<char>, Seq<Seq<char>>)> {
    seq![
        ("Normal"@, seq!["left_ptr"@, "default"@, "arrow"@]),
        ("Link"@, seq!["pointer"@, "hand2"@, "hand1"@]),
        ("Text"@, seq!["text"@, "xterm"@]),
        ("Busy"@, seq!["watch"@, "wait"@]),
        ("Working in background"@, seq!["progress"@, "left_ptr_watch"@]),
        ("Resize horizontally"@, seq!["ew-resize"@, "col-resize"@, "sb_h_double_arrow"@, "h_double_arrow"@, "e-resize"@, "w-resize"@, "right_side"@, "left_side"@]),
        ("Resize vertically"@, seq!["ns-resize"@, "row-resize"@, "sb_v_double_arrow"@, "v_double_arrow"@, "n-resize"@, "s-resize"@, "top_side"@, "bottom_side"@]),
        ("Move"@, seq!["move"@, "fleur"@]),
        ("Unavailable"@, seq!["not-allowed"@, "crossed_circle"@]),
        ("Resize diagonally"@, seq!["nwse-resize"@, "bd_double_arrow"@, "size_fdiag"@, "nw-resize"@, "se-resize"@, "top_left_corner"@, "bottom_right_corner"@]),
        ("Crosshair"@, seq!["crosshair"@, "cross"@])
    ]
}

/// The role groups: a label and alias file names, in display order.
pub fn role_groups() -> (r: Vec<(&'static str, Vec<&'static str>)>)
    ensures
        groups_view(r@) == spec_role_groups(),
{
    let mut out: Vec<(&'static str, Vec<&'static str>)> = Vec::new();
    out.push(("Normal", vec!["left_ptr", "default", "arrow"]));
    out.push(("Link", vec!["pointer", "hand2", "hand1"]));
    out.push(("Text", vec!["text", "xterm"]));
    out.push(("Busy", vec!["watch", "wait"]));
    out.push(("Working in background", vec!["progress", "left_ptr_watch"]));
    out.push(("Resize horizontally", vec!["ew-resize", "col-resize", "sb_h_double_arrow", "h_double_arrow", "e-resize", "w-resize", "right_side", "left_side"]));
    out.push(("Resize vertically", vec!["ns-resize", "row-resize", "sb_v_double_arrow", "v_double_arrow", "n-resize", "s-resize", "top_side", "bottom_side"]));
    out.push(("Move", vec!["move", "fleur"]));
    out.push(("Unavailable", vec!["not-allowed", "crossed_circle"]));
    out.push(("Resize diagonally", vec!["nwse-resize", "bd_double_arrow", "size_fdiag", "nw-resize", "se-resize", "top_left_corner", "bottom_right_corner"]));
    out.push(("Crosshair", vec!["crosshair", "cross"]));
    assert(groups_view(out@) =~~= spec_role_groups());
    out
}


/// The names of `names` that are among `roles`, in order.
pub open spec fn spec_present(names: Seq<Seq<char>>, roles: Seq<Seq<char>>) -> Seq<Seq<char>>
    decreases names.len(),
{
    if names.len() == 0 {
        seq![]
    } else {
        let p = spec_present(names.drop_last(), roles);
        if roles.contains(names.last()) {
            p.push(names.last())
        } else {
            p
        }
    }
}

/// The title of the `i`-th present alias of a group.
pub open spec fn spec_title(label: Seq<char>, i: int, name: Seq<char>) -> Seq<char> {
    if i == 0 {
        label
    } else {
        label + " · "@ + name
    }
}

/// A group's entries: its present aliases, titled by position.
pub open spec fn spec_titled(label: Seq<char>, present: Seq<Seq<char>>) -> Seq<(Seq<char>, Seq<char>)> {
    Seq::new(present.len(), |i: int| (present[i], spec_title(label, i, present[i])))
}

/// The entries of all groups, in order.
pub open spec fn spec_group_choices(
    groups: Seq<(Seq<char>, Seq<Seq<char>>)>,
    roles: Seq<Seq<char>>,
) -> Seq<(Seq<char>, Seq<char>)>
    decreases groups.len(),
{
    if groups.len() == 0 {
        seq![]
    } else {
        spec_group_choices(groups.drop_last(), roles) + spec_titled(
            groups.last().0,
            spec_present(groups.last().1, roles),
        )
    }
}

/// Every alias of every group.
pub open spec fn spec_mapped(groups: Seq<(Seq<char>, Seq<Seq<char>>)>) -> Seq<Seq<char>>
    decreases groups.len(),
{
    if groups.len() == 0 {
        seq![]
    } else {
        spec_mapped(groups.drop_last()) + groups.last().1
    }
}

/// The roles that no group names, as "Other" entries.
pub open spec fn spec_other_choices(roles: Seq<Seq<char>>, mapped: Seq<Seq<char>>) -> Seq<
    (Seq<char>, Seq<char>),
>
    decreases roles.len(),
{
    if roles.len() == 0 {
        seq![]
    } else {
        let p = spec_other_choices(roles.drop_last(), mapped);
        if mapped.contains(roles.last()) {
            p
        } else {
            p.push((roles.last(), "Other · "@ + roles.last()))
        }
    }
}

/// The role list: friendly group entries, then every other role.
pub open spec fn spec_role_choices(roles: Seq<Seq<char>>) -> Seq<(Seq<char>, Seq<char>)> {
    spec_group_choices(spec_role_groups(), roles) + spec_other_choices(
        roles,
        spec_mapped(spec_role_groups()),
    )
}

pub open spec fn choices_view(v: Seq<(String, String)>) -> Seq<(Seq<char>, Seq<char>)> {
    v.map_values(|c: (String, String)| (c.0@, c.1@))
}

pub(crate) fn contains_role(roles: &[String], name: &str) -> (r: bool)
    ensures
        r == strings_view(roles@).contains(name@),
{
    for i in 0..roles.len()
        invariant
            forall|j: int| 0 <= j < i ==> roles@[j]@ != name@,
    {
        if str_eq(roles[i].as_str(), name) {
            assert(strings_view(roles@)[i as int] == name@);
            return true;
        }
    }
    proof {
        if strings_view(roles@).contains(name@) {
            let j = choose|j: int| 0 <= j < strings_view(roles@).len() && strings_view(roles@)[j] == name@;
            assert(roles@[j]@ == name@);
        }
    }
    false
}

pub(crate) fn contains_name(names: &Vec<&'static str>, role: &str) -> (r: bool)
    ensures
        r == strs_view(names@).contains(role@),
{
    for i in 0..names.len()
        invariant
            forall|j: int| 0 <= j < i ==> names@[j]@ != role@,
    {
        if str_eq(names[i], role) {
            assert(strs_view(names@)[i as int] == role@);
            return true;
        }
    }
    proof {
        if strs_view(names@).contains(role@) {
            let j = choose|j: int| 0 <= j < strs_view(names@).len() && strs_view(names@)[j] == role@;
            assert(names@[j]@ == role@);
        }
    }
    false
}

/// The roles to offer, as (file name, title): for each group, its aliases
/// among `roles` (the first titled by the group label, later ones by label
/// and name), then each role no group names, titled "Other · role".
pub fn role_choices(roles: &[String]) -> (r: Vec<(String, String)>)
    ensures
        choices_view(r@) == spec_role_choices(strings_view(roles@)),
{
    let ghost rv = strings_view(roles@);
    let groups = role_groups();
    let ghost gs = spec_role_groups();
    let mut result: Vec<(String, String)> = Vec::new();
    let mut mapped: Vec<&'static str> = Vec::new();
    for g in 0..groups.len()
        invariant
            groups_view(groups@) == gs,
            gs == spec_role_groups(),
            rv == strings_view(roles@),
            choices_view(result@) == spec_group_choices(gs.take(g as int), rv),
            strs_view(mapped@) == spec_mapped(gs.take(g as int)),
    {
        let label = groups[g].0;
        let names = &groups[g].1;
        proof {
            assert(gs[g as int] == (label@, strs_view(names@)));
            assert(gs.take(g + 1).drop_last() =~= gs.take(g as int));
        }
        let ghost base = choices_view(result@);
        let ghost nv = strs_view(names@);
        let mut index: usize = 0;
        for j in 0..names.len()
            invariant
                nv == strs_view(names@),
                rv == strings_view(roles@),
                index == spec_present(nv.take(j as int), rv).len(),
                index <= j,
                choices_view(result@) == base + spec_titled(label@, spec_present(nv.take(j as int), rv)),
        {
            let name = names[j];
            proof {
                assert(nv.take(j + 1).drop_last() =~= nv.take(j as int));
                assert(nv.take(j + 1).last() == name@);
            }
            if contains_role(roles, name) {
                let title = if index == 0 {
                    String::from_str(label)
                } else {
                    concat3(label, " · ", name)
                };
                let ghost old_present = spec_present(nv.take(j as int), rv);
                let ghost old_result = result@;
                let entry = (String::from_str(name), title);
                result.push(entry);
                proof {
                    assert(spec_present(nv.take(j + 1), rv) == old_present.push(name@));
                    assert(choices_view(result@) =~= choices_view(old_result).push((name@, entry.1@)));
                    assert(spec_titled(label@, old_present.push(name@)) =~= spec_titled(
                        label@,
                        old_present,
                    ).push((name@, spec_title(label@, old_present.len() as int, name@))));
                    assert(choices_view(result@) =~= base + spec_titled(
                        label@,
                        spec_present(nv.take(j + 1), rv),
                    ));
                }
                index = index + 1;
            }
        }
        assert(nv.take(names@.len() as int) =~= nv);
        let ghost before_mapped = strs_view(mapped@);
        for j in 0..names.len()
            invariant
                nv == strs_view(names@),
                strs_view(mapped@) == before_mapped + nv.take(j as int),
        {
            let ghost old_mapped = mapped@;
            mapped.push(names[j]);
            proof {
                assert(nv.take(j + 1) =~= nv.take(j as int).push(nv[j as int]));
                assert(strs_view(mapped@) =~= strs_view(old_mapped).push(names@[j as int]@));
                assert(strs_view(mapped@) =~= before_mapped + nv.take(j + 1));
            }
        }
    }
    assert(gs.take(groups@.len() as int) =~= gs);
    let ghost mv = spec_mapped(gs);
    let ghost base = choices_view(result@);
    for i in 0..roles.len()
        invariant
            rv == strings_view(roles@),
            strs_view(mapped@) == mv,
            choices_view(result@) == base + spec_other_choices(rv.take(i as int), mv),
    {
        proof {
            assert(rv.take(i + 1).drop_last() =~= rv.take(i as int));
            assert(rv.take(i + 1).last() == roles@[i as int]@);
        }
        if !contains_name(&mapped, roles[i].as_str()) {
            let entry = (roles[i].clone(), concat2("Other · ", roles[i].as_str()));
            let ghost old_result = result@;
            result.push(entry);
            proof {
                assert(choices_view(result@) =~= choices_view(old_result).push((entry.0@, entry.1@)));
                assert(spec_other_choices(rv.take(i + 1), mv) == spec_other_choices(rv.take(i as int), mv).push(
                    (roles@[i as int]@, "Other · "@ + roles@[i as int]@),
                ));
                assert(choices_view(result@) =~= base + spec_other_choices(rv.take(i + 1), mv));
            }
        }
    }
    assert(rv.take(roles@.len() as int) =~= rv);
    result
}

/// The file names of role choices.
pub open spec fn choice_ids(c: Seq<(Seq<char>, Seq<char>)>) -> Seq<Seq<char>> {
    c.map_values(|e: (Seq<char>, Seq<char>)| e.0)
}

proof fn lemma_contains_concat<A>(a: Seq<A>, b: Seq<A>, x: A)
    ensures
        (a + b).contains(x) <==> (a.contains(x) || b.contains(x)),
{
    if (a + b).contains(x) {
        let j = choose|j: int| 0 <= j < (a + b).len() && (a + b)[j] == x;
        if j >= a.len() {
            assert(b[j - a.len()] == x);
        }
    }
    if a.contains(x) {
        let j = choose|j: int| 0 <= j < a.len() && a[j] == x;
        assert((a + b)[j] == x);
    }
    if b.contains(x) {
        let j = choose|j: int| 0 <= j < b.len() && b[j] == x;
        assert((a + b)[a.len() + j] == x);
    }
}

proof fn lemma_contains_push<A>(a: Seq<A>, y: A, x: A)
    ensures
        a.push(y).contains(x) <==> (a.contains(x) || x == y),
{
    assert(a.push(y) =~= a + seq![y]);
    lemma_contains_concat(a, seq![y], x);
    if seq![y].contains(x) {
        let j = choose|j: int| 0 <= j < 1 && seq![y][j] == x;
    }
    if x == y {
        assert(seq![y][0] == x);
    }
}

proof fn lemma_present_contains(names: Seq<Seq<char>>, roles: Seq<Seq<char>>, x: Seq<char>)
    ensures
        spec_present(names, roles).contains(x) <==> (names.contains(x) && roles.contains(x)),
    decreases names.len(),
{
    if names.len() > 0 {
        lemma_present_contains(names.drop_last(), roles, x);
        lemma_contains_push(names.drop_last(), names.last(), x);
        assert(names.drop_last().push(names.last()) =~= names);
        lemma_contains_push(spec_present(names.drop_last(), roles), names.last(), x);
    }
}

proof fn lemma_group_ids(gs: Seq<(Seq<char>, Seq<Seq<char>>)>, roles: Seq<Seq<char>>, x: Seq<char>)
    ensures
        choice_ids(spec_group_choices(gs, roles)).contains(x) <==> (spec_mapped(gs).contains(x) && roles.contains(x)),
    decreases gs.len(),
{
    if gs.len() > 0 {
        let head = spec_group_choices(gs.drop_last(), roles);
        let present = spec_present(gs.last().1, roles);
        let tail = spec_titled(gs.last().0, present);
        lemma_group_ids(gs.drop_last(), roles, x);
        assert(choice_ids(head + tail) =~= choice_ids(head) + choice_ids(tail));
        assert(choice_ids(tail) =~= present);
        lemma_contains_concat(choice_ids(head), choice_ids(tail), x);
        lemma_present_contains(gs.last().1, roles, x);
        lemma_contains_concat(spec_mapped(gs.drop_last()), gs.last().1, x);
    }
}

proof fn lemma_other_ids(roles: Seq<Seq<char>>, mapped: Seq<Seq<char>>, x: Seq<char>)
    ensures
        choice_ids(spec_other_choices(roles, mapped)).contains(x) <==> (roles.contains(x) && !mapped.contains(x)),
    decreases roles.len(),
{
    if roles.len() > 0 {
        let p = spec_other_choices(roles.drop_last(), mapped);
        lemma_other_ids(roles.drop_last(), mapped, x);
        lemma_contains_push(roles.drop_last(), roles.last(), x);
        assert(roles.drop_last().push(roles.last()) =~= roles);
        let e = (roles.last(), "Other · "@ + roles.last());
        assert(choice_ids(p.push(e)) =~= choice_ids(p).push(roles.last()));
        lemma_contains_push(choice_ids(p), roles.last(), x);
    }
}

/// Every role file is offered, and only role files are: a file name is
/// among the choices exactly when it is among `roles`.
pub proof fn law_every_role_selectable(roles: Seq<Seq<char>>)
    ensures
        forall|x: Seq<char>| #[trigger] choice_ids(spec_role_choices(roles)).contains(x) <==> roles.contains(x),
{
    assert forall|x: Seq<char>| #[trigger] choice_ids(spec_role_choices(roles)).contains(x) <==> roles.contains(x) by {
        let g = spec_group_choices(spec_role_groups(), roles);
        let o = spec_other_choices(roles, spec_mapped(spec_role_groups()));
        assert(choice_ids(g + o) =~= choice_ids(g) + choice_ids(o));
        lemma_contains_concat(choice_ids(g), choice_ids(o), x);
        lemma_group_ids(spec_role_groups(), roles, x);
        lemma_other_ids(roles, spec_mapped(spec_role_groups()), x);
    }
}

/// The file names of all role groups, in order.
pub open spec fn spec_group_aliases() -> Seq<Seq<char>> {
    seq!["left_ptr"@, "default"@, "arrow"@, "pointer"@, "hand2"@, "hand1"@, "text"@, "xterm"@, "watch"@, "wait"@, "progress"@, "left_ptr_watch"@, "ew-resize"@, "col-resize"@, "sb_h_double_arrow"@, "h_double_arrow"@, "e-resize"@, "w-resize"@, "right_side"@, "left_side"@, "ns-resize"@, "row-resize"@, "sb_v_double_arrow"@, "v_double_arrow"@, "n-resize"@, "s-resize"@, "top_side"@, "bottom_side"@, "move"@, "fleur"@, "not-allowed"@, "crossed_circle"@, "nwse-resize"@, "bd_double_arrow"@, "size_fdiag"@, "nw-resize"@, "se-resize"@, "top_left_corner"@, "bottom_right_corner"@, "crosshair"@, "cross"@]
}

pub open spec fn name_sig(s: Seq<char>) -> (int, char, char, char, char, char) {
    (s.len() as int, s[0], s[1], s[2], s[3], s[4])
}

#[verifier::rlimit(100)]
proof fn lemma_group_aliases_distinct()
    ensures
        spec_group_aliases().no_duplicates(),
{
    reveal_strlit("left_ptr");
    reveal_strlit("default");
    reveal_strlit("arrow");
    reveal_strlit("pointer");
    reveal_strlit("hand2");
    reveal_strlit("hand1");
    reveal_strlit("text");
    reveal_strlit("xterm");
    reveal_strlit("watch");
    reveal_strlit("wait");
    reveal_strlit("progress");
    reveal_strlit("left_ptr_watch");
    reveal_strlit("ew-resize");
    reveal_strlit("col-resize");
    reveal_strlit("sb_h_double_arrow");
    reveal_strlit("h_double_arrow");
    reveal_strlit("e-resize");
    reveal_strlit("w-resize");
    reveal_strlit("right_side");
    reveal_strlit("left_side");
    reveal_strlit("ns-resize");
    reveal_strlit("row-resize");
    reveal_strlit("sb_v_double_arrow");
    reveal_strlit("v_double_arrow");
    reveal_strlit("n-resize");
    reveal_strlit("s-resize");
    reveal_strlit("top_side");
    reveal_strlit("bottom_side");
    reveal_strlit("move");
    reveal_strlit("fleur");
    reveal_strlit("not-allowed");
    reveal_strlit("crossed_circle");
    reveal_strlit("nwse-resize");
    reveal_strlit("bd_double_arrow");
    reveal_strlit("size_fdiag");
    reveal_strlit("nw-resize");
    reveal_strlit("se-resize");
    reveal_strlit("top_left_corner");
    reveal_strlit("bottom_right_corner");
    reveal_strlit("crosshair");
    reveal_strlit("cross");
    assert("left_ptr"@.len() == 8 && "left_ptr"@[0] == 'l' && "left_ptr"@[1] == 'e' && "left_ptr"@[2] == 'f' && "left_ptr"@[3] == 't' && "left_ptr"@[4] == '_');
    assert("default"@.len() == 7 && "default"@[0] == 'd' && "default"@[1] == 'e' && "default"@[2] == 'f' && "default"@[3] == 'a' && "default"@[4] == 'u');
    assert("arrow"@.len() == 5 && "arrow"@[0] == 'a' && "arrow"@[1] == 'r' && "arrow"@[2] == 'r' && "arrow"@[3] == 'o' && "arrow"@[4] == 'w');
    assert("pointer"@.len() == 7 && "pointer"@[0] == 'p' && "pointer"@[1] == 'o' && "pointer"@[2] == 'i' && "pointer"@[3] == 'n' && "pointer"@[4] == 't');
    assert("hand2"@.len() == 5 && "hand2"@[0] == 'h' && "hand2"@[1] == 'a' && "hand2"@[2] == 'n' && "hand2"@[3] == 'd' && "hand2"@[4] == '2');
    assert("hand1"@.len() == 5 && "hand1"@[0] == 'h' && "hand1"@[1] == 'a' && "hand1"@[2] == 'n' && "hand1"@[3] == 'd' && "hand1"@[4] == '1');
    assert("text"@.len() == 4 && "text"@[0] == 't' && "text"@[1] == 'e' && "text"@[2] == 'x' && "text"@[3] == 't');
    assert("xterm"@.len() == 5 && "xterm"@[0] == 'x' && "xterm"@[1] == 't' && "xterm"@[2] == 'e' && "xterm"@[3] == 'r' && "xterm"@[4] == 'm');
    assert("watch"@.len() == 5 && "watch"@[0] == 'w' && "watch"@[1] == 'a' && "watch"@[2] == 't' && "watch"@[3] == 'c' && "watch"@[4] == 'h');
    assert("wait"@.len() == 4 && "wait"@[0] == 'w' && "wait"@[1] == 'a' && "wait"@[2] == 'i' && "wait"@[3] == 't');
    assert("progress"@.len() == 8 && "progress"@[0] == 'p' && "progress"@[1] == 'r' && "progress"@[2] == 'o' && "progress"@[3] == 'g' && "progress"@[4] == 'r');
    assert("left_ptr_watch"@.len() == 14 && "left_ptr_watch"@[0] == 'l' && "left_ptr_watch"@[1] == 'e' && "left_ptr_watch"@[2] == 'f' && "left_ptr_watch"@[3] == 't' && "left_ptr_watch"@[4] == '_');
    assert("ew-resize"@.len() == 9 && "ew-resize"@[0] == 'e' && "ew-resize"@[1] == 'w' && "ew-resize"@[2] == '-' && "ew-resize"@[3] == 'r' && "ew-resize"@[4] == 'e');
    assert("col-resize"@.len() == 10 && "col-resize"@[0] == 'c' && "col-resize"@[1] == 'o' && "col-resize"@[2] == 'l' && "col-resize"@[3] == '-' && "col-resize"@[4] == 'r');
    assert("sb_h_double_arrow"@.len() == 17 && "sb_h_double_arrow"@[0] == 's' && "sb_h_double_arrow"@[1] == 'b' && "sb_h_double_arrow"@[2] == '_' && "sb_h_double_arrow"@[3] == 'h' && "sb_h_double_arrow"@[4] == '_');
    assert("h_double_arrow"@.len() == 14 && "h_double_arrow"@[0] == 'h' && "h_double_arrow"@[1] == '_' && "h_double_arrow"@[2] == 'd' && "h_double_arrow"@[3] == 'o' && "h_double_arrow"@[4] == 'u');
    assert("e-resize"@.len() == 8 && "e-resize"@[0] == 'e' && "e-resize"@[1] == '-' && "e-resize"@[2] == 'r' && "e-resize"@[3] == 'e' && "e-resize"@[4] == 's');
    assert("w-resize"@.len() == 8 && "w-resize"@[0] == 'w' && "w-resize"@[1] == '-' && "w-resize"@[2] == 'r' && "w-resize"@[3] == 'e' && "w-resize"@[4] == 's');
    assert("right_side"@.len() == 10 && "right_side"@[0] == 'r' && "right_side"@[1] == 'i' && "right_side"@[2] == 'g' && "right_side"@[3] == 'h' && "right_side"@[4] == 't');
    assert("left_side"@.len() == 9 && "left_side"@[0] == 'l' && "left_side"@[1] == 'e' && "left_side"@[2] == 'f' && "left_side"@[3] == 't' && "left_side"@[4] == '_');
    assert("ns-resize"@.len() == 9 && "ns-resize"@[0] == 'n' && "ns-resize"@[1] == 's' && "ns-resize"@[2] == '-' && "ns-resize"@[3] == 'r' && "ns-resize"@[4] == 'e');
    assert("row-resize"@.len() == 10 && "row-resize"@[0] == 'r' && "row-resize"@[1] == 'o' && "row-resize"@[2] == 'w' && "row-resize"@[3] == '-' && "row-resize"@[4] == 'r');
    assert("sb_v_double_arrow"@.len() == 17 && "sb_v_double_arrow"@[0] == 's' && "sb_v_double_arrow"@[1] == 'b' && "sb_v_double_arrow"@[2] == '_' && "sb_v_double_arrow"@[3] == 'v' && "sb_v_double_arrow"@[4] == '_');
    assert("v_double_arrow"@.len() == 14 && "v_double_arrow"@[0] == 'v' && "v_double_arrow"@[1] == '_' && "v_double_arrow"@[2] == 'd' && "v_double_arrow"@[3] == 'o' && "v_double_arrow"@[4] == 'u');
    assert("n-resize"@.len() == 8 && "n-resize"@[0] == 'n' && "n-resize"@[1] == '-' && "n-resize"@[2] == 'r' && "n-resize"@[3] == 'e' && "n-resize"@[4] == 's');
    assert("s-resize"@.len() == 8 && "s-resize"@[0] == 's' && "s-resize"@[1] == '-' && "s-resize"@[2] == 'r' && "s-resize"@[3] == 'e' && "s-resize"@[4] == 's');
    assert("top_side"@.len() == 8 && "top_side"@[0] == 't' && "top_side"@[1] == 'o' && "top_side"@[2] == 'p' && "top_side"@[3] == '_' && "top_side"@[4] == 's');
    assert("bottom_side"@.len() == 11 && "bottom_side"@[0] == 'b' && "bottom_side"@[1] == 'o' && "bottom_side"@[2] == 't' && "bottom_side"@[3] == 't' && "bottom_side"@[4] == 'o');
    assert("move"@.len() == 4 && "move"@[0] == 'm' && "move"@[1] == 'o' && "move"@[2] == 'v' && "move"@[3] == 'e');
    assert("fleur"@.len() == 5 && "fleur"@[0] == 'f' && "fleur"@[1] == 'l' && "fleur"@[2] == 'e' && "fleur"@[3] == 'u' && "fleur"@[4] == 'r');
    assert("not-allowed"@.len() == 11 && "not-allowed"@[0] == 'n' && "not-allowed"@[1] == 'o' && "not-allowed"@[2] == 't' && "not-allowed"@[3] == '-' && "not-allowed"@[4] == 'a');
    assert("crossed_circle"@.len() == 14 && "crossed_circle"@[0] == 'c' && "crossed_circle"@[1] == 'r' && "crossed_circle"@[2] == 'o' && "crossed_circle"@[3] == 's' && "crossed_circle"@[4] == 's');
    assert("nwse-resize"@.len() == 11 && "nwse-resize"@[0] == 'n' && "nwse-resize"@[1] == 'w' && "nwse-resize"@[2] == 's' && "nwse-resize"@[3] == 'e' && "nwse-resize"@[4] == '-');
    assert("bd_double_arrow"@.len() == 15 && "bd_double_arrow"@[0] == 'b' && "bd_double_arrow"@[1] == 'd' && "bd_double_arrow"@[2] == '_' && "bd_double_arrow"@[3] == 'd' && "bd_double_arrow"@[4] == 'o');
    assert("size_fdiag"@.len() == 10 && "size_fdiag"@[0] == 's' && "size_fdiag"@[1] == 'i' && "size_fdiag"@[2] == 'z' && "size_fdiag"@[3] == 'e' && "size_fdiag"@[4] == '_');
    assert("nw-resize"@.len() == 9 && "nw-resize"@[0] == 'n' && "nw-resize"@[1] == 'w' && "nw-resize"@[2] == '-' && "nw-resize"@[3] == 'r' && "nw-resize"@[4] == 'e');
    assert("se-resize"@.len() == 9 && "se-resize"@[0] == 's' && "se-resize"@[1] == 'e' && "se-resize"@[2] == '-' && "se-resize"@[3] == 'r' && "se-resize"@[4] == 'e');
    assert("top_left_corner"@.len() == 15 && "top_left_corner"@[0] == 't' && "top_left_corner"@[1] == 'o' && "top_left_corner"@[2] == 'p' && "top_left_corner"@[3] == '_' && "top_left_corner"@[4] == 'l');
    assert("bottom_right_corner"@.len() == 19 && "bottom_right_corner"@[0] == 'b' && "bottom_right_corner"@[1] == 'o' && "bottom_right_corner"@[2] == 't' && "bottom_right_corner"@[3] == 't' && "bottom_right_corner"@[4] == 'o');
    assert("crosshair"@.len() == 9 && "crosshair"@[0] == 'c' && "crosshair"@[1] == 'r' && "crosshair"@[2] == 'o' && "crosshair"@[3] == 's' && "crosshair"@[4] == 's');
    assert("cross"@.len() == 5 && "cross"@[0] == 'c' && "cross"@[1] == 'r' && "cross"@[2] == 'o' && "cross"@[3] == 's' && "cross"@[4] == 's');
    let m = spec_group_aliases();
    assert forall|i: int, j: int| 0 <= i < j < m.len() implies m[i] != m[j] by {
        if m[i] == m[j] {
            assert(name_sig(m[i]) == name_sig(m[j]));
        }
    }
}

proof fn lemma_mapped_groups()
    ensures
        spec_mapped(spec_role_groups()) == spec_group_aliases(),
{
    reveal_with_fuel(spec_mapped, 12);
    assert(spec_mapped(spec_role_groups()) =~= spec_group_aliases());
}

proof fn lemma_present_unique(names: Seq<Seq<char>>, roles: Seq<Seq<char>>)
    requires
        names.no_duplicates(),
    ensures
        spec_present(names, roles).no_duplicates(),
    decreases names.len(),
{
    if names.len() > 0 {
        let init = names.drop_last();
        assert forall|a: int, b: int| 0 <= a < init.len() && 0 <= b < init.len() && a != b implies init[a] != init[b] by {
            assert(init[a] == names[a] && init[b] == names[b]);
        }
        lemma_present_unique(init, roles);
        let p = spec_present(init, roles);
        if roles.contains(names.last()) {
            lemma_present_contains(init, roles, names.last());
            if init.contains(names.last()) {
                let j = choose|j: int| 0 <= j < init.len() && init[j] == names.last();
                assert(names[j] == names[names.len() - 1]);
            }
            let q = p.push(names.last());
            assert forall|a: int, b: int| 0 <= a < q.len() && 0 <= b < q.len() && a != b implies q[a] != q[b] by {
                if a == p.len() {
                    assert(q[b] == p[b]);
                    assert(p.contains(p[b]));
                } else if b == p.len() {
                    assert(q[a] == p[a]);
                    assert(p.contains(p[a]));
                } else {
                    assert(q[a] == p[a] && q[b] == p[b]);
                }
            }
        }
    }
}

proof fn lemma_nodup_concat<A>(a: Seq<A>, b: Seq<A>)
    requires
        a.no_duplicates(),
        b.no_duplicates(),
        forall|x: A| a.contains(x) ==> !b.contains(x),
    ensures
        (a + b).no_duplicates(),
{
    let c = a + b;
    assert forall|i: int, j: int| 0 <= i < c.len() && 0 <= j < c.len() && i != j implies c[i] != c[j] by {
        if i < a.len() && j < a.len() {
            assert(c[i] == a[i] && c[j] == a[j]);
        } else if i >= a.len() && j >= a.len() {
            assert(c[i] == b[i - a.len()] && c[j] == b[j - a.len()]);
        } else if i < a.len() {
            assert(c[i] == a[i] && a.contains(a[i]));
            assert(c[j] == b[j - a.len()] && b.contains(b[j - a.len()]));
        } else {
            assert(c[j] == a[j] && a.contains(a[j]));
            assert(c[i] == b[i - a.len()] && b.contains(b[i - a.len()]));
        }
    }
}

proof fn lemma_group_ids_unique(gs: Seq<(Seq<char>, Seq<Seq<char>>)>, roles: Seq<Seq<char>>)
    requires
        spec_mapped(gs).no_duplicates(),
    ensures
        choice_ids(spec_group_choices(gs, roles)).no_duplicates(),
    decreases gs.len(),
{
    if gs.len() > 0 {
        let init = gs.drop_last();
        let mi = spec_mapped(init);
        let last = gs.last().1;
        assert(spec_mapped(gs) == mi + last);
        assert forall|a: int, b: int| 0 <= a < mi.len() && 0 <= b < mi.len() && a != b implies mi[a] != mi[b] by {
            assert((mi + last)[a] == mi[a] && (mi + last)[b] == mi[b]);
        }
        assert forall|a: int, b: int| 0 <= a < last.len() && 0 <= b < last.len() && a != b implies last[a] != last[b] by {
            assert((mi + last)[mi.len() + a] == last[a] && (mi + last)[mi.len() + b] == last[b]);
        }
        lemma_group_ids_unique(init, roles);
        lemma_present_unique(last, roles);
        let head = spec_group_choices(init, roles);
        let present = spec_present(last, roles);
        let tail = spec_titled(gs.last().0, present);
        assert(choice_ids(head + tail) =~= choice_ids(head) + choice_ids(tail));
        assert(choice_ids(tail) =~= present);
        assert forall|x: Seq<char>| choice_ids(head).contains(x) implies !present.contains(x) by {
            lemma_group_ids(init, roles, x);
            lemma_present_contains(last, roles, x);
            if present.contains(x) {
                let i = choose|i: int| 0 <= i < mi.len() && mi[i] == x;
                let j = choose|j: int| 0 <= j < last.len() && last[j] == x;
                assert((mi + last)[i] == x && (mi + last)[mi.len() + j] == x);
            }
        }
        lemma_nodup_concat(choice_ids(head), present);
    }
}

proof fn lemma_other_ids_unique(roles: Seq<Seq<char>>, mapped: Seq<Seq<char>>)
    requires
        roles.no_duplicates(),
    ensures
        choice_ids(spec_other_choices(roles, mapped)).no_duplicates(),
    decreases roles.len(),
{
    if roles.len() > 0 {
        let init = roles.drop_last();
        assert forall|a: int, b: int| 0 <= a < init.len() && 0 <= b < init.len() && a != b implies init[a] != init[b] by {
            assert(init[a] == roles[a] && init[b] == roles[b]);
        }
        lemma_other_ids_unique(init, mapped);
        let p = spec_other_choices(init, mapped);
        if !mapped.contains(roles.last()) {
            let e = (roles.last(), "Other · "@ + roles.last());
            let q = choice_ids(p.push(e));
            assert(q =~= choice_ids(p).push(roles.last()));
            lemma_other_ids(init, mapped, roles.last());
            if init.contains(roles.last()) {
                let j = choose|j: int| 0 <= j < init.len() && init[j] == roles.last();
                assert(roles[j] == roles[roles.len() - 1]);
            }
            let ip = choice_ids(p);
            assert forall|a: int, b: int| 0 <= a < q.len() && 0 <= b < q.len() && a != b implies q[a] != q[b] by {
                if a == ip.len() {
                    assert(q[b] == ip[b] && ip.contains(ip[b]));
                } else if b == ip.len() {
                    assert(q[a] == ip[a] && ip.contains(ip[a]));
                } else {
                    assert(q[a] == ip[a] && q[b] == ip[b]);
                }
            }
        }
    }
}

/// Each role file is offered once: given distinct role files, no two
/// choices name the same file.
pub proof fn law_each_role_offered_once(roles: Seq<Seq<char>>)
    requires
        roles.no_duplicates(),
    ensures
        choice_ids(spec_role_choices(roles)).no_duplicates(),
{
    lemma_group_aliases_distinct();
    lemma_mapped_groups();
    let mapped = spec_mapped(spec_role_groups());
    let g = spec_group_choices(spec_role_groups(), roles);
    let o = spec_other_choices(roles, mapped);
    lemma_group_ids_unique(spec_role_groups(), roles);
    lemma_other_ids_unique(roles, mapped);
    assert(choice_ids(g + o) =~= choice_ids(g) + choice_ids(o));
    assert forall|x: Seq<char>| choice_ids(g).contains(x) implies !choice_ids(o).contains(x) by {
        lemma_group_ids(spec_role_groups(), roles, x);
        lemma_other_ids(roles, mapped, x);
    }
    lemma_nodup_concat(choice_ids(g), choice_ids(o));
}

/// The group labels, then the label of the other roles.
pub open spec fn spec_all_labels() -> Seq<Seq<char>> {
    seq!["Normal"@, "Link"@, "Text"@, "Busy"@, "Working in background"@, "Resize horizontally"@, "Resize vertically"@, "Move"@, "Unavailable"@, "Resize diagonally"@, "Crosshair"@, "Other"@]
}

#[verifier::rlimit(100)]
proof fn lemma_labels_plain()
    ensures
        spec_all_labels().no_duplicates(),
        forall|i: int| 0 <= i < spec_all_labels().len() ==> !(#[trigger] spec_all_labels()[i]).contains('·'),
{
    reveal_strlit("Normal");
    reveal_strlit("Link");
    reveal_strlit("Text");
    reveal_strlit("Busy");
    reveal_strlit("Working in background");
    reveal_strlit("Resize horizontally");
    reveal_strlit("Resize vertically");
    reveal_strlit("Move");
    reveal_strlit("Unavailable");
    reveal_strlit("Resize diagonally");
    reveal_strlit("Crosshair");
    reveal_strlit("Other");
    assert("Normal"@ =~= seq!['N', 'o', 'r', 'm', 'a', 'l']);
    assert("Link"@ =~= seq!['L', 'i', 'n', 'k']);
    assert("Text"@ =~= seq!['T', 'e', 'x', 't']);
    assert("Busy"@ =~= seq!['B', 'u', 's', 'y']);
    assert("Working in background"@ =~= seq!['W', 'o', 'r', 'k', 'i', 'n', 'g', ' ', 'i', 'n', ' ', 'b', 'a', 'c', 'k', 'g', 'r', 'o', 'u', 'n', 'd']);
    assert("Resize horizontally"@ =~= seq!['R', 'e', 's', 'i', 'z', 'e', ' ', 'h', 'o', 'r', 'i', 'z', 'o', 'n', 't', 'a', 'l', 'l', 'y']);
    assert("Resize vertically"@ =~= seq!['R', 'e', 's', 'i', 'z', 'e', ' ', 'v', 'e', 'r', 't', 'i', 'c', 'a', 'l', 'l', 'y']);
    assert("Move"@ =~= seq!['M', 'o', 'v', 'e']);
    assert("Unavailable"@ =~= seq!['U', 'n', 'a', 'v', 'a', 'i', 'l', 'a', 'b', 'l', 'e']);
    assert("Resize diagonally"@ =~= seq!['R', 'e', 's', 'i', 'z', 'e', ' ', 'd', 'i', 'a', 'g', 'o', 'n', 'a', 'l', 'l', 'y']);
    assert("Crosshair"@ =~= seq!['C', 'r', 'o', 's', 's', 'h', 'a', 'i', 'r']);
    assert("Other"@ =~= seq!['O', 't', 'h', 'e', 'r']);
    let m = spec_all_labels();
    assert forall|i: int, j: int| 0 <= i < j < m.len() implies m[i] != m[j] by {
        if m[i] == m[j] {
            assert(m[i].len() == m[j].len() && m[i][0] == m[j][0] && m[i][1] == m[j][1] && m[i][7] == m[j][7]);
        }
    }
    assert forall|i: int| 0 <= i < m.len() implies !(#[trigger] m[i]).contains('·') by {
        if m[i].contains('·') {
            let k = choose|k: int| 0 <= k < m[i].len() && m[i][k] == '·';
        }
    }
}

/// The titles of role choices.
pub open spec fn choice_titles(c: Seq<(Seq<char>, Seq<char>)>) -> Seq<Seq<char>> {
    c.map_values(|e: (Seq<char>, Seq<char>)| e.1)
}

/// Whether a title is the label `l` itself or starts with `l` and " · ".
pub open spec fn headed(t: Seq<char>, l: Seq<char>) -> bool {
    t == l || (t.len() >= (l.len() + 3) as int && t.take((l.len() + 3) as int) == l + " · "@)
}

proof fn lemma_heads_differ(ta: Seq<char>, tb: Seq<char>, a: Seq<char>, b: Seq<char>)
    requires
        headed(ta, a),
        headed(tb, b),
        a != b,
        !a.contains('·'),
        !b.contains('·'),
    ensures
        ta != tb,
{
    reveal_strlit(" · ");
    let sep = " · "@;
    assert(sep =~= seq![' ', '·', ' ']);
    if ta == tb {
        if ta == a && tb == b {
        } else if ta == a {
            assert(tb[(b.len() + 1) as int] == (b + sep)[(b.len() + 1) as int]);
            assert(a[(b.len() + 1) as int] == '·');
        } else if tb == b {
            assert(ta[(a.len() + 1) as int] == (a + sep)[(a.len() + 1) as int]);
            assert(b[(a.len() + 1) as int] == '·');
        } else if a.len() == b.len() {
            assert(a =~= ta.take((a.len() + 3) as int).take(a.len() as int));
            assert(b =~= tb.take((b.len() + 3) as int).take(b.len() as int));
        } else if a.len() < b.len() {
            assert(ta[(a.len() + 1) as int] == (a + sep)[(a.len() + 1) as int]);
            assert(tb[(a.len() + 1) as int] == (b + sep)[(a.len() + 1) as int]);
            if a.len() + 1 < b.len() {
                assert(b[(a.len() + 1) as int] == '·');
            }
        } else {
            assert(tb[(b.len() + 1) as int] == (b + sep)[(b.len() + 1) as int]);
            assert(ta[(b.len() + 1) as int] == (a + sep)[(b.len() + 1) as int]);
            if b.len() + 1 < a.len() {
                assert(a[(b.len() + 1) as int] == '·');
            }
        }
    }
}

proof fn lemma_titled_group(l: Seq<char>, present: Seq<Seq<char>>)
    requires
        present.no_duplicates(),
    ensures
        choice_titles(spec_titled(l, present)).no_duplicates(),
        forall|t: Seq<char>| #[trigger] choice_titles(spec_titled(l, present)).contains(t) ==> headed(t, l),
{
    let ts = choice_titles(spec_titled(l, present));
    reveal_strlit(" · ");
    let sep = " · "@;
    assert(sep =~= seq![' ', '·', ' ']);
    assert forall|i: int| 0 <= i < ts.len() implies headed(#[trigger] ts[i], l) by {
        if i > 0 {
            assert(ts[i] == l + sep + present[i]);
            assert((l + sep + present[i]).take((l.len() + 3) as int) =~= l + sep);
        }
    }
    assert forall|t: Seq<char>| #[trigger] ts.contains(t) implies headed(t, l) by {
        let i = choose|i: int| 0 <= i < ts.len() && ts[i] == t;
        assert(headed(ts[i], l));
    }
    assert forall|i: int, j: int| 0 <= i < ts.len() && 0 <= j < ts.len() && i != j implies ts[i] != ts[j] by {
        if i > 0 && j > 0 {
            if ts[i] == ts[j] {
                assert(present[i] =~= ts[i].skip((l.len() + 3) as int));
                assert(present[j] =~= ts[j].skip((l.len() + 3) as int));
            }
        } else if i == 0 {
            assert(ts[j].len() == l.len() + 3 + present[j].len());
        } else {
            assert(ts[i].len() == (l.len() + 3) as int + present[i].len());
        }
    }
}

proof fn lemma_group_titles(gs: Seq<(Seq<char>, Seq<Seq<char>>)>, roles: Seq<Seq<char>>)
    requires
        spec_mapped(gs).no_duplicates(),
        forall|g: int| 0 <= g < gs.len() ==> !(#[trigger] gs[g]).0.contains('·'),
        forall|g: int, h: int| 0 <= g < h < gs.len() ==> (#[trigger] gs[g]).0 != (#[trigger] gs[h]).0,
    ensures
        choice_titles(spec_group_choices(gs, roles)).no_duplicates(),
        forall|t: Seq<char>| #[trigger] choice_titles(spec_group_choices(gs, roles)).contains(t)
            ==> exists|g: int| 0 <= g < gs.len() && headed(t, (#[trigger] gs[g]).0),
    decreases gs.len(),
{
    if gs.len() > 0 {
        let init = gs.drop_last();
        let mi = spec_mapped(init);
        let last = gs.last().1;
        assert(spec_mapped(gs) == mi + last);
        assert forall|a: int, b: int| 0 <= a < mi.len() && 0 <= b < mi.len() && a != b implies mi[a] != mi[b] by {
            assert((mi + last)[a] == mi[a] && (mi + last)[b] == mi[b]);
        }
        assert forall|a: int, b: int| 0 <= a < last.len() && 0 <= b < last.len() && a != b implies last[a] != last[b] by {
            assert((mi + last)[mi.len() + a] == last[a] && (mi + last)[mi.len() + b] == last[b]);
        }
        assert forall|g: int| 0 <= g < init.len() implies !(#[trigger] init[g]).0.contains('·') by {
            assert(init[g] == gs[g]);
        }
        assert forall|g: int, h: int| 0 <= g < h < init.len() implies (#[trigger] init[g]).0 != (#[trigger] init[h]).0 by {
            assert(init[g] == gs[g] && init[h] == gs[h]);
        }
        lemma_group_titles(init, roles);
        lemma_present_unique(last, roles);
        let head = spec_group_choices(init, roles);
        let present = spec_present(last, roles);
        let tail = spec_titled(gs.last().0, present);
        lemma_titled_group(gs.last().0, present);
        assert(choice_titles(head + tail) =~= choice_titles(head) + choice_titles(tail));
        assert forall|t: Seq<char>| choice_titles(head).contains(t) implies !choice_titles(tail).contains(t) by {
            let g = choose|g: int| 0 <= g < init.len() && headed(t, (#[trigger] init[g]).0);
            assert(init[g] == gs[g]);
            assert(gs[g].0 != gs[gs.len() - 1].0);
            if choice_titles(tail).contains(t) {
                lemma_heads_differ(t, t, gs[g].0, gs.last().0);
            }
        }
        lemma_nodup_concat(choice_titles(head), choice_titles(tail));
        assert forall|t: Seq<char>| #[trigger] choice_titles(spec_group_choices(gs, roles)).contains(t)
            implies exists|g: int| 0 <= g < gs.len() && headed(t, (#[trigger] gs[g]).0) by {
            lemma_contains_concat(choice_titles(head), choice_titles(tail), t);
            if choice_titles(head).contains(t) {
                let g = choose|g: int| 0 <= g < init.len() && headed(t, (#[trigger] init[g]).0);
                assert(init[g] == gs[g]);
            } else {
                assert(headed(t, gs[gs.len() - 1].0));
            }
        }
    }
}

proof fn lemma_other_titles(roles: Seq<Seq<char>>, mapped: Seq<Seq<char>>)
    requires
        roles.no_duplicates(),
    ensures
        choice_titles(spec_other_choices(roles, mapped)).no_duplicates(),
        forall|t: Seq<char>| #[trigger] choice_titles(spec_other_choices(roles, mapped)).contains(t) ==> headed(t, "Other"@),
    decreases roles.len(),
{
    reveal_strlit("Other · ");
    reveal_strlit("Other");
    reveal_strlit(" · ");
    assert("Other · "@ =~= "Other"@ + " · "@);
    if roles.len() > 0 {
        let init = roles.drop_last();
        assert forall|a: int, b: int| 0 <= a < init.len() && 0 <= b < init.len() && a != b implies init[a] != init[b] by {
            assert(init[a] == roles[a] && init[b] == roles[b]);
        }
        lemma_other_titles(init, mapped);
        let p = spec_other_choices(init, mapped);
        if !mapped.contains(roles.last()) {
            let t = "Other · "@ + roles.last();
            let e = (roles.last(), t);
            let q = choice_titles(p.push(e));
            let tp = choice_titles(p);
            assert(q =~= tp.push(t));
            assert(t.take(8) =~= "Other"@ + " · "@);
            assert(headed(t, "Other"@));
            assert forall|x: Seq<char>| tp.contains(x) implies x != t by {
                lemma_other_ids(init, mapped, roles.last());
                if x == t {
                    let k = choose|k: int| 0 <= k < tp.len() && tp[k] == x;
                    lemma_other_title_shape(init, mapped, k);
                    assert(choice_ids(p)[k] =~= tp[k].skip(8));
                    assert(roles.last() =~= t.skip(8));
                    assert(choice_ids(p).contains(roles.last()));
                    if init.contains(roles.last()) {
                        let j = choose|j: int| 0 <= j < init.len() && init[j] == roles.last();
                        assert(roles[j] == roles[roles.len() - 1]);
                    }
                }
            }
            assert forall|a: int, b: int| 0 <= a < q.len() && 0 <= b < q.len() && a != b implies q[a] != q[b] by {
                if a == tp.len() {
                    assert(q[b] == tp[b] && tp.contains(tp[b]));
                } else if b == tp.len() {
                    assert(q[a] == tp[a] && tp.contains(tp[a]));
                } else {
                    assert(q[a] == tp[a] && q[b] == tp[b]);
                }
            }
            assert forall|x: Seq<char>| #[trigger] q.contains(x) implies headed(x, "Other"@) by {
                let k = choose|k: int| 0 <= k < q.len() && q[k] == x;
                if k < tp.len() {
                    assert(tp[k] == x && tp.contains(x));
                }
            }
        }
    }
}

/// The other-role titles are "Other · " and the role; this holds of every
/// entry the other list gives.
proof fn lemma_other_title_shape(roles: Seq<Seq<char>>, mapped: Seq<Seq<char>>, k: int)
    requires
        0 <= k < spec_other_choices(roles, mapped).len(),
    ensures
        spec_other_choices(roles, mapped)[k].1 == "Other · "@ + spec_other_choices(roles, mapped)[k].0,
    decreases roles.len(),
{
    if roles.len() > 0 {
        let p = spec_other_choices(roles.drop_last(), mapped);
        if k < p.len() {
            lemma_other_title_shape(roles.drop_last(), mapped, k);
        }
    }
}

/// Titles are unambiguous: given distinct role files, no two choices carry
/// the same title.
pub proof fn law_titles_unambiguous(roles: Seq<Seq<char>>)
    requires
        roles.no_duplicates(),
    ensures
        choice_titles(spec_role_choices(roles)).no_duplicates(),
{
    lemma_group_aliases_distinct();
    lemma_mapped_groups();
    lemma_labels_plain();
    let gs = spec_role_groups();
    let labels = spec_all_labels();
    assert forall|g: int| 0 <= g < gs.len() implies (#[trigger] gs[g]).0 == labels[g] by {}
    assert(labels[11] == "Other"@);
    assert forall|g: int| 0 <= g < gs.len() implies !(#[trigger] gs[g]).0.contains('·') by {
        assert(gs[g].0 == labels[g]);
        assert(!labels[g].contains('·'));
    }
    assert forall|g: int, h: int| 0 <= g < h < gs.len() implies (#[trigger] gs[g]).0 != (#[trigger] gs[h]).0 by {
        assert(gs[g].0 == labels[g] && gs[h].0 == labels[h]);
    }
    let mapped = spec_mapped(gs);
    lemma_group_titles(gs, roles);
    lemma_other_titles(roles, mapped);
    let g = spec_group_choices(gs, roles);
    let o = spec_other_choices(roles, mapped);
    assert(choice_titles(g + o) =~= choice_titles(g) + choice_titles(o));
    assert forall|t: Seq<char>| choice_titles(g).contains(t) implies !choice_titles(o).contains(t) by {
        let k = choose|k: int| 0 <= k < gs.len() && headed(t, (#[trigger] gs[k]).0);
        assert(gs[k].0 == labels[k]);
        assert(labels[k] != labels[11]);
        assert(!labels[11].contains('·'));
        if choice_titles(o).contains(t) {
            lemma_heads_differ(t, t, gs[k].0, "Other"@);
        }
    }
    lemma_nodup_concat(choice_titles(g), choice_titles(o));
}

/// Whether a theme matches a query (see `matches`).
pub open spec fn spec_matches(theme: Theme, query: Seq<char>) -> bool {
    is_substring(spec_lowercase(theme.display@), spec_lowercase(spec_trim(query)))
        || is_substring(spec_lowercase(theme.name@), spec_lowercase(spec_trim(query)))
}

/// How many themes match a query.
pub open spec fn spec_match_count(themes: Seq<Theme>, query: Seq<char>) -> nat
    decreases themes.len(),
{
    if themes.len() == 0 {
        0
    } else {
        spec_match_count(themes.drop_last(), query) + (if spec_matches(themes.last(), query) { 1nat } else { 0nat })
    }
}

/// The theme list's summary for a query: the number of matching themes,
/// "N of M cursor themes", and the note shown for an empty or fruitless
/// list ("" otherwise).
pub fn list_summary(themes: &[Theme], query: &str) -> (r: (usize, String, &'static str))
    ensures
        r.0 == spec_match_count(themes@, query@),
        r.1@ == crate::text::spec_decimal(r.0 as nat) + " of "@ + crate::text::spec_decimal(themes@.len() as nat) + " cursor themes"@,
        r.2 == (if themes@.len() == 0 {
            "No verified cursor themes found.\nSee candidate diagnostics in the menu."
        } else if r.0 == 0 {
            "No matching themes.\nTry another search."
        } else {
            ""
        }),
{
    let mut visible: usize = 0;
    proof {
        assert(themes@.take(0) =~= seq![]);
    }
    for i in 0..themes.len()
        invariant
            visible == spec_match_count(themes@.take(i as int), query@),
            visible <= i,
    {
        proof {
            assert(themes@.take(i + 1).drop_last() =~= themes@.take(i as int));
        }
        if matches(&themes[i], query) {
            visible = visible + 1;
        }
    }
    assert(themes@.take(themes@.len() as int) =~= themes@);
    let count = concat3(crate::text::decimal(visible as u64).as_str(), " of ", crate::text::decimal(themes.len() as u64).as_str());
    let text = concat2(count.as_str(), " cursor themes");
    let empty = if themes.len() == 0 {
        "No verified cursor themes found.\nSee candidate diagnostics in the menu."
    } else if visible == 0 {
        "No matching themes.\nTry another search."
    } else {
        ""
    };
    (visible, text, empty)
}

/// Every role group names at least one file.
pub proof fn lemma_groups_nonempty()
    ensures
        spec_role_groups().len() == 11,
        forall|k: int| 0 <= k < 11 ==> (#[trigger] spec_role_groups()[k]).1.len() > 0,
{
    let gs = spec_role_groups();
    assert forall|k: int| 0 <= k < 11 implies (#[trigger] gs[k]).1.len() > 0 by {
        if k == 0 { } else if k == 1 { } else if k == 2 { } else if k == 3 { } else if k == 4 { }
        else if k == 5 { } else if k == 6 { } else if k == 7 { } else if k == 8 { } else if k == 9 { } else { }
    }
}

} // verus!
