//! Read-only trial of a theme: one cursor per role group, prepared at a
//! trial size, and a retained source thumbnail per group.
use crate::browser::{groups_view, role_groups, spec_best_thumb, spec_role_groups, thumbnail_variant};
use crate::catalog::ThemeRepository;
use crate::model::{Error, Frame, Preview, Resolution, ThemeName, Variant, VariantV, always_cancels, frames_view, never_cancels, variants_view};
use crate::resize::{spec_pixel_bytes, spec_resize};
use vstd::prelude::*;

verus! {

/// Trial cursors of a theme at one size, by role group.
pub struct TrialSet {
    pub theme: ThemeName,
    pub size: u32,
    pub thumbnails: Vec<Result<Variant, Error>>,
    pub roles: Vec<(&'static str, Result<Preview, Error>)>,
}

/// Pixel bytes of all trial cursors together.
pub const MAX_BYTES: usize = 16777216;

/// Frames of one trial cursor or thumbnail.
pub const MAX_FRAMES: usize = 256;

/// Pixel bytes retained for source thumbnails.
pub const MAX_THUMBNAIL_BYTES: usize = 67108864;

/// The pixel bytes of `frames` when they are at most `cap`.
pub fn pixel_bytes_within(frames: &Vec<Frame>, cap: usize) -> (r: Option<usize>)
    ensures
        match r {
            Some(n) => n == spec_pixel_bytes(frames_view(frames@)) && n <= cap,
            None => spec_pixel_bytes(frames_view(frames@)) > cap,
        },
{
    let ghost fv = frames_view(frames@);
    let mut n: usize = 0;
    for i in 0..frames.len()
        invariant
            fv == frames_view(frames@),
            n == spec_pixel_bytes(fv.take(i as int)),
            n <= cap,
    {
        proof {
            assert(fv.take(i + 1).drop_last() =~= fv.take(i as int));
        }
        let len = frames[i].rgba.len();
        if len > cap - n {
            proof {
                lemma_pixel_bytes_prefix(fv, i + 1);
            }
            return None;
        }
        n = n + len;
    }
    assert(fv.take(frames@.len() as int) =~= fv);
    Some(n)
}

/// Pixel byte counts are never negative.
pub proof fn lemma_pixel_bytes_nonneg(fs: Seq<crate::model::FrameV>)
    ensures
        spec_pixel_bytes(fs) >= 0,
    decreases fs.len(),
{
    if fs.len() > 0 {
        lemma_pixel_bytes_nonneg(fs.drop_last());
    }
}

/// Pixel bytes of a prefix never exceed those of the whole.
pub proof fn lemma_pixel_bytes_prefix(fs: Seq<crate::model::FrameV>, k: int)
    requires
        0 <= k <= fs.len(),
    ensures
        spec_pixel_bytes(fs.take(k)) <= spec_pixel_bytes(fs),
    decreases fs.len() - k,
{
    if k < fs.len() {
        lemma_pixel_bytes_prefix(fs, k + 1);
        assert(fs.take(k + 1).drop_last() =~= fs.take(k));
    } else {
        assert(fs.take(k) =~= fs);
    }
}

/// Whether variant `i` is the first one whose nominal size is closest to `size`.
pub open spec fn spec_closest(vs: Seq<VariantV>, size: u32, i: int) -> bool {
    &&& 0 <= i < vs.len()
    &&& forall|j: int| 0 <= j < vs.len() ==> spec_distance(vs[i].nominal, size) <= #[trigger] spec_distance(vs[j].nominal, size)
    &&& forall|j: int| 0 <= j < i ==> spec_distance(vs[i].nominal, size) < #[trigger] spec_distance(vs[j].nominal, size)
}

pub open spec fn spec_distance(a: u32, b: u32) -> int {
    if a >= b { a - b } else { b - a }
}

/// What preparing the closest variant `v` at `size` yields.
pub open spec fn spec_prepared(v: VariantV, size: u32) -> Result<VariantV, Error> {
    if v.nominal == 0 || v.frames.len() == 0 {
        Err(Error::Invalid("empty trial variant"))
    } else if v.frames.len() > 256 {
        Err(Error::LimitExceeded("trial animation frames"))
    } else {
        spec_resize(v, size, MAX_BYTES as int)
    }
}

fn closest(vs: &Vec<Variant>, size: u32) -> (r: Option<usize>)
    ensures
        match r {
            Some(i) => spec_closest(variants_view(vs@), size, i as int),
            None => vs@.len() == 0,
        },
{
    let ghost vv = variants_view(vs@);
    let mut best: Option<usize> = None;
    let mut best_d: u32 = 0;
    for i in 0..vs.len()
        invariant
            vv == variants_view(vs@),
            match best {
                Some(b) => b < i && spec_closest(vv.take(i as int), size, b as int) && best_d
                    == spec_distance(vv[b as int].nominal, size),
                None => i == 0,
            },
    {
        let n = vs[i].nominal;
        let d = if n >= size { n - size } else { size - n };
        proof {
            assert(vv[i as int].nominal == n);
        }
        let better = match best {
            None => true,
            Some(_) => d < best_d,
        };
        if better {
            best = Some(i);
            best_d = d;
        }
        proof {
            let t = vv.take(i + 1);
            let b = best.unwrap() as int;
            assert forall|j: int| 0 <= j < t.len() implies spec_distance(t[b].nominal, size) <= #[trigger] spec_distance(t[j].nominal, size) by {
                if j < i {
                    assert(t[j] == vv.take(i as int)[j]);
                }
                if b < i {
                    assert(t[b] == vv.take(i as int)[b]);
                }
            }
            assert forall|j: int| 0 <= j < b implies spec_distance(t[b].nominal, size) < #[trigger] spec_distance(t[j].nominal, size) by {
                assert(t[j] == vv.take(i as int)[j]);
                if b < i {
                    assert(t[b] == vv.take(i as int)[b]);
                }
            }
        }
    }
    assert(vv.take(vs@.len() as int) =~= vv);
    best
}

/// What preparing `p` for trial at `size` gives: an invalid size and a
/// preview without variants are refused; otherwise the closest variant
/// (`spec_closest`) is resized (`spec_prepared`) and becomes the only one,
/// provenance kept, or its failure (or a cancellation) is the result.
pub open spec fn spec_prepare_result(p: Preview, size: u32, r: Result<Preview, Error>) -> bool {
    &&& !(16 <= size <= 64) ==> r == Err::<Preview, Error>(Error::Invalid("trial size must be 16–64"))
    &&& 16 <= size <= 64 && p.variants@.len() == 0 ==> r == Err::<Preview, Error>(Error::Missing)
    &&& 16 <= size <= 64 && p.variants@.len() > 0 ==> exists|i: int|
        #[trigger] spec_closest(variants_view(p.variants@), size, i) && match r {
            Ok(q) => {
                &&& q.variants@.len() == 1
                &&& spec_prepared(p.variants@[i]@, size) == Ok::<VariantV, Error>(q.variants@[0]@)
                &&& q.requested == p.requested
                &&& q.role == p.role
                &&& q.source == p.source
                &&& q.chain == p.chain
                &&& q.resolution == p.resolution
            },
            Err(e) => e == Error::Cancelled || spec_prepared(p.variants@[i]@, size) == Err::<VariantV, Error>(e),
        }
    &&& r matches Ok(q) ==> q.variants@.len() == 1 && spec_pixel_bytes(q.variants@[0]@.frames) <= MAX_BYTES
}

/// Prepares a preview for trial at `size` (16 to 64): the variant whose
/// nominal size is closest (the first of equals) is resized to `size`, and
/// becomes the only variant; provenance is kept.
pub fn prepare<F: Fn() -> bool>(p: Preview, size: u32, cancel: &F) -> (r: Result<Preview, Error>)
    requires
        cancel.requires(()),
    ensures
        spec_prepare_result(p, size, r),
        16 <= size <= 64 && p.variants@.len() > 0 ==> exists|i: int|
            spec_closest(variants_view(p.variants@), size, i) && (always_cancels(cancel) && p.variants@[i].nominal != 0
                && 0 < p.variants@[i].frames@.len() <= 256 ==> r == Err::<Preview, Error>(Error::Cancelled)),
        never_cancels(cancel) ==> !(r matches Err(Error::Cancelled)),
{
    if !(16 <= size && size <= 64) {
        return Err(Error::Invalid("trial size must be 16–64"));
    }
    let i = match closest(&p.variants, size) {
        Some(i) => i,
        None => {
            return Err(Error::Missing);
        },
    };
    let ghost vv = variants_view(p.variants@);
    proof {
        assert(vv[i as int] == p.variants@[i as int]@);
    }
    let v = &p.variants[i];
    if v.nominal == 0 || v.frames.len() == 0 {
        return Err(Error::Invalid("empty trial variant"));
    }
    if v.frames.len() > MAX_FRAMES {
        return Err(Error::LimitExceeded("trial animation frames"));
    }
    let resized = match crate::resize::variant(v, size, MAX_BYTES, cancel) {
        Ok(x) => x,
        Err(e) => {
            return Err(e);
        },
    };
    let mut variants = Vec::new();
    variants.push(resized);
    Ok(Preview { variants, ..p })
}

/// Retains the source variant for a role's thumbnail (the one
/// `thumbnail_variant` picks for 128 pixels), charging its pixel bytes to
/// `bytes`; pixels are shared, not copied.
pub fn source_thumbnail(p: &Preview, bytes: &mut usize) -> (r: Result<Variant, Error>)
    ensures
        match r {
            Ok(v) => exists|i: int|
                spec_best_thumb(variants_view(p.variants@), 128, i) && v@ == p.variants@[i]@ && v.frames@
                    == p.variants@[i].frames@ && v.frames@.len() <= 256 && *final(bytes) == *old(bytes)
                    + spec_pixel_bytes(v@.frames) && (*final(bytes) <= MAX_THUMBNAIL_BYTES || (*old(
                    bytes) > MAX_THUMBNAIL_BYTES && spec_pixel_bytes(v@.frames) == 0)),
            Err(e) => *final(bytes) == *old(bytes) && match e {
                Error::Missing => forall|j: int|
                    0 <= j < p.variants@.len() ==> (#[trigger] p.variants@[j]).frames@.len() == 0,
                Error::LimitExceeded(m) => exists|i: int|
                    spec_best_thumb(variants_view(p.variants@), 128, i) && (
                    (m == "thumbnail animation frames" && p.variants@[i].frames@.len() > 256) || (m
                        == "source thumbnail pixels" && p.variants@[i].frames@.len() <= 256
                        && spec_pixel_bytes(p.variants@[i]@.frames) > (if *old(bytes)
                        <= MAX_THUMBNAIL_BYTES {
                        MAX_THUMBNAIL_BYTES - *old(bytes)
                    } else {
                        0
                    }))),
                _ => false,
            },
        },
{
    let v = match thumbnail_variant(p, 128) {
        Some(v) => v,
        None => {
            return Err(Error::Missing);
        },
    };
    if v.frames.len() > MAX_FRAMES {
        return Err(Error::LimitExceeded("thumbnail animation frames"));
    }
    let room = MAX_THUMBNAIL_BYTES.saturating_sub(*bytes);
    let n = match pixel_bytes_within(&v.frames, room) {
        Some(n) => n,
        None => {
            return Err(Error::LimitExceeded("source thumbnail pixels"));
        },
    };
    *bytes = *bytes + n;
    Ok(v.clone())
}

/// One alias probe folded into the result so far: a direct or inherited
/// hit ends the search; a fallback hit is kept only while nothing was
/// found; an error replaces only a plain `Missing`.
pub fn probe_step(found: Result<Preview, Error>, probe: Result<Preview, Error>) -> (r: (
    Result<Preview, Error>,
    bool,
))
    ensures
        match probe {
            Ok(p) => if p.resolution != Resolution::Fallback {
                r == (probe, true)
            } else if found is Err {
                r == (probe, false)
            } else {
                r == (found, false)
            },
            Err(e) => if found == Err::<Preview, Error>(Error::Missing) {
                r == (probe, false)
            } else {
                r == (found, false)
            },
        },
{
    match probe {
        Ok(p) => {
            if p.resolution != Resolution::Fallback {
                (Ok(p), true)
            } else if found.is_err() {
                (Ok(p), false)
            } else {
                (found, false)
            }
        },
        Err(e) => {
            let missing = match &found {
                Err(Error::Missing) => true,
                _ => false,
            };
            if missing {
                (Err(e), false)
            } else {
                (found, false)
            }
        },
    }
}

/// `probe_step` as a function of its arguments.
pub open spec fn spec_probe_step(found: Result<Preview, Error>, probe: Result<Preview, Error>) -> (Result<Preview, Error>, bool) {
    match probe {
        Ok(p) => if p.resolution != Resolution::Fallback {
            (probe, true)
        } else if found is Err {
            (probe, false)
        } else {
            (found, false)
        },
        Err(_) => if found == Err::<Preview, Error>(Error::Missing) {
            (probe, false)
        } else {
            (found, false)
        },
    }
}

/// The result of folding `probe_step` over `ps` from `Err(Missing)`, and
/// whether the last step ended the search.
pub open spec fn spec_probes(ps: Seq<Result<Preview, Error>>) -> (Result<Preview, Error>, bool)
    decreases ps.len(),
{
    if ps.len() == 0 {
        (Err(Error::Missing), false)
    } else {
        spec_probe_step(spec_probes(ps.drop_last()).0, ps.last())
    }
}

/// A search of `theme` for one role: `ps` are the repository's answers for
/// the role's aliases, probed in order and none a cancellation, until a
/// direct or inherited file ended the search or the aliases ran out;
/// `found` is what `probe_step` kept of them.
pub open spec fn alias_search<R: ThemeRepository>(
    repo: &R,
    theme: &ThemeName,
    aliases: Seq<Seq<char>>,
    ps: Seq<Result<Preview, Error>>,
    found: Result<Preview, Error>,
) -> bool {
    &&& 0 < ps.len() <= aliases.len()
    &&& forall|k: int| 0 <= k < ps.len() ==> (exists|s: &str| s@ == aliases[k] && #[trigger] repo.previewed(theme, s, &ps[k]))
        && !(#[trigger] ps[k] matches Err(Error::Cancelled))
    &&& forall|k: int| 0 < k < ps.len() ==> !(#[trigger] spec_probes(ps.take(k))).1
    &&& (ps.len() == aliases.len() || spec_probes(ps).1)
    &&& found == spec_probes(ps).0
}

/// What `charge` leaves of a prepared preview: the preview, or the refusal
/// of a prepared one when the trial's pixel total is reached.
pub open spec fn spec_charged(prepared: Result<Preview, Error>, r: Result<Preview, Error>) -> bool {
    r == prepared || (prepared is Ok && r == Err::<Preview, Error>(Error::LimitExceeded("trial total pixels")))
}

/// Role group `i` of a trial of `theme` at `size`: its aliases searched
/// (`alias_search`), the kept preview prepared (`spec_prepare_result`) or
/// its error kept, then charged.
pub open spec fn loaded_role<R: ThemeRepository>(
    repo: &R,
    theme: &ThemeName,
    size: u32,
    i: int,
    w: (Seq<Result<Preview, Error>>, Result<Preview, Error>, Result<Preview, Error>),
    entry: Result<Preview, Error>,
) -> bool {
    &&& alias_search(repo, theme, spec_role_groups()[i].1, w.0, w.1)
    &&& match w.1 {
        Ok(p) => spec_prepare_result(p, size, w.2),
        Err(e) => w.2 == Err::<Preview, Error>(e),
    }
    &&& spec_charged(w.2, entry)
}

/// Charges a prepared trial cursor's pixel bytes to `bytes`, refusing it when
/// the trial total would exceed `MAX_BYTES`.
pub fn charge(prepared: Result<Preview, Error>, bytes: &mut usize) -> (r: Result<Preview, Error>)
    requires
        *old(bytes) <= MAX_BYTES,
        prepared matches Ok(q) ==> q.variants@.len() == 1 && spec_pixel_bytes(q.variants@[0]@.frames) <= MAX_BYTES,
    ensures
        *final(bytes) <= MAX_BYTES,
        match prepared {
            Ok(q) => if spec_pixel_bytes(q.variants@[0]@.frames) > MAX_BYTES - *old(bytes) {
                r == Err::<Preview, Error>(Error::LimitExceeded("trial total pixels")) && *final(bytes) == *old(bytes)
            } else {
                r == prepared && *final(bytes) == *old(bytes) + spec_pixel_bytes(q.variants@[0]@.frames)
            },
            Err(_) => r == prepared && *final(bytes) == *old(bytes),
        },
{
    match prepared {
        Ok(q) => {
            let n = match pixel_bytes_within(&q.variants[0].frames, MAX_BYTES) {
                Some(n) => n,
                None => {
                    return Err(Error::LimitExceeded("trial total pixels"));
                },
            };
            if n > MAX_BYTES - *bytes {
                return Err(Error::LimitExceeded("trial total pixels"));
            }
            *bytes = *bytes + n;
            Ok(q)
        },
        Err(e) => Err(e),
    }
}

/// The pixel bytes of the prepared trial cursors.
pub open spec fn spec_trial_bytes(rs: Seq<(&'static str, Result<Preview, Error>)>) -> int
    decreases rs.len(),
{
    if rs.len() == 0 {
        0
    } else {
        spec_trial_bytes(rs.drop_last()) + match rs.last().1 {
            Ok(q) => spec_pixel_bytes(q.variants@[0]@.frames),
            Err(_) => 0,
        }
    }
}

/// The pixel bytes of the retained thumbnails.
pub open spec fn spec_thumbnail_bytes(ts: Seq<Result<Variant, Error>>) -> int
    decreases ts.len(),
{
    if ts.len() == 0 {
        0
    } else {
        spec_thumbnail_bytes(ts.drop_last()) + match ts.last() {
            Ok(v) => spec_pixel_bytes(v@.frames),
            Err(_) => 0,
        }
    }
}

/// Loads a trial of `theme`: per role group, aliases are probed in order,
/// preferring direct or inherited files over the automatic fallback; each
/// found file gets a thumbnail and a cursor prepared at `size`. Only
/// cancellation fails the whole load.
pub fn load<R: ThemeRepository, F: Fn() -> bool>(repo: &R, theme: &ThemeName, size: u32, cancel: &F) -> (r: Result<TrialSet, Error>)
    requires
        cancel.requires(()),
    ensures
        r matches Err(e) ==> e == Error::Cancelled,
        always_cancels(cancel) ==> r == Err::<TrialSet, Error>(Error::Cancelled),
        r matches Ok(t) ==> {
            &&& t.theme@ == theme@
            &&& t.size == size
            &&& t.thumbnails@.len() == 11
            &&& t.roles@.len() == 11
            &&& forall|i: int| 0 <= i < 11 ==> (#[trigger] t.roles@[i]).0@ == spec_role_groups()[i].0
            &&& forall|i: int| 0 <= i < 11 ==> ((#[trigger] t.roles@[i]).1 matches Ok(q) ==> q.variants@.len() == 1)
            &&& forall|i: int| 0 <= i < 11 ==> ((#[trigger] t.thumbnails@[i]) matches Ok(v) ==> v.frames@.len() <= 256)
            &&& spec_trial_bytes(t.roles@) <= MAX_BYTES
            &&& spec_thumbnail_bytes(t.thumbnails@) <= MAX_THUMBNAIL_BYTES
            &&& exists|ws: Seq<(Seq<Result<Preview, Error>>, Result<Preview, Error>, Result<Preview, Error>)>|
                #[trigger] ws.len() == 11 && forall|i: int| 0 <= i < 11 ==> #[trigger] loaded_role(repo, theme, size, i, ws[i], t.roles@[i].1)
        },
{
    let groups = role_groups();
    let ghost mut ws: Seq<(Seq<Result<Preview, Error>>, Result<Preview, Error>, Result<Preview, Error>)> = seq![];
    let mut roles: Vec<(&'static str, Result<Preview, Error>)> = Vec::new();
    let mut thumbnails: Vec<Result<Variant, Error>> = Vec::new();
    let mut thumbnail_bytes: usize = 0;
    let mut bytes: usize = 0;
    for g in 0..groups.len()
        invariant
            cancel.requires(()),
            groups_view(groups@) == spec_role_groups(),
            roles@.len() == g,
            thumbnails@.len() == g,
            bytes <= MAX_BYTES,
            bytes == spec_trial_bytes(roles@),
            always_cancels(cancel) ==> g == 0,
            thumbnail_bytes <= MAX_THUMBNAIL_BYTES,
            thumbnail_bytes == spec_thumbnail_bytes(thumbnails@),
            forall|i: int| 0 <= i < g ==> (#[trigger] roles@[i]).0@ == spec_role_groups()[i].0,
            forall|i: int| 0 <= i < g ==> ((#[trigger] roles@[i]).1 matches Ok(q) ==> q.variants@.len() == 1),
            forall|i: int| 0 <= i < g ==> ((#[trigger] thumbnails@[i]) matches Ok(v) ==> v.frames@.len() <= 256),
            ws.len() == g,
            forall|i: int| 0 <= i < g ==> #[trigger] loaded_role(repo, theme, size, i, ws[i], roles@[i].1),
    {
        let label = groups[g].0;
        let aliases = &groups[g].1;
        proof {
            assert(spec_role_groups()[g as int].0 == label@);
        }
        proof {
            assert(groups_view(groups@)[g as int] == spec_role_groups()[g as int]);
            assert(spec_role_groups()[g as int].1 == crate::browser::strs_view(aliases@));
            crate::browser::lemma_groups_nonempty();
            assert(spec_role_groups()[g as int].1.len() > 0);
        }
        let ghost av = spec_role_groups()[g as int].1;
        let mut found: Result<Preview, Error> = Err(Error::Missing);
        let mut j: usize = 0;
        let ghost mut probed = false;
        let ghost mut ps: Seq<Result<Preview, Error>> = seq![];
        while j < aliases.len()
            invariant_except_break
                ps.len() == j,
                forall|k: int| 0 < k <= ps.len() ==> !(#[trigger] spec_probes(ps.take(k))).1,
            invariant
                cancel.requires(()),
                j <= aliases@.len(),
                aliases@.len() > 0,
                j > 0 ==> probed,
                always_cancels(cancel) ==> !probed,
                av == crate::browser::strs_view(aliases@),
                ps.len() <= aliases@.len(),
                forall|k: int| 0 <= k < ps.len() ==> (exists|s: &str| s@ == av[k] && #[trigger] repo.previewed(theme, s, &ps[k]))
                    && !(#[trigger] ps[k] matches Err(Error::Cancelled)),
                found == spec_probes(ps).0,
            ensures
                probed,
                always_cancels(cancel) ==> !probed,
                0 < ps.len(),
                forall|k: int| 0 < k < ps.len() ==> !(#[trigger] spec_probes(ps.take(k))).1,
                ps.len() == aliases@.len() || spec_probes(ps).1,
            decreases aliases@.len() - j,
        {
            if cancel() {
                return Err(Error::Cancelled);
            }
            proof {
                probed = true;
            }
            let probe = repo.preview(theme, aliases[j], cancel);
            if let Err(Error::Cancelled) = probe {
                return Err(Error::Cancelled);
            }
            let ghost before = ps;
            proof {
                ps = ps.push(probe);
                assert(ps.drop_last() =~= before);
                assert(ps.take(ps.len() as int) =~= ps);
                assert(av[j as int] == aliases@[j as int]@);
                assert(repo.previewed(theme, aliases@[j as int], &ps[j as int]));
                assert forall|k: int| 0 < k < ps.len() implies spec_probes(ps.take(k)) == spec_probes(before.take(k)) by {
                    assert(ps.take(k) =~= before.take(k));
                }
            }
            let (next, stop) = probe_step(found, probe);
            found = next;
            if stop {
                break;
            }
            j = j + 1;
        }
        let ghost kept = found;
        let thumbnail = match &found {
            Ok(p) => source_thumbnail(p, &mut thumbnail_bytes),
            Err(e) => Err(e.clone()),
        };
        let ghost old_thumbs = thumbnails@;
        thumbnails.push(thumbnail);
        proof {
            assert(thumbnails@.drop_last() =~= old_thumbs);
        }
        let prepared = match found {
            Ok(p) => prepare(p, size, cancel),
            Err(e) => Err(e),
        };
        let ghost prep = prepared;
        let charged = charge(prepared, &mut bytes);
        let ghost old_roles = roles@;
        roles.push((label, charged));
        proof {
            assert(roles@.drop_last() =~= old_roles);
            let w = (ps, kept, prep);
            assert(loaded_role(repo, theme, size, g as int, w, roles@[g as int].1));
            ws = ws.push(w);
            assert forall|i: int| 0 <= i < g + 1 implies #[trigger] loaded_role(repo, theme, size, i, ws[i], roles@[i].1) by {
                if i < g {
                    assert(roles@[i] == old_roles[i]);
                }
            }
        }
    }
    assert(groups_view(groups@).len() == groups@.len());
    assert(spec_role_groups().len() == 11);
    let t = TrialSet { theme: theme.clone(), size, thumbnails, roles };
    assert(ws.len() == 11 && forall|i: int| 0 <= i < 11 ==> #[trigger] loaded_role(repo, theme, size, i, ws[i], t.roles@[i].1));
    Ok(t)
}

} // verus!
