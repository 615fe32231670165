//! The system cursor test: which of its role files a theme provides by
//! exact name, and what the repository reports for each of them.
use crate::catalog::ThemeRepository;
use crate::model::{Error, Preview, Resolution, ThemeName, Variant, always_cancels};
use crate::text::{concat2, concat3, decimal, spec_decimal, str_eq};
use vstd::prelude::*;
use vstd::string::StringExecFns;

verus! {

/// The system test set: a label and the exact role file name.
pub const ROLES: [(&'static str, &'static str); 34] = [
    ("Normal", "default"),
    ("Link", "pointer"),
    ("Text", "text"),
    ("Busy", "wait"),
    ("Working in background", "progress"),
    ("Horizontal resize", "ew-resize"),
    ("Vertical resize", "ns-resize"),
    ("Move", "move"),
    ("Unavailable", "not-allowed"),
    ("Diagonal ↖ ↘", "nwse-resize"),
    ("Crosshair", "crosshair"),
    ("Diagonal ↗ ↙", "nesw-resize"),
    ("Left edge", "w-resize"),
    ("Right edge", "e-resize"),
    ("Top edge", "n-resize"),
    ("Bottom edge", "s-resize"),
    ("Top left corner", "nw-resize"),
    ("Top right corner", "ne-resize"),
    ("Bottom left corner", "sw-resize"),
    ("Bottom right corner", "se-resize"),
    ("Help", "help"),
    ("Grab", "grab"),
    ("Grabbing", "grabbing"),
    ("Copy", "copy"),
    ("Alias", "alias"),
    ("No drop", "no-drop"),
    ("Context menu", "context-menu"),
    ("Cell", "cell"),
    ("Vertical text", "vertical-text"),
    ("Column resize", "col-resize"),
    ("Row resize", "row-resize"),
    ("All scroll", "all-scroll"),
    ("Zoom in", "zoom-in"),
    ("Zoom out", "zoom-out"),
];

pub open spec fn pairs_view(v: Seq<(&'static str, &'static str)>) -> Seq<(Seq<char>, Seq<char>)> {
    v.map_values(|p: (&'static str, &'static str)| (p.0@, p.1@))
}

pub open spec fn spec_roles() -> Seq<(Seq<char>, Seq<char>)> {
    seq![
        ("Normal"@, "default"@),
        ("Link"@, "pointer"@),
        ("Text"@, "text"@),
        ("Busy"@, "wait"@),
        ("Working in background"@, "progress"@),
        ("Horizontal resize"@, "ew-resize"@),
        ("Vertical resize"@, "ns-resize"@),
        ("Move"@, "move"@),
        ("Unavailable"@, "not-allowed"@),
        ("Diagonal ↖ ↘"@, "nwse-resize"@),
        ("Crosshair"@, "crosshair"@),
        ("Diagonal ↗ ↙"@, "nesw-resize"@),
        ("Left edge"@, "w-resize"@),
        ("Right edge"@, "e-resize"@),
        ("Top edge"@, "n-resize"@),
        ("Bottom edge"@, "s-resize"@),
        ("Top left corner"@, "nw-resize"@),
        ("Top right corner"@, "ne-resize"@),
        ("Bottom left corner"@, "sw-resize"@),
        ("Bottom right corner"@, "se-resize"@),
        ("Help"@, "help"@),
        ("Grab"@, "grab"@),
        ("Grabbing"@, "grabbing"@),
        ("Copy"@, "copy"@),
        ("Alias"@, "alias"@),
        ("No drop"@, "no-drop"@),
        ("Context menu"@, "context-menu"@),
        ("Cell"@, "cell"@),
        ("Vertical text"@, "vertical-text"@),
        ("Column resize"@, "col-resize"@),
        ("Row resize"@, "row-resize"@),
        ("All scroll"@, "all-scroll"@),
        ("Zoom in"@, "zoom-in"@),
        ("Zoom out"@, "zoom-out"@)
    ]
}

pub proof fn lemma_roles()
    ensures
        pairs_view(ROLES@) == spec_roles(),
        ROLES@.len() == 34,
{
    assert(pairs_view(ROLES@) =~~= spec_roles());
}

/// Which system test files a theme lacks, by exact name.
#[derive(Debug, PartialEq, Eq)]
pub struct Coverage {
    pub missing: Vec<(&'static str, &'static str)>,
}

/// The entries of `roles` whose file name is not among `names`, in order.
pub open spec fn spec_missing(roles: Seq<(Seq<char>, Seq<char>)>, names: Seq<Seq<char>>) -> Seq<
    (Seq<char>, Seq<char>),
>
    decreases roles.len(),
{
    if roles.len() == 0 {
        seq![]
    } else {
        let p = spec_missing(roles.drop_last(), names);
        if names.contains(roles.last().1) {
            p
        } else {
            p.push(roles.last())
        }
    }
}

pub open spec fn names_view(v: Seq<&str>) -> Seq<Seq<char>> {
    v.map_values(|s: &str| s@)
}

fn contains_str_in(names: &[&str], n: &str) -> (r: bool)
    ensures
        r == names_view(names@).contains(n@),
{
    for i in 0..names.len()
        invariant
            forall|j: int| 0 <= j < i ==> names@[j]@ != n@,
    {
        if str_eq(names[i], n) {
            assert(names_view(names@)[i as int] == n@);
            return true;
        }
    }
    proof {
        if names_view(names@).contains(n@) {
            let j = choose|j: int| 0 <= j < names_view(names@).len() && names_view(names@)[j] == n@;
            assert(names@[j]@ == n@);
        }
    }
    false
}

/// The system test entries whose file is not among `names`; aliases,
/// inheritance and fallbacks are not considered.
pub fn coverage(names: &[&str]) -> (r: Coverage)
    ensures
        pairs_view(r.missing@) == spec_missing(spec_roles(), names_view(names@)),
{
    proof {
        lemma_roles();
    }
    let ghost rs = spec_roles();
    let mut missing: Vec<(&'static str, &'static str)> = Vec::new();
    for i in 0..34
        invariant
            pairs_view(ROLES@) == rs,
            rs.len() == 34,
            pairs_view(missing@) == spec_missing(rs.take(i as int), names_view(names@)),
    {
        let entry = ROLES[i];
        proof {
            assert(rs.take(i + 1).drop_last() =~= rs.take(i as int));
            assert(rs.take(i + 1).last() == (entry.0@, entry.1@));
        }
        if !contains_str_in(names, entry.1) {
            missing.push(entry);
            assert(pairs_view(missing@) =~= spec_missing(rs.take(i + 1), names_view(names@)));
        }
    }
    assert(rs.take(34) =~= rs);
    Coverage { missing }
}

/// "System files: covered/total covered · missing missing".
pub open spec fn spec_summary(missing: nat) -> Seq<char> {
    "System files: "@ + spec_decimal((34 - missing) as nat) + "/"@ + spec_decimal(34) + " covered · "@
        + spec_decimal(missing) + " missing"@
}

/// One line per missing entry: "label (name)", joined by newlines.
pub open spec fn spec_missing_lines(m: Seq<(Seq<char>, Seq<char>)>) -> Seq<char>
    decreases m.len(),
{
    if m.len() == 0 {
        seq![]
    } else if m.len() == 1 {
        m[0].0 + " ("@ + m[0].1 + ")"@
    } else {
        spec_missing_lines(m.drop_last()) + "\n"@ + m.last().0 + " ("@ + m.last().1 + ")"@
    }
}

impl Coverage {
    /// The count line.
    pub fn summary(&self) -> (r: String)
        requires
            self.missing@.len() <= 34,
        ensures
            r@ == spec_summary(self.missing@.len() as nat),
    {
        let n = self.missing.len() as u64;
        let mut s = concat2("System files: ", decimal(34 - n).as_str());
        s.append("/");
        s.append(decimal(34).as_str());
        s.append(" covered · ");
        s.append(decimal(n).as_str());
        s.append(" missing");
        s
    }

    /// The count line, then every missing entry (or "None"), then a note on
    /// what the count does not establish.
    pub fn details(&self) -> (r: String)
        requires
            self.missing@.len() <= 34,
        ensures
            r@ == spec_summary(self.missing@.len() as nat) + "\nNot provided by this theme:\n"@ + (
            if self.missing@.len() == 0 {
                "None"@
            } else {
                spec_missing_lines(pairs_view(self.missing@))
            }) + "\nMissing files may use desktop fallback. This checks the 34 names in Test current cursor, not every application or the actual moving pointer."@,
    {
        let ghost mv = pairs_view(self.missing@);
        let mut lines = String::new();
        if self.missing.len() == 0 {
            lines = String::from_str("None");
        } else {
            for i in 0..self.missing.len()
                invariant
                    mv == pairs_view(self.missing@),
                    i > 0 ==> lines@ == spec_missing_lines(mv.take(i as int)),
                    i == 0 ==> lines@.len() == 0,
            {
                let (label, name) = self.missing[i];
                proof {
                    assert(mv.take(i + 1).drop_last() =~= mv.take(i as int));
                    assert(mv.take(i + 1).last() == (label@, name@));
                }
                if i > 0 {
                    lines.append("\n");
                }
                lines.append(label);
                lines.append(" (");
                lines.append(name);
                lines.append(")");
                proof {
                    if i == 0 {
                        assert(mv.take(1)[0] == (label@, name@));
                    }
                }
            }
            assert(mv.take(mv.len() as int) =~= mv);
        }
        let mut s = self.summary();
        s.append("\nNot provided by this theme:\n");
        s.append(lines.as_str());
        s.append(
            "\nMissing files may use desktop fallback. This checks the 34 names in Test current cursor, not every application or the actual moving pointer.",
        );
        s
    }
}

/// What the repository reported for one system test file.
#[derive(Debug)]
pub struct Evidence {
    pub source: String,
    pub chain: Vec<String>,
    pub resolution: Resolution,
    pub frames: usize,
}

/// The largest frame count among `vs`, 0 for none.
pub open spec fn spec_max_frames(vs: Seq<Variant>) -> nat
    decreases vs.len(),
{
    if vs.len() == 0 {
        0
    } else {
        let m = spec_max_frames(vs.drop_last());
        if vs.last().frames@.len() > m {
            vs.last().frames@.len()
        } else {
            m
        }
    }
}

/// The evidence a preview gives: its source, chain, resolution and the
/// largest frame count among its variants.
pub fn evidence(p: Preview) -> (r: Evidence)
    ensures
        r.source@ == p.source@,
        r.chain@ == p.chain@,
        r.resolution == p.resolution,
        r.frames == spec_max_frames(p.variants@),
{
    let mut frames: usize = 0;
    for i in 0..p.variants.len()
        invariant
            frames == spec_max_frames(p.variants@.take(i as int)),
    {
        proof {
            assert(p.variants@.take(i + 1).drop_last() =~= p.variants@.take(i as int));
        }
        if p.variants[i].frames.len() > frames {
            frames = p.variants[i].frames.len();
        }
    }
    assert(p.variants@.take(p.variants@.len() as int) =~= p.variants@);
    Evidence { source: p.source, chain: p.chain, resolution: p.resolution, frames }
}

/// Probes every system test file of `theme` in order. Only cancellation
/// fails the audit; every other outcome is recorded per file, and a
/// cancelled probe is never recorded.
pub fn audit<R: ThemeRepository, F: Fn() -> bool>(repo: &R, theme: &ThemeName, cancel: &F) -> (r:
    Result<Vec<Result<Evidence, Error>>, Error>)
    requires
        cancel.requires(()),
    ensures
        r matches Err(e) ==> e == Error::Cancelled,
        always_cancels(cancel) ==> r == Err::<Vec<Result<Evidence, Error>>, Error>(Error::Cancelled),
        r matches Ok(v) ==> audit_of(repo, theme, v@),
{
    let mut results: Vec<Result<Evidence, Error>> = Vec::new();
    let ghost mut probes: Seq<Result<Preview, Error>> = seq![];
    proof {
        lemma_roles();
    }
    for i in 0..34
        invariant
            cancel.requires(()),
            always_cancels(cancel) ==> i == 0,
            results@.len() == i,
            probes.len() == i,
            pairs_view(ROLES@) == spec_roles(),
            forall|j: int| 0 <= j < i ==> #[trigger] audited(repo, theme, j, probes[j], results@[j]),
    {
        let name = ROLES[i].1;
        assert(name@ == spec_roles()[i as int].1);
        if cancel() {
            return Err(Error::Cancelled);
        }
        let result = repo.preview(theme, name, cancel);
        let ghost probe = result;
        let entry = match result {
            Ok(p) => Ok(evidence(p)),
            Err(Error::Cancelled) => {
                return Err(Error::Cancelled);
            },
            Err(e) => Err(e),
        };
        results.push(entry);
        proof {
            probes = probes.push(probe);
        }
    }
    assert(results@.len() == 34);
    assert(probes.len() == 34);
    proof {
        assert(probes.len() == 34 && forall|i: int| 0 <= i < 34 ==> #[trigger] audited(repo, theme, i, probes[i], results@[i]));
        assert(audit_of(repo, theme, results@));
    }
    Ok(results)
}

/// An audit of `theme`: one entry for each system test file, in order, each
/// made from the repository's answer to a preview of that file.
pub open spec fn audit_of<R: ThemeRepository>(repo: &R, theme: &ThemeName, v: Seq<Result<Evidence, Error>>) -> bool {
    &&& v.len() == 34
    &&& exists|ps: Seq<Result<Preview, Error>>| #[trigger] ps.len() == 34 && forall|i: int| 0 <= i < 34 ==> #[trigger] audited(repo, theme, i, ps[i], v[i])
}

/// Entry `i` of an audit of `theme`: `p` is the repository's answer to a
/// preview of the entry's role file, other than a cancellation, and the
/// entry is its evidence or its error.
pub open spec fn audited<R: ThemeRepository>(repo: &R, theme: &ThemeName, i: int, p: Result<Preview, Error>, entry: Result<Evidence, Error>) -> bool {
    &&& repo.previewed(theme, ROLES@[i].1, &p)
    &&& !(p matches Err(Error::Cancelled))
    &&& match p {
        Ok(q) => entry matches Ok(ev) && evidence_of(ev, q),
        Err(e) => entry == Err::<Evidence, Error>(e),
    }
}

/// `ev` is the evidence of preview `p`: its source, chain and resolution,
/// and the largest frame count among its variants.
pub open spec fn evidence_of(ev: Evidence, p: Preview) -> bool {
    &&& ev.source@ == p.source@
    &&& ev.chain@ == p.chain@
    &&& ev.resolution == p.resolution
    &&& ev.frames == spec_max_frames(p.variants@)
}

} // verus!
