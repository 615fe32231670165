//! The files an import plan installs: the theme's index file, each mapped
//! role's cursor under every alias of its role, and the conversion report.
//! Staging, writing and the read-back check are the caller's.
use crate::browser::groups_view;
use crate::export::{desktop_variants, spec_desktop, spec_xcursor, xcursor};
use crate::import::{group_of_first, import_roles, mapped_view, spec_group_of_first, spec_import_roles, AssetV, Plan};
use crate::model::{Error, variants_view};
use crate::classification::{join_with, spec_join_with};
use crate::settings::strings_view;
use crate::text::concat3;
use vstd::prelude::*;
use vstd::string::StringExecFns;

verus! {

/// Bytes an installed theme may hold.
pub const MAX_INSTALL_BYTES: usize = 134217728;

/// The index file of an imported theme named `name`.
pub open spec fn spec_install_index(name: Seq<char>) -> Seq<char> {
    "[Icon Theme]\nName="@ + name + "\nComment=Imported by CursorMochi; no explicit inheritance\n"@
}

/// Writes the index file of the theme `p` installs.
pub fn install_index(p: &Plan) -> (r: String)
    ensures
        r@ == spec_install_index(p.name@),
{
    concat3("[Icon Theme]\nName=", p.name.as_str(), "\nComment=Imported by CursorMochi; no explicit inheritance\n")
}

/// The cursor file one mapped file becomes: its decoded variants prepared
/// for the desktop sizes (`spec_desktop`), written as Xcursor.
#[verifier::opaque]
pub open spec fn spec_role_bytes(a: AssetV) -> Result<Seq<u8>, Error> {
    match a.decoded {
        Err(e) => Err(e),
        Ok(d) => match spec_desktop(d.variants) {
            Err(e) => Err(e),
            Ok(vs) => spec_xcursor(vs),
        },
    }
}

/// Total bytes of installed files.
pub open spec fn files_bytes(fs: Seq<(Seq<char>, Seq<u8>)>) -> int
    decreases fs.len(),
{
    if fs.len() == 0 {
        0
    } else {
        files_bytes(fs.drop_last()) + fs.last().1.len()
    }
}

/// Every alias of `aliases` paired with the same bytes.
pub open spec fn alias_files(aliases: Seq<Seq<char>>, b: Seq<u8>) -> Seq<(Seq<char>, Seq<u8>)> {
    aliases.map_values(|a: Seq<char>| (a, b))
}

/// The cursor files of the first `k` mapped roles, in order, with `gs` the
/// roles and their aliases (`spec_import_roles`): a role that is no role's
/// installed name, a file that cannot be prepared or written, or
/// more than `MAX_INSTALL_BYTES` in all, is the error.
pub open spec fn spec_install_files(gs: Seq<(Seq<char>, Seq<Seq<char>>)>, mapped: Seq<(Seq<char>, AssetV)>, k: int) -> Result<Seq<(Seq<char>, Seq<u8>)>, Error>
    decreases k,
{
    if k <= 0 {
        Ok(seq![])
    } else {
        match spec_install_files(gs, mapped, k - 1) {
            Err(e) => Err(e),
            Ok(fs) => match spec_group_of_first(gs, mapped[k - 1].0) {
                None => Err(Error::Invalid("install role")),
                Some(g) => match spec_role_bytes(mapped[k - 1].1) {
                    Err(e) => Err(e),
                    Ok(b) => {
                        let more = alias_files(gs[g].1, b);
                        if files_bytes(fs + more) > MAX_INSTALL_BYTES {
                            Err(Error::LimitExceeded("installed theme bytes"))
                        } else {
                            Ok(fs + more)
                        }
                    },
                },
            },
        }
    }
}

pub open spec fn installed_view(v: Seq<(&'static str, Vec<u8>)>) -> Seq<(Seq<char>, Seq<u8>)> {
    v.map_values(|f: (&'static str, Vec<u8>)| (f.0@, f.1@))
}

proof fn lemma_bytes_push(fs: Seq<(Seq<char>, Seq<u8>)>, f: (Seq<char>, Seq<u8>))
    ensures
        files_bytes(fs.push(f)) == files_bytes(fs) + f.1.len(),
{
    assert(fs.push(f).drop_last() =~= fs);
}

proof fn lemma_bytes_mono(fs: Seq<(Seq<char>, Seq<u8>)>, k: int)
    requires
        0 <= k <= fs.len(),
    ensures
        files_bytes(fs.take(k)) <= files_bytes(fs),
    decreases fs.len() - k,
{
    if k < fs.len() {
        lemma_bytes_mono(fs, k + 1);
        assert(fs.take(k + 1).drop_last() =~= fs.take(k));
    } else {
        assert(fs.take(k) =~= fs);
    }
}

/// The cursor files plan `p` installs (see `spec_install_files`), each under
/// its alias file name; cancellation is checked before each role and each
/// alias.
#[verifier::rlimit(60)]
pub fn install_files<F: Fn() -> bool>(p: &Plan, cancel: &F) -> (r: Result<Vec<(&'static str, Vec<u8>)>, Error>)
    requires
        cancel.requires(()),
    ensures
        match r {
            Ok(fs) => spec_install_files(spec_import_roles(), mapped_view(p.mapped@), p.mapped@.len() as int) == Ok::<Seq<(Seq<char>, Seq<u8>)>, Error>(
                installed_view(fs@),
            ),
            Err(e) => e == Error::Cancelled || spec_install_files(spec_import_roles(), mapped_view(p.mapped@), p.mapped@.len() as int) == Err::<
                Seq<(Seq<char>, Seq<u8>)>,
                Error,
            >(e),
        },
{
    let roles = import_roles();
    let ghost gs = groups_view(roles@);
    let ghost mv = mapped_view(p.mapped@);
    let mut out: Vec<(&'static str, Vec<u8>)> = Vec::new();
    let mut total: usize = 0;
    assert(installed_view(out@) =~= seq![]);
    for k in 0..p.mapped.len()
        invariant
            cancel.requires(()),
            gs == groups_view(roles@),
            gs == spec_import_roles(),
            mv == mapped_view(p.mapped@),
            spec_install_files(gs, mv, k as int) == Ok::<Seq<(Seq<char>, Seq<u8>)>, Error>(installed_view(out@)),
            total == files_bytes(installed_view(out@)),
            total <= MAX_INSTALL_BYTES,
    {
        if cancel() {
            return Err(Error::Cancelled);
        }
        proof {
            lemma_install_err(gs, mv, k + 1, mv.len() as int);
        }
        let (role, a) = (&p.mapped[k].0, &p.mapped[k].1);
        assert(mv[k as int] == (role@, a@));
        let g = match group_of_first(&roles, role.as_str()) {
            Some(g) => g,
            None => {
                return Err(Error::Invalid("install role"));
            },
        };
        let b = match role_bytes(a, cancel) {
            Ok(b) => b,
            Err(e) => {
                return Err(e);
            },
        };
        let aliases = &roles[g].1;
        let ghost before = installed_view(out@);
        let ghost av = gs[g as int].1;
        assert(av == crate::browser::strs_view(aliases@));
        proof {
            assert(mv[k as int].1 == a@);
            assert(spec_install_files(gs, mv, k + 1) == (if files_bytes(before + alias_files(av, b@)) > MAX_INSTALL_BYTES {
                Err::<Seq<(Seq<char>, Seq<u8>)>, Error>(Error::LimitExceeded("installed theme bytes"))
            } else {
                Ok(before + alias_files(av, b@))
            }));
        }
        match add_aliases(&mut out, aliases, &b, &mut total, cancel) {
            Ok(()) => {},
            Err(e) => {
                return Err(e);
            },
        }
    }
    proof {
        assert(mv.len() == p.mapped@.len());
        assert(gs == spec_import_roles());
    }
    Ok(out)
}

/// The cursor file of one mapped file (see `spec_role_bytes`).
fn role_bytes<F: Fn() -> bool>(a: &crate::import::Asset, cancel: &F) -> (r: Result<Vec<u8>, Error>)
    requires
        cancel.requires(()),
    ensures
        match r {
            Ok(b) => spec_role_bytes(a@) == Ok::<Seq<u8>, Error>(b@),
            Err(e) => e == Error::Cancelled || spec_role_bytes(a@) == Err::<Seq<u8>, Error>(e),
        },
{
    reveal(spec_role_bytes);
    let source = match &a.decoded {
        Ok(d) => &d.variants,
        Err(e) => {
            return Err(e.clone());
        },
    };
    let prepared = match desktop_variants(source.as_slice(), cancel) {
        Ok(v) => v,
        Err(e) => {
            return Err(e);
        },
    };
    xcursor(prepared.as_slice())
}

/// Adds one file per alias, each holding `b`, while the total stays within
/// `MAX_INSTALL_BYTES`; cancellation is checked before each.
fn add_aliases<F: Fn() -> bool>(
    out: &mut Vec<(&'static str, Vec<u8>)>,
    aliases: &Vec<&'static str>,
    b: &Vec<u8>,
    total: &mut usize,
    cancel: &F,
) -> (r: Result<(), Error>)
    requires
        cancel.requires(()),
        *old(total) == files_bytes(installed_view(old(out)@)),
        *old(total) <= MAX_INSTALL_BYTES,
    ensures
        r is Ok ==> installed_view(final(out)@) == installed_view(old(out)@) + alias_files(crate::browser::strs_view(aliases@), b@)
            && *final(total) == files_bytes(installed_view(final(out)@)) && *final(total) <= MAX_INSTALL_BYTES,
        r matches Err(e) ==> e == Error::Cancelled || (e == Error::LimitExceeded("installed theme bytes") && files_bytes(
            installed_view(old(out)@) + alias_files(crate::browser::strs_view(aliases@), b@),
        ) > MAX_INSTALL_BYTES),
{
    let ghost before = installed_view(out@);
    let ghost av = crate::browser::strs_view(aliases@);
    assert(alias_files(av.take(0), b@) =~= seq![]);
    assert(before + seq![] =~= before);
    for j in 0..aliases.len()
        invariant
            cancel.requires(()),
            av == crate::browser::strs_view(aliases@),
            before == installed_view(old(out)@),
            installed_view(out@) == before + alias_files(av.take(j as int), b@),
            *total == files_bytes(installed_view(out@)),
            *total <= MAX_INSTALL_BYTES,
    {
        if cancel() {
            return Err(Error::Cancelled);
        }
        let ghost was = installed_view(out@);
        if b.len() > MAX_INSTALL_BYTES - *total {
            proof {
                lemma_alias_exceeds(before, av, b@, j as int);
            }
            return Err(Error::LimitExceeded("installed theme bytes"));
        }
        *total = *total + b.len();
        let copy = copy_bytes(b);
        out.push((aliases[j], copy));
        proof {
            assert(installed_view(out@) =~= was.push((aliases@[j as int]@, b@)));
            lemma_bytes_push(was, (aliases@[j as int]@, b@));
            assert(alias_files(av.take(j + 1), b@) =~= alias_files(av.take(j as int), b@).push((av[j as int], b@)));
            assert(before + alias_files(av.take(j + 1), b@) =~= (before + alias_files(av.take(j as int), b@)).push((av[j as int], b@)));
        }
    }
    proof {
        assert(av.take(av.len() as int) =~= av);
    }
    Ok(())
}

proof fn lemma_alias_exceeds(before: Seq<(Seq<char>, Seq<u8>)>, av: Seq<Seq<char>>, b: Seq<u8>, j: int)
    requires
        0 <= j < av.len(),
        files_bytes(before + alias_files(av.take(j), b)) + b.len() > MAX_INSTALL_BYTES,
    ensures
        files_bytes(before + alias_files(av, b)) > MAX_INSTALL_BYTES,
{
    let all = before + alias_files(av, b);
    let pre = before + alias_files(av.take(j + 1), b);
    assert(pre =~= all.take(before.len() + j + 1));
    assert(before + alias_files(av.take(j + 1), b) =~= (before + alias_files(av.take(j), b)).push((av[j], b)));
    lemma_bytes_push(before + alias_files(av.take(j), b), (av[j], b));
    lemma_bytes_mono(all, before.len() + j + 1);
}

proof fn lemma_install_err(gs: Seq<(Seq<char>, Seq<Seq<char>>)>, mapped: Seq<(Seq<char>, AssetV)>, k: int, n: int)
    requires
        0 <= k <= n,
    ensures
        spec_install_files(gs, mapped, k) is Err ==> spec_install_files(gs, mapped, n) == spec_install_files(gs, mapped, k),
    decreases n - k,
{
    if k < n {
        lemma_install_err(gs, mapped, k, n - 1);
    }
}

fn copy_bytes(b: &Vec<u8>) -> (r: Vec<u8>)
    ensures
        r@ == b@,
{
    let mut out: Vec<u8> = Vec::new();
    for i in 0..b.len()
        invariant
            out@ == b@.take(i as int),
    {
        out.push(b[i]);
        assert(out@ =~= b@.take(i + 1));
    }
    assert(b@.take(b@.len() as int) =~= b@);
    out
}

/// The conversion report of an installed theme: what was verified, the
/// import roles without a file (or "none"), the system test `details`, and
/// the plan's notes, one per line.
pub open spec fn spec_install_report(missing: Seq<Seq<char>>, details: Seq<char>, notes: Seq<Seq<char>>) -> Seq<char> {
    "Verified staged Xcursor data against prepared output. Original-size variants preserve decoded input pixels, dimensions, hotspots, frame order and millisecond delays. Added desktop variants are resampled as described below.\nMissing Windows import roles: "@
        + (if missing.len() == 0 {
        "none"@
    } else {
        spec_join_with(missing, ", "@)
    }) + "\n"@ + details + "\nNo explicit parent theme. Desktop loaders may use their own default fallback.\n"@ + spec_join_with(
        notes,
        "\n"@,
    ) + "\n"@
}

fn owned(v: &Vec<&'static str>) -> (r: Vec<String>)
    ensures
        strings_view(r@) == crate::browser::strs_view(v@),
{
    let mut out: Vec<String> = Vec::new();
    for i in 0..v.len()
        invariant
            strings_view(out@) == crate::browser::strs_view(v@).take(i as int),
    {
        let ghost was = strings_view(out@);
        out.push(String::from_str(v[i]));
        assert(strings_view(out@) =~= was.push(v@[i as int]@));
        assert(crate::browser::strs_view(v@).take(i + 1) =~= crate::browser::strs_view(v@).take(i as int).push(v@[i as int]@));
    }
    assert(crate::browser::strs_view(v@).take(v@.len() as int) =~= crate::browser::strs_view(v@));
    out
}

/// Writes the conversion report of plan `p`, with `details` the system
/// test summary of the staged files.
pub fn install_report(p: &Plan, details: &str) -> (r: String)
    ensures
        r@ == spec_install_report(crate::browser::strs_view(p.missing@), details@, strings_view(p.notes@)),
{
    let missing = if p.missing.len() == 0 {
        String::from_str("none")
    } else {
        join_with(&owned(&p.missing), ", ")
    };
    let notes = join_with(&p.notes, "\n");
    let head = concat3(
        "Verified staged Xcursor data against prepared output. Original-size variants preserve decoded input pixels, dimensions, hotspots, frame order and millisecond delays. Added desktop variants are resampled as described below.\nMissing Windows import roles: ",
        missing.as_str(),
        "\n",
    );
    let mid = concat3(head.as_str(), details, "\nNo explicit parent theme. Desktop loaders may use their own default fallback.\n");
    concat3(mid.as_str(), notes.as_str(), "\n")
}

} // verus!
