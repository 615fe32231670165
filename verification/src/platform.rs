//! Host-independent rules of the platform layer: package path checks, read
//! budgets, path normalisation, user theme directories and search paths.
use crate::import::{Asset, AssetV, Package};
use crate::model::{Error, never_cancels};
use crate::paths::{Comp, PathPart, components, eq_ignore_ascii_case, extension, parts_view, same_path, spec_components, spec_eq_ignore_ascii_case, spec_extension};
use crate::settings::strings_view;
use crate::text::{concat2, concat3};
use vstd::prelude::*;
use vstd::string::{StringExecFns, StringSliceAdditionalSpecFns};

verus! {

/// Most files and directories a package may hold.
pub const MAX_FILES: usize = 1024;

/// Most expanded bytes (and decoded pixel bytes) of a package.
pub const MAX_TOTAL: usize = 67108864;

/// Most bytes of a ZIP archive.
pub const MAX_ARCHIVE: usize = 33554432;

/// A control character (Unicode general category Cc).
pub open spec fn is_control(c: char) -> bool {
    (c as u32) < 0x20 || (0x7f <= (c as u32) && (c as u32) <= 0x9f)
}

/// A safe relative package path: nonempty, at most 1024 bytes, without
/// backslash, colon or control characters, of at most 16 components that
/// are all plain names.
pub open spec fn safe_relative(s: &str) -> bool {
    &&& s@.len() > 0
    &&& s.spec_bytes().len() <= 1024
    &&& forall|i: int| 0 <= i < s@.len() ==> !(#[trigger] s@[i] == '\\' || s@[i] == ':' || is_control(s@[i]))
    &&& spec_components(s@).len() <= 16
    &&& forall|i: int| 0 <= i < spec_components(s@).len() ==> (#[trigger] spec_components(s@)[i]) is Normal
}

fn chars_ok(path: &str) -> (r: bool)
    ensures
        r == forall|i: int| 0 <= i < path@.len() ==> !(#[trigger] path@[i] == '\\' || path@[i] == ':' || is_control(path@[i])),
{
    let cs = crate::text::chars_of(path);
    for i in 0..cs.len()
        invariant
            cs@ == path@,
            forall|j: int| 0 <= j < i ==> !(#[trigger] path@[j] == '\\' || path@[j] == ':' || is_control(path@[j])),
    {
        let c = cs[i];
        let code = c as u32;
        if c == '\\' || c == ':' || code < 0x20 || (0x7f <= code && code <= 0x9f) {
            assert(path@[i as int] == '\\' || path@[i as int] == ':' || is_control(path@[i as int]));
            return false;
        }
    }
    true
}

fn comps_ok(path: &str) -> (r: bool)
    ensures
        r == (spec_components(path@).len() <= 16 && forall|i: int| 0 <= i < spec_components(path@).len() ==> (#[trigger] spec_components(path@)[i]) is Normal),
{
    let parts = components(path);
    if parts.len() > 16 {
        return false;
    }
    for i in 0..parts.len()
        invariant
            parts_view(parts@) == spec_components(path@),
            forall|j: int| 0 <= j < i ==> (#[trigger] spec_components(path@)[j]) is Normal,
    {
        proof {
            assert(parts_view(parts@)[i as int] == parts@[i as int]@);
        }
        match &parts[i] {
            PathPart::Normal(_) => {},
            _ => {
                return false;
            },
        }
    }
    true
}

/// Accepts exactly the safe relative package paths.
pub fn relative(path: &str) -> (r: Result<(), Error>)
    ensures
        r is Ok <==> safe_relative(path),
        r matches Err(e) ==> e == Error::Invalid("unsafe package path"),
{
    let n = crate::text::chars_of(path).len();
    if n == 0 || path.as_bytes().len() > 1024 || !chars_ok(path) || !comps_ok(path) {
        return Err(Error::Invalid("unsafe package path"));
    }
    Ok(())
}

/// A Windows cursor file name: extension `cur` or `ani`, in any ASCII case.
pub open spec fn spec_is_cursor(p: Seq<char>) -> bool {
    match spec_extension(p) {
        Some(e) => spec_eq_ignore_ascii_case(e, "cur"@) || spec_eq_ignore_ascii_case(e, "ani"@),
        None => false,
    }
}

/// Whether a package file is a Windows cursor by its extension.
pub fn is_cursor(p: &str) -> (r: bool)
    ensures
        r == spec_is_cursor(p@),
{
    match extension(p) {
        Some(e) => eq_ignore_ascii_case(&e, "cur") || eq_ignore_ascii_case(&e, "ani"),
        None => false,
    }
}

/// What reading a package has used: entries, expanded bytes, decoded
/// pixel bytes.
pub struct ReadBudget {
    pub entries: usize,
    pub bytes: usize,
    pub pixels: usize,
}

impl ReadBudget {
    /// A budget with nothing used.
    pub fn new() -> (r: Self)
        ensures
            r.entries == 0 && r.bytes == 0 && r.pixels == 0,
    {
        ReadBudget { entries: 0, bytes: 0, pixels: 0 }
    }

    /// Counts one entry of `bytes` expanded bytes; fails once the package
    /// has more than 1024 entries or 64 MiB.
    pub fn entry(&mut self, bytes: usize) -> (r: Result<(), Error>)
        requires
            old(self).entries < usize::MAX,
        ensures
            final(self).entries == old(self).entries + 1,
            final(self).pixels == old(self).pixels,
            old(self).bytes + bytes > usize::MAX ==> r == Err::<(), Error>(Error::LimitExceeded("package bytes"))
                && final(self).bytes == old(self).bytes,
            old(self).bytes + bytes <= usize::MAX ==> {
                &&& final(self).bytes == old(self).bytes + bytes
                &&& (r is Ok <==> (final(self).entries <= MAX_FILES && final(self).bytes <= MAX_TOTAL))
                &&& r matches Err(e) ==> e == Error::LimitExceeded("package entries/expanded bytes")
            },
    {
        self.entries = self.entries + 1;
        if bytes > usize::MAX - self.bytes {
            return Err(Error::LimitExceeded("package bytes"));
        }
        self.bytes = self.bytes + bytes;
        if self.entries > MAX_FILES || self.bytes > MAX_TOTAL {
            Err(Error::LimitExceeded("package entries/expanded bytes"))
        } else {
            Ok(())
        }
    }

    /// Adds one package file: non-cursor files are only counted as ignored;
    /// at most 128 cursor files are kept, each with its decoding (a failed
    /// decoding is kept as such), and their decoded pixels count against
    /// 64 MiB. Only cancellation and the limits fail.
    pub fn asset<F: Fn() -> bool>(&mut self, p: String, b: &[u8], out: &mut Package, cancel: &F) -> (r: Result<(), Error>)
        requires
            cancel.requires(()),
            old(out).ignored < usize::MAX,
            old(self).pixels <= MAX_TOTAL,
        ensures
            final(self).entries == old(self).entries,
            final(self).bytes == old(self).bytes,
            final(self).pixels <= MAX_TOTAL || r is Err,
            r is Ok ==> if spec_is_cursor(p@) {
                final(out).ignored == old(out).ignored && final(out).assets@.len() == old(out).assets@.len() + 1
                    && final(out).assets@.take(old(out).assets@.len() as int) == old(out).assets@
                    && final(out).assets@.last().path@ == p@
                    && match final(out).assets@.last().decoded {
                        Ok(d) => crate::windows::spec_windows_decode(b@) == Ok::<crate::windows::DecodedV, crate::model::ErrorV>(d@),
                        Err(e) => e != Error::Cancelled && crate::windows::spec_windows_decode(b@) == Err::<crate::windows::DecodedV, crate::model::ErrorV>(e@),
                    }
            } else {
                final(out).ignored == old(out).ignored + 1 && final(out).assets@ == old(out).assets@
            },
            r matches Err(e) ==> e == Error::Cancelled || (spec_is_cursor(p@) && (e == Error::LimitExceeded("128 cursor files") && old(out).assets@.len() >= 128 || e == Error::LimitExceeded("package decoded pixels"))),
            spec_is_cursor(p@) && old(out).assets@.len() >= 128 && never_cancels(cancel) ==> r == Err::<(), Error>(Error::LimitExceeded("128 cursor files")),
            never_cancels(cancel) && !spec_is_cursor(p@) ==> r is Ok,
            r is Err ==> final(out).assets@ == old(out).assets@,
            never_cancels(cancel) && spec_is_cursor(p@) && old(out).assets@.len() < 128 && (match crate::windows::spec_windows_decode(b@) {
                Ok(d) => crate::import::spec_variants_bytes(d.variants) <= MAX_TOTAL - old(self).pixels,
                Err(_) => true,
            }) ==> r is Ok,
    {
        if cancel() {
            return Err(Error::Cancelled);
        }
        if !is_cursor(p.as_str()) {
            out.ignored = out.ignored + 1;
            return Ok(());
        }
        if out.assets.len() >= 128 {
            return Err(Error::LimitExceeded("128 cursor files"));
        }
        let d = crate::windows::decode(b, cancel);
        match &d {
            Ok(decoded) => {
                let n = match crate::import::variants_bytes_within(&decoded.variants, MAX_TOTAL - self.pixels) {
                    Some(n) => n,
                    None => {
                        return Err(Error::LimitExceeded("package decoded pixels"));
                    },
                };
                self.pixels = self.pixels + n;
            },
            Err(Error::Cancelled) => {
                return Err(Error::Cancelled);
            },
            Err(_) => {},
        }
        let ghost before = out.assets@;
        out.assets.push(Asset { path: p, decoded: d });
        assert(out.assets@.take(before.len() as int) =~= before);
        Ok(())
    }
}

/// The path text joined with a relative part, as `Path::join` does: a
/// separator is added unless the base is empty or already ends in one.
pub open spec fn spec_join(base: Seq<char>, rest: Seq<char>) -> Seq<char> {
    if base.len() == 0 || base.last() == '/' {
        base + rest
    } else {
        base + "/"@ + rest
    }
}

/// `Path::join` on path text with a relative part.
pub fn join(base: &str, rest: &str) -> (r: String)
    ensures
        r@ == spec_join(base@, rest@),
{
    let cs = crate::text::chars_of(base);
    if cs.len() == 0 || cs[cs.len() - 1] == '/' {
        concat2(base, rest)
    } else {
        concat3(base, "/", rest)
    }
}

/// Whether path text is absolute (starts at the root).
pub open spec fn spec_is_absolute(s: Seq<char>) -> bool {
    s.len() > 0 && s[0] == '/'
}

pub fn is_absolute(s: &str) -> (r: bool)
    ensures
        r == spec_is_absolute(s@),
{
    let cs = crate::text::chars_of(s);
    cs.len() > 0 && cs[0] == '/'
}

/// The user theme directories for `$HOME` and `$XDG_DATA_HOME`: the data
/// home's `icons` (or `~/.local/share/icons` when it is not absolute) and
/// `~/.icons`; none without an absolute home.
pub open spec fn spec_user_targets(home: Seq<char>, data: Seq<char>) -> Seq<Seq<char>> {
    if !spec_is_absolute(home) {
        seq![]
    } else {
        let first = if spec_is_absolute(data) {
            spec_join(data, "icons"@)
        } else {
            spec_join(home, ".local/share/icons"@)
        };
        let second = spec_join(home, ".icons"@);
        if spec_components(first) == spec_components(second) {
            seq![first]
        } else {
            seq![first, second]
        }
    }
}

/// The directories an imported theme may be installed into.
pub fn user_targets(home: &str, data_home: &str) -> (r: Vec<String>)
    ensures
        crate::settings::strings_view(r@) == spec_user_targets(home@, data_home@),
{
    let mut out: Vec<String> = Vec::new();
    if !is_absolute(home) {
        assert(crate::settings::strings_view(out@) =~= seq![]);
        return out;
    }
    let first = if is_absolute(data_home) {
        join(data_home, "icons")
    } else {
        join(home, ".local/share/icons")
    };
    let second = join(home, ".icons");
    let same = same_path(first.as_str(), second.as_str());
    out.push(first);
    if !same {
        out.push(second);
    }
    proof {
        assert(crate::settings::strings_view(out@) =~= spec_user_targets(home@, data_home@));
    }
    out
}

/// Components of a path with `.` removed and each `..` undoing the
/// component before it (never the root).
pub open spec fn spec_normalize(cs: Seq<Comp>) -> Seq<Comp>
    decreases cs.len(),
{
    if cs.len() == 0 {
        seq![]
    } else {
        let prev = spec_normalize(cs.drop_last());
        match cs.last() {
            Comp::ParentDir => if prev.len() > 0 && !(prev.last() is RootDir) {
                prev.drop_last()
            } else {
                prev
            },
            Comp::CurDir => prev,
            c => prev.push(c),
        }
    }
}

/// Path text of components: the root as a leading `/`, names joined by `/`.
pub open spec fn spec_render(cs: Seq<Comp>) -> Seq<char>
    decreases cs.len(),
{
    if cs.len() == 0 {
        seq![]
    } else {
        let prev = spec_render(cs.drop_last());
        match cs.last() {
            Comp::RootDir => "/"@,
            Comp::Normal(n) => spec_join(prev, n),
            Comp::CurDir => spec_join(prev, "."@),
            Comp::ParentDir => spec_join(prev, ".."@),
        }
    }
}

pub open spec fn names_comps(kept: Seq<Vec<char>>) -> Seq<Comp> {
    kept.map_values(|n: Vec<char>| Comp::Normal(n@))
}

pub open spec fn root_head(rooted: bool) -> Seq<Comp> {
    if rooted {
        seq![Comp::RootDir]
    } else {
        seq![]
    }
}

fn normalized_parts(p: &str) -> (r: (bool, Vec<Vec<char>>))
    ensures
        spec_normalize(spec_components(p@)) == root_head(r.0) + names_comps(r.1@),
{
    let parts = components(p);
    let ghost pv = parts_view(parts@);
    let mut kept: Vec<Vec<char>> = Vec::new();
    let mut rooted = false;
    proof {
        crate::paths::lemma_root_first(p@);
        assert(pv.take(0) =~= seq![]);
        assert(names_comps(kept@) =~= seq![]);
    }
    for i in 0..parts.len()
        invariant
            pv == parts_view(parts@),
            pv == spec_components(p@),
            forall|j: int| 1 <= j < pv.len() ==> !(#[trigger] pv[j] is RootDir),
            i == 0 ==> !rooted && kept@.len() == 0,
            spec_normalize(pv.take(i as int)) == root_head(rooted) + names_comps(kept@),
    {
        proof {
            assert(pv.take(i + 1).drop_last() =~= pv.take(i as int));
            assert(pv.take(i + 1).last() == parts@[i as int]@);
            assert(pv[i as int] == parts@[i as int]@);
        }
        let ghost kv = kept@;
        match &parts[i] {
            PathPart::RootDir => {
                rooted = true;
                kept = Vec::new();
                proof {
                    assert(names_comps(kept@) =~= seq![]);
                    assert(spec_normalize(pv.take(i + 1)) =~= root_head(rooted) + names_comps(kept@));
                }
            },
            PathPart::CurDir => {},
            PathPart::ParentDir => {
                if kept.len() > 0 {
                    kept.pop();
                    proof {
                        assert(names_comps(kept@) =~= names_comps(kv).drop_last());
                        assert(spec_normalize(pv.take(i + 1)) =~= root_head(rooted) + names_comps(kept@));
                    }
                } else {
                    proof {
                        assert(spec_normalize(pv.take(i + 1)) =~= root_head(rooted) + names_comps(kept@));
                    }
                }
            },
            PathPart::Normal(n) => {
                kept.push(crate::paths::copy_chars(n));
                proof {
                    assert(names_comps(kept@) =~= names_comps(kv).push(parts@[i as int]@));
                    assert(spec_normalize(pv.take(i + 1)) =~= root_head(rooted) + names_comps(kept@));
                }
            },
        }
    }
    assert(pv.take(parts@.len() as int) =~= pv);
    (rooted, kept)
}

/// Lexically normalised path text (no file system access).
pub fn normalize(p: &str) -> (r: String)
    ensures
        r@ == spec_render(spec_normalize(spec_components(p@))),
{
    let (rooted, kept) = normalized_parts(p);
    let mut out = if rooted { String::from_str("/") } else { String::new() };
    let ghost head = root_head(rooted);
    proof {
        reveal_strlit("/");
        assert(names_comps(kept@.take(0)) =~= seq![]);
        assert(head + names_comps(kept@.take(0)) =~= head);
        if rooted {
            assert(head.drop_last() =~= seq![]);
        }
    }
    for k in 0..kept.len()
        invariant
            head == root_head(rooted),
            out@ == spec_render(head + names_comps(kept@.take(k as int))),
    {
        let ghost cs = head + names_comps(kept@.take(k as int));
        let ghost cs1 = head + names_comps(kept@.take(k + 1));
        proof {
            assert(cs1.drop_last() =~= cs);
            assert(cs1.last() == Comp::Normal(kept@[k as int]@));
        }
        let name = crate::text::string_from_chars(&kept[k]);
        out = join(out.as_str(), name.as_str());
    }
    assert(kept@.take(kept@.len() as int) =~= kept@);
    out
}


/// The ZIP end-of-central-directory signature.
pub open spec fn eocd_signature() -> Seq<u8> {
    seq![0x50u8, 0x4b, 0x05, 0x06]
}

/// An end record at `i` whose comment ends exactly at the end of the file.
pub open spec fn eocd_at(b: Seq<u8>, i: int) -> bool {
    &&& 0 <= i
    &&& i + 22 <= b.len()
    &&& b.subrange(i, i + 4) == eocd_signature()
    &&& i + 22 + crate::windows::spec_le16(b, i + 20) == b.len()
}

/// The last end record among the final 64 KiB + 21 bytes.
pub open spec fn spec_eocd(b: Seq<u8>) -> Option<int> {
    let lo = if b.len() > 65557 { b.len() - 65557 } else { 0 };
    let hi = if b.len() > 21 { b.len() - 21 } else { 0 };
    if exists|i: int| lo <= i < hi && eocd_at(b, i) {
        Some(choose|i: int| lo <= i < hi && eocd_at(b, i) && forall|j: int| i < j < hi ==> !eocd_at(b, j))
    } else {
        None
    }
}

/// Checks the ZIP end record before any archive reader allocates: no
/// ZIP64, no split archive, at most 1024 entries, a central directory of
/// at most 2 MiB that ends right at the end record. The result is the end
/// record's offset and the entry count.
pub open spec fn spec_zip_index(b: Seq<u8>) -> Result<(int, u16), Error> {
    match spec_eocd(b) {
        None => Err(Error::Invalid("ZIP end record")),
        Some(e) => {
            let h = b.skip(e);
            if crate::windows::spec_le16(h, 4) != 0 || crate::windows::spec_le16(h, 6) != 0
                || crate::windows::spec_le16(h, 8) != crate::windows::spec_le16(h, 10)
                || crate::windows::spec_le16(h, 10) > MAX_FILES || crate::xcursor::spec_le32(h, 12) > 2097152
                || crate::xcursor::spec_le32(h, 16) + crate::xcursor::spec_le32(h, 12) != e {
                Err(Error::Unsupported("ZIP64, split ZIP, oversized or nonstandard index"))
            } else {
                Ok((e, crate::windows::spec_le16(h, 10)))
            }
        },
    }
}

fn le16_at(b: &[u8], o: usize) -> (r: u16)
    requires
        o + 2 <= b@.len(),
    ensures
        r == crate::windows::spec_le16(b@, o as int),
{
    (b[o] as u16) + (b[o + 1] as u16) * 256
}

fn le32_at(b: &[u8], o: usize) -> (r: u32)
    requires
        o + 4 <= b@.len(),
    ensures
        r == crate::xcursor::spec_le32(b@, o as int),
{
    (b[o] as u32) + (b[o + 1] as u32) * 256 + (b[o + 2] as u32) * 65536 + (b[o + 3] as u32) * 16777216
}

fn eocd_here(b: &[u8], i: usize) -> (r: bool)
    requires
        i + 22 <= b@.len(),
    ensures
        r == eocd_at(b@, i as int),
{
    let _n = b.len();
    let sig: [u8; 4] = [0x50, 0x4b, 0x05, 0x06];
    proof {
        assert(sig@ =~= eocd_signature());
    }
    if !(b[i] == sig[0] && b[i + 1] == sig[1] && b[i + 2] == sig[2] && b[i + 3] == sig[3]) {
        proof {
            if b@.subrange(i as int, i + 4) == eocd_signature() {
                assert(b@.subrange(i as int, i + 4)[0] == b@[i as int]);
                assert(b@.subrange(i as int, i + 4)[1] == b@[i + 1]);
                assert(b@.subrange(i as int, i + 4)[2] == b@[i + 2]);
                assert(b@.subrange(i as int, i + 4)[3] == b@[i + 3]);
            }
        }
        return false;
    }
    assert(b@.subrange(i as int, i + 4) =~= eocd_signature());
    let c = le16_at(b, i + 20) as usize;
    (i as u128) + 22 + (c as u128) == (b.len() as u128)
}

fn find_eocd(b: &[u8]) -> (r: Option<usize>)
    ensures
        match r {
            Some(e) => spec_eocd(b@) == Some(e as int) && e + 22 <= b@.len(),
            None => spec_eocd(b@) is None,
        },
{
    let len = b.len();
    let lo = if len > 65557 { len - 65557 } else { 0 };
    let hi = if len > 21 { len - 21 } else { 0 };
    let mut i = hi;
    while i > lo
        invariant
            lo <= i <= hi,
            len == b@.len(),
            lo == (if b@.len() > 65557 { b@.len() - 65557 } else { 0 }),
            hi == (if b@.len() > 21 { b@.len() - 21 } else { 0 }),
            forall|j: int| i <= j < hi ==> !eocd_at(b@, j),
        decreases i,
    {
        if eocd_here(b, i - 1) {
            proof {
                let w = (i - 1) as int;
                assert(eocd_at(b@, w));
                let c = choose|c: int| lo <= c < hi && eocd_at(b@, c) && forall|j: int| c < j < hi ==> !eocd_at(b@, j);
                if c > w {
                    assert(!eocd_at(b@, c));
                }
                if c < w {
                    assert(!eocd_at(b@, w));
                }
            }
            return Some(i - 1);
        }
        i = i - 1;
    }
    None
}

/// The ZIP end record checks (see `spec_zip_index`).
pub fn zip_index(b: &[u8]) -> (r: Result<(usize, u16), Error>)
    ensures
        match r {
            Ok((e, n)) => spec_zip_index(b@) == Ok::<(int, u16), Error>((e as int, n)),
            Err(x) => spec_zip_index(b@) == Err::<(int, u16), Error>(x),
        },
{
    let e = match find_eocd(b) {
        Some(e) => e,
        None => {
            return Err(Error::Invalid("ZIP end record"));
        },
    };
    let h = crate::windows::slice_of(b, e, b.len());
    assert(h@ =~= b@.skip(e as int));
    let n = le16_at(h, 10);
    if le16_at(h, 4) != 0 || le16_at(h, 6) != 0 || le16_at(h, 8) != n || n as usize > MAX_FILES
        || le32_at(h, 12) > 2097152 || (le32_at(h, 16) as u64) + (le32_at(h, 12) as u64) != e as u64 {
        return Err(Error::Unsupported("ZIP64, split ZIP, oversized or nonstandard index"));
    }
    Ok((e, n))
}

/// The checks of one ZIP entry's metadata, in the order they are made: a
/// safe relative path (without trailing slashes), not seen before, a plain
/// file or directory, not encrypted, stored or deflated, at most 16 MiB.
/// How a ZIP entry is compressed, as the archive reports it.
#[derive(Clone, Copy, Debug, PartialEq, Eq, Structural)]
pub enum ZipMethod {
    Stored,
    Deflated,
    Other,
}

pub open spec fn spec_zip_entry(path: &str, seen: Seq<Seq<Comp>>, mode: u32, encrypted: bool, method: ZipMethod, size: u64) -> Result<(), Error> {
    if !safe_relative(path) {
        Err(Error::Invalid("unsafe package path"))
    } else if seen.contains(spec_components(path@)) {
        Err(Error::Invalid("duplicate ZIP path"))
    } else if !((mode & 0o170000u32) == 0 || (mode & 0o170000u32) == 0o100000u32 || (mode & 0o170000u32) == 0o040000u32) || encrypted || method is Other {
        Err(Error::Unsupported("ZIP links, special files, encryption or compression"))
    } else if size > crate::windows::MAX_INPUT {
        Err(Error::LimitExceeded("ZIP entry size"))
    } else {
        Ok(())
    }
}

/// Checks one ZIP entry's metadata (see `spec_zip_entry`); `seen` holds the
/// components of the entries before it.
pub fn zip_entry(path: &str, seen: &Vec<Vec<PathPart>>, mode: u32, encrypted: bool, method: ZipMethod, size: u64) -> (r: Result<(), Error>)
    ensures
        r == spec_zip_entry(path, seen@.map_values(|p: Vec<PathPart>| parts_view(p@)), mode, encrypted, method, size),
{
    match relative(path) {
        Ok(()) => {},
        Err(e) => {
            return Err(e);
        },
    }
    let comps = components(path);
    let ghost sv = seen@.map_values(|p: Vec<PathPart>| parts_view(p@));
    for i in 0..seen.len()
        invariant
            sv == seen@.map_values(|p: Vec<PathPart>| parts_view(p@)),
            parts_view(comps@) == spec_components(path@),
            safe_relative(path),
            forall|j: int| 0 <= j < i ==> sv[j] != spec_components(path@),
    {
        if same_parts(&seen[i], &comps) {
            assert(sv[i as int] == spec_components(path@));
            assert(sv.contains(spec_components(path@)));
            return Err(Error::Invalid("duplicate ZIP path"));
        }
    }
    let kind = mode & 0o170000u32;
    let method_ok = match method {
        ZipMethod::Stored => true,
        ZipMethod::Deflated => true,
        ZipMethod::Other => false,
    };
    if !(kind == 0 || kind == 0o100000u32 || kind == 0o040000u32) || encrypted || !method_ok {
        return Err(Error::Unsupported("ZIP links, special files, encryption or compression"));
    }
    if size > crate::windows::MAX_INPUT as u64 {
        return Err(Error::LimitExceeded("ZIP entry size"));
    }
    Ok(())
}

fn same_parts(a: &Vec<PathPart>, b: &Vec<PathPart>) -> (r: bool)
    ensures
        r == (parts_view(a@) == parts_view(b@)),
{
    crate::paths::same_components_of(a, b)
}


/// The pieces of `s` between `sep` characters, empty pieces included.
pub open spec fn spec_split_char(s: Seq<char>, sep: char) -> Seq<Seq<char>>
    decreases s.len(),
{
    if s.len() == 0 {
        seq![seq![]]
    } else {
        let prev = spec_split_char(s.drop_last(), sep);
        if s.last() == sep {
            prev.push(seq![])
        } else {
            prev.update(prev.len() - 1, prev.last().push(s.last()))
        }
    }
}

proof fn lemma_split_char_nonempty(s: Seq<char>, sep: char)
    ensures
        spec_split_char(s, sep).len() >= 1,
    decreases s.len(),
{
    if s.len() > 0 {
        lemma_split_char_nonempty(s.drop_last(), sep);
    }
}

/// Splits text at every `sep`.
pub fn split_char(s: &str, sep: char) -> (r: Vec<String>)
    ensures
        crate::settings::strings_view(r@) == spec_split_char(s@, sep),
{
    let cs = crate::text::chars_of(s);
    let mut pieces: Vec<Vec<char>> = Vec::new();
    pieces.push(Vec::new());
    proof {
        assert(cs@.take(0) =~= seq![]);
        assert(pieces@.map_values(|v: Vec<char>| v@) =~= spec_split_char(cs@.take(0), sep));
    }
    for i in 0..cs.len()
        invariant
            cs@ == s@,
            pieces@.len() >= 1,
            pieces@.map_values(|v: Vec<char>| v@) == spec_split_char(cs@.take(i as int), sep),
    {
        let c = cs[i];
        proof {
            assert(cs@.take(i + 1).drop_last() =~= cs@.take(i as int));
            assert(cs@.take(i + 1).last() == c);
        }
        let ghost prev = pieces@;
        if c == sep {
            pieces.push(Vec::new());
            assert(pieces@.map_values(|v: Vec<char>| v@) =~= prev.map_values(|v: Vec<char>| v@).push(seq![]));
        } else {
            let n = pieces.len();
            let mut last = pieces.pop().unwrap();
            let ghost before = last@;
            last.push(c);
            pieces.push(last);
            assert(pieces@.map_values(|v: Vec<char>| v@) =~= prev.map_values(|v: Vec<char>| v@).update(n - 1, before.push(c)));
        }
    }
    assert(cs@.take(cs@.len() as int) =~= cs@);
    let ghost pv = pieces@.map_values(|v: Vec<char>| v@);
    let mut out: Vec<String> = Vec::new();
    for i in 0..pieces.len()
        invariant
            pv == pieces@.map_values(|v: Vec<char>| v@),
            crate::settings::strings_view(out@) == pv.take(i as int),
    {
        let ghost prev = out@;
        let piece = crate::text::string_from_chars(&pieces[i]);
        out.push(piece);
        proof {
            assert(pv[i as int] == pieces@[i as int]@);
            assert(crate::settings::strings_view(out@) =~= crate::settings::strings_view(prev).push(piece@));
            assert(pv.take(i + 1) =~= pv.take(i as int).push(pv[i as int]));
        }
    }
    assert(pv.take(pieces@.len() as int) =~= pv);
    out
}

/// Theme search paths: where themes are discovered, where the cursor
/// loader resolves them, and notes on rejected entries.
pub struct Paths {
    pub discovery: Vec<String>,
    pub resolution: Vec<String>,
    pub diagnostics: Vec<String>,
}

impl Paths {
    /// An isolated root used for both discovery and resolution.
    pub fn fixture(root: String) -> (r: Self)
        ensures
            crate::settings::strings_view(r.discovery@) == seq![root@],
            crate::settings::strings_view(r.resolution@) == seq![root@],
            crate::settings::strings_view(r.diagnostics@) == seq!["fixture: isolated read-only assets"@],
    {
        let mut discovery = Vec::new();
        discovery.push(root.clone());
        let mut resolution = Vec::new();
        resolution.push(root);
        let mut diagnostics = Vec::new();
        diagnostics.push(String::from_str("fixture: isolated read-only assets"));
        proof {
            assert(crate::settings::strings_view(discovery@) =~= seq![root@]);
            assert(crate::settings::strings_view(resolution@) =~= seq![root@]);
            assert(crate::settings::strings_view(diagnostics@) =~= seq!["fixture: isolated read-only assets"@]);
        }
        Paths { discovery, resolution, diagnostics }
    }
}


/// Whether components start at the root.
pub open spec fn abs_comps(c: Seq<Comp>) -> bool {
    c.len() > 0 && c[0] is RootDir
}

/// `$HOME` when it is an absolute path.
pub open spec fn spec_home(home: Option<Seq<char>>) -> Option<Seq<Comp>> {
    match home {
        Some(h) => if spec_is_absolute(h) {
            Some(spec_components(h))
        } else {
            None
        },
        None => None,
    }
}

/// An `XCURSOR_PATH` entry with a leading `~` component replaced by the home.
pub open spec fn spec_expand(e: Seq<char>, home: Option<Seq<Comp>>) -> Seq<Comp> {
    let c = spec_components(e);
    if c.len() > 0 && c[0] == Comp::Normal("~"@) {
        match home {
            Some(h) => h + c.skip(1),
            None => c,
        }
    } else {
        c
    }
}

/// The absolute `XCURSOR_PATH` entries, and one note per rejected entry.
pub open spec fn spec_explicit(es: Seq<Seq<char>>, home: Option<Seq<Comp>>) -> (Seq<Seq<Comp>>, Seq<Seq<char>>)
    decreases es.len(),
{
    if es.len() == 0 {
        (seq![], seq![])
    } else {
        let (p, d) = spec_explicit(es.drop_last(), home);
        let c = spec_expand(es.last(), home);
        if abs_comps(c) {
            (p.push(c), d)
        } else {
            (p, d.push("XCURSOR_PATH: ignored relative/empty entry"@))
        }
    }
}

/// The `icons` directories of the absolute `XDG_DATA_DIRS` entries, and
/// one note per rejected entry.
pub open spec fn spec_data_dirs(ds: Seq<Seq<char>>) -> (Seq<Seq<Comp>>, Seq<Seq<char>>)
    decreases ds.len(),
{
    if ds.len() == 0 {
        (seq![], seq![])
    } else {
        let (p, d) = spec_data_dirs(ds.drop_last());
        let c = spec_components(ds.last());
        if abs_comps(c) {
            (p.push(c.push(Comp::Normal("icons"@))), d)
        } else {
            (p, d.push("XDG_DATA_DIRS: relative entry rejected"@))
        }
    }
}

/// Each path once, at its first place.
pub open spec fn spec_dedup(s: Seq<Seq<Comp>>) -> Seq<Seq<Comp>>
    decreases s.len(),
{
    if s.len() == 0 {
        seq![]
    } else {
        let p = spec_dedup(s.drop_last());
        if p.contains(s.last()) {
            p
        } else {
            p.push(s.last())
        }
    }
}

pub open spec fn nonempty(v: Option<Seq<char>>) -> Option<Seq<char>> {
    match v {
        Some(s) => if s.len() > 0 {
            Some(s)
        } else {
            None
        },
        None => None,
    }
}

/// Search paths from the environment: `XCURSOR_PATH` entries (with `~`
/// expanded), the data home's `icons` (default `~/.local/share/icons`),
/// `~/.icons`, the data directories' `icons` (default `/usr/local/share`
/// and `/usr/share`) and `/usr/share/pixmaps`, each once, for discovery;
/// the `XCURSOR_PATH` entries, else `~/.icons`, `/usr/share/icons` and
/// `/usr/share/pixmaps`, for resolution; notes on rejected entries.
pub open spec fn spec_from_env(
    home: Option<Seq<char>>,
    xcursor: Option<Seq<char>>,
    data_home: Option<Seq<char>>,
    data_dirs: Option<Seq<char>>,
) -> (Seq<Seq<Comp>>, Seq<Seq<Comp>>, Seq<Seq<char>>) {
    let h = spec_home(home);
    let (explicit, d1) = match xcursor {
        Some(x) => spec_explicit(spec_split_char(x, ':'), h),
        None => (seq![], seq![]),
    };
    let home_share: Seq<Seq<Comp>> = match h {
        Some(hc) => seq![hc + spec_components(".local/share/icons"@)],
        None => seq![],
    };
    let (data_part, d2) = match nonempty(data_home) {
        Some(d) => if abs_comps(spec_components(d)) {
            (seq![spec_components(d).push(Comp::Normal("icons"@))], seq![])
        } else {
            (home_share, seq!["XDG_DATA_HOME: relative path rejected; default used"@])
        },
        None => (home_share, seq![]),
    };
    let home_icons: Seq<Seq<Comp>> = match h {
        Some(hc) => seq![hc.push(Comp::Normal(".icons"@))],
        None => seq![],
    };
    let dirs = match nonempty(data_dirs) {
        Some(d) => d,
        None => "/usr/local/share:/usr/share"@,
    };
    let (dir_part, d3) = spec_data_dirs(spec_split_char(dirs, ':'));
    let discovery = spec_dedup(explicit + data_part + home_icons + dir_part + seq![spec_components("/usr/share/pixmaps"@)]);
    let resolution = if explicit.len() == 0 {
        home_icons + seq![spec_components("/usr/share/icons"@), spec_components("/usr/share/pixmaps"@)]
    } else {
        explicit
    };
    (discovery, resolution, d1 + d2 + d3)
}

pub open spec fn rendered(v: Seq<Seq<Comp>>) -> Seq<Seq<char>> {
    v.map_values(|c: Seq<Comp>| spec_render(c))
}

pub open spec fn comps_list_view(v: Seq<Vec<PathPart>>) -> Seq<Seq<Comp>> {
    v.map_values(|p: Vec<PathPart>| parts_view(p@))
}

/// Path text of components (see `spec_render`).
pub fn render(parts: &Vec<PathPart>) -> (r: String)
    ensures
        r@ == spec_render(parts_view(parts@)),
{
    let ghost pv = parts_view(parts@);
    let mut out = String::new();
    proof {
        assert(pv.take(0) =~= seq![]);
    }
    for k in 0..parts.len()
        invariant
            pv == parts_view(parts@),
            out@ == spec_render(pv.take(k as int)),
    {
        proof {
            assert(pv.take(k + 1).drop_last() =~= pv.take(k as int));
            assert(pv.take(k + 1).last() == parts@[k as int]@);
        }
        match &parts[k] {
            PathPart::RootDir => {
                proof {
                    reveal_strlit("/");
                }
                out = String::from_str("/");
            },
            PathPart::CurDir => {
                out = join(out.as_str(), ".");
            },
            PathPart::ParentDir => {
                out = join(out.as_str(), "..");
            },
            PathPart::Normal(n) => {
                let name = crate::text::string_from_chars(n);
                out = join(out.as_str(), name.as_str());
            },
        }
    }
    assert(pv.take(parts@.len() as int) =~= pv);
    out
}

fn clone_parts(p: &Vec<PathPart>) -> (r: Vec<PathPart>)
    ensures
        parts_view(r@) == parts_view(p@),
{
    let mut out: Vec<PathPart> = Vec::new();
    for i in 0..p.len()
        invariant
            parts_view(out@) == parts_view(p@).take(i as int),
    {
        let q = match &p[i] {
            PathPart::RootDir => PathPart::RootDir,
            PathPart::CurDir => PathPart::CurDir,
            PathPart::ParentDir => PathPart::ParentDir,
            PathPart::Normal(n) => PathPart::Normal(crate::paths::copy_chars(n)),
        };
        let ghost prev = out@;
        out.push(q);
        assert(parts_view(out@) =~= parts_view(prev).push(p@[i as int]@));
        assert(parts_view(p@).take(i + 1) =~= parts_view(p@).take(i as int).push(p@[i as int]@));
    }
    assert(parts_view(p@).take(p@.len() as int) =~= parts_view(p@));
    out
}

fn append_parts(a: &Vec<PathPart>, b: &Vec<PathPart>) -> (r: Vec<PathPart>)
    ensures
        parts_view(r@) == parts_view(a@) + parts_view(b@),
{
    let mut out = clone_parts(a);
    let tail = clone_parts(b);
    let ghost av = parts_view(out@);
    let mut t = tail;
    out.append(&mut t);
    assert(parts_view(out@) =~= parts_view(a@) + parts_view(b@));
    out
}

fn is_abs_parts(c: &Vec<PathPart>) -> (r: bool)
    ensures
        r == abs_comps(parts_view(c@)),
{
    if c.len() == 0 {
        return false;
    }
    proof {
        assert(parts_view(c@)[0] == c@[0]@);
    }
    match &c[0] {
        PathPart::RootDir => true,
        _ => false,
    }
}

fn with_icons(c: &Vec<PathPart>) -> (r: Vec<PathPart>)
    ensures
        parts_view(r@) == parts_view(c@).push(Comp::Normal("icons"@)),
{
    let mut out = clone_parts(c);
    let name = crate::text::chars_of("icons");
    let ghost prev = out@;
    out.push(PathPart::Normal(name));
    assert(parts_view(out@) =~= parts_view(prev).push(Comp::Normal("icons"@)));
    out
}

fn expand(e: &str, home: &Option<Vec<PathPart>>) -> (r: Vec<PathPart>)
    ensures
        parts_view(r@) == spec_expand(e@, match home {
            Some(h) => Some(parts_view(h@)),
            None => None,
        }),
{
    let c = components(e);
    let tilde = crate::text::chars_of("~");
    let starts = c.len() > 0 && match &c[0] {
        PathPart::Normal(n) => crate::paths::chars_eq(n, &tilde),
        _ => false,
    };
    proof {
        if c@.len() > 0 {
            assert(parts_view(c@)[0] == c@[0]@);
        }
    }
    if starts {
        match home {
            Some(h) => {
                let mut rest: Vec<PathPart> = Vec::new();
                for i in 1..c.len()
                    invariant
                        1 <= c@.len(),
                        parts_view(rest@) == parts_view(c@).subrange(1, i as int),
                {
                    let q = match &c[i] {
                        PathPart::RootDir => PathPart::RootDir,
                        PathPart::CurDir => PathPart::CurDir,
                        PathPart::ParentDir => PathPart::ParentDir,
                        PathPart::Normal(n) => PathPart::Normal(crate::paths::copy_chars(n)),
                    };
                    let ghost prev = rest@;
                    rest.push(q);
                    assert(q@ == c@[i as int]@);
                    assert(parts_view(rest@) =~= parts_view(prev).push(c@[i as int]@));
                    assert(parts_view(rest@) =~= parts_view(c@).subrange(1, i + 1));
                }
                assert(parts_view(c@).subrange(1, c@.len() as int) =~= parts_view(c@).skip(1));
                append_parts(h, &rest)
            },
            None => c,
        }
    } else {
        c
    }
}

fn contains_parts(v: &Vec<Vec<PathPart>>, c: &Vec<PathPart>) -> (r: bool)
    ensures
        r == comps_list_view(v@).contains(parts_view(c@)),
{
    for i in 0..v.len()
        invariant
            forall|j: int| 0 <= j < i ==> comps_list_view(v@)[j] != parts_view(c@),
    {
        if same_parts(&v[i], c) {
            assert(comps_list_view(v@)[i as int] == parts_view(c@));
            return true;
        }
    }
    false
}

pub open spec fn opt_text(o: Option<&str>) -> Option<Seq<char>> {
    match o {
        Some(x) => Some(x@),
        None => None,
    }
}

pub open spec fn opt_parts(o: Option<Vec<PathPart>>) -> Option<Seq<Comp>> {
    match o {
        Some(p) => Some(parts_view(p@)),
        None => None,
    }
}

fn home_parts(home: Option<&str>) -> (r: Option<Vec<PathPart>>)
    ensures
        opt_parts(r) == spec_home(opt_text(home)),
{
    match home {
        Some(x) => if is_absolute(x) {
            Some(components(x))
        } else {
            None
        },
        None => None,
    }
}

fn explicit_entries(x: &str, h: &Option<Vec<PathPart>>) -> (r: (Vec<Vec<PathPart>>, Vec<String>))
    ensures
        (comps_list_view(r.0@), crate::settings::strings_view(r.1@)) == spec_explicit(spec_split_char(x@, ':'), opt_parts(*h)),
{
    let mut diagnostics: Vec<String> = Vec::new();
    let mut explicit: Vec<Vec<PathPart>> = Vec::new();
    let entries = split_char(x, ':');
    let ghost ev = crate::settings::strings_view(entries@);
    let ghost hc = opt_parts(*h);
    proof {
        assert(ev.take(0) =~= seq![]);
        assert(comps_list_view(explicit@) =~= seq![]);
        assert(crate::settings::strings_view(diagnostics@) =~= seq![]);
    }
    for i in 0..entries.len()
        invariant
            ev == crate::settings::strings_view(entries@),
            hc == opt_parts(*h),
            (comps_list_view(explicit@), crate::settings::strings_view(diagnostics@)) == spec_explicit(ev.take(i as int), hc),
    {
        proof {
            assert(ev.take(i + 1).drop_last() =~= ev.take(i as int));
            assert(ev.take(i + 1).last() == entries@[i as int]@);
        }
        let c = expand(entries[i].as_str(), h);
        if is_abs_parts(&c) {
            let ghost prev = explicit@;
            explicit.push(c);
            assert(comps_list_view(explicit@) =~= comps_list_view(prev).push(parts_view(c@)));
        } else {
            let ghost prev = diagnostics@;
            diagnostics.push(String::from_str("XCURSOR_PATH: ignored relative/empty entry"));
            assert(crate::settings::strings_view(diagnostics@) =~= crate::settings::strings_view(prev).push("XCURSOR_PATH: ignored relative/empty entry"@));
        }
    }
    assert(ev.take(ev.len() as int) =~= ev);
    (explicit, diagnostics)
}

fn data_dir_entries(dirs_text: &str) -> (r: (Vec<Vec<PathPart>>, Vec<String>))
    ensures
        (comps_list_view(r.0@), crate::settings::strings_view(r.1@)) == spec_data_dirs(spec_split_char(dirs_text@, ':')),
{
    let mut found: Vec<Vec<PathPart>> = Vec::new();
    let mut diagnostics: Vec<String> = Vec::new();
    let dirs = split_char(dirs_text, ':');
    let ghost dv = crate::settings::strings_view(dirs@);
    proof {
        assert(dv.take(0) =~= seq![]);
        assert(comps_list_view(found@) =~= seq![]);
        assert(crate::settings::strings_view(diagnostics@) =~= seq![]);
    }
    for i in 0..dirs.len()
        invariant
            dv == crate::settings::strings_view(dirs@),
            (comps_list_view(found@), crate::settings::strings_view(diagnostics@)) == spec_data_dirs(dv.take(i as int)),
    {
        proof {
            assert(dv.take(i + 1).drop_last() =~= dv.take(i as int));
            assert(dv.take(i + 1).last() == dirs@[i as int]@);
        }
        let c = components(dirs[i].as_str());
        if is_abs_parts(&c) {
            let ghost prev = found@;
            let w = with_icons(&c);
            found.push(w);
            assert(comps_list_view(found@) =~= comps_list_view(prev).push(parts_view(w@)));
        } else {
            let ghost prev = diagnostics@;
            diagnostics.push(String::from_str("XDG_DATA_DIRS: relative entry rejected"));
            assert(crate::settings::strings_view(diagnostics@) =~= crate::settings::strings_view(prev).push("XDG_DATA_DIRS: relative entry rejected"@));
        }
    }
    assert(dv.take(dv.len() as int) =~= dv);
    (found, diagnostics)
}

fn dedup_parts(all: &Vec<Vec<PathPart>>) -> (r: Vec<Vec<PathPart>>)
    ensures
        comps_list_view(r@) == spec_dedup(comps_list_view(all@)),
{
    let ghost av = comps_list_view(all@);
    let mut unique: Vec<Vec<PathPart>> = Vec::new();
    proof {
        assert(av.take(0) =~= seq![]);
        assert(comps_list_view(unique@) =~= seq![]);
    }
    for i in 0..all.len()
        invariant
            av == comps_list_view(all@),
            comps_list_view(unique@) == spec_dedup(av.take(i as int)),
    {
        proof {
            assert(av.take(i + 1).drop_last() =~= av.take(i as int));
            assert(av.take(i + 1).last() == parts_view(all@[i as int]@));
        }
        if !contains_parts(&unique, &all[i]) {
            let ghost prev = unique@;
            let q = clone_parts(&all[i]);
            unique.push(q);
            assert(comps_list_view(unique@) =~= comps_list_view(prev).push(parts_view(all@[i as int]@)));
        }
    }
    assert(av.take(av.len() as int) =~= av);
    unique
}

fn push_opt(v: &mut Vec<Vec<PathPart>>, o: &Option<Vec<PathPart>>)
    ensures
        comps_list_view(final(v)@) == comps_list_view(old(v)@) + match opt_parts(*o) {
            Some(c) => seq![c],
            None => Seq::<Seq<Comp>>::empty(),
        },
{
    match o {
        Some(p) => {
            let ghost prev = v@;
            let q = clone_parts(p);
            v.push(q);
            assert(comps_list_view(v@) =~= comps_list_view(prev) + seq![parts_view(p@)]);
        },
        None => {
            assert(comps_list_view(v@) =~= comps_list_view(v@) + Seq::<Seq<Comp>>::empty());
        },
    }
}

fn append_list(v: &mut Vec<Vec<PathPart>>, w: &Vec<Vec<PathPart>>)
    ensures
        comps_list_view(final(v)@) == comps_list_view(old(v)@) + comps_list_view(w@),
{
    let ghost start = comps_list_view(v@);
    for i in 0..w.len()
        invariant
            comps_list_view(v@) == start + comps_list_view(w@).take(i as int),
    {
        let ghost prev = v@;
        let q = clone_parts(&w[i]);
        v.push(q);
        assert(comps_list_view(v@) =~= comps_list_view(prev).push(parts_view(w@[i as int]@)));
        assert(comps_list_view(v@) =~= start + comps_list_view(w@).take(i + 1));
    }
    assert(comps_list_view(w@).take(w@.len() as int) =~= comps_list_view(w@));
}

fn home_join(h: &Option<Vec<PathPart>>, rest: &str) -> (r: Option<Vec<PathPart>>)
    ensures
        opt_parts(r) == match opt_parts(*h) {
            Some(hc) => Some(hc + spec_components(rest@)),
            None => None,
        },
{
    match h {
        Some(hp) => {
            let tail = components(rest);
            Some(append_parts(hp, &tail))
        },
        None => None,
    }
}

fn nonempty_text<'a>(v: Option<&'a str>) -> (r: Option<&'a str>)
    ensures
        opt_text(r) == nonempty(opt_text(v)),
{
    match v {
        Some(d) => if crate::text::chars_of(d).len() > 0 {
            Some(d)
        } else {
            None
        },
        None => None,
    }
}

impl Paths {
    /// Search paths from the environment (see `spec_from_env`); paths are
    /// given as component-normalised text.
    pub fn from_env(home: Option<&str>, xcursor: Option<&str>, data_home: Option<&str>, data_dirs: Option<&str>) -> (r: Self)
        ensures
            ({
                let (d, s, n) = spec_from_env(opt_text(home), opt_text(xcursor), opt_text(data_home), opt_text(data_dirs));
                &&& crate::settings::strings_view(r.discovery@) == rendered(d)
                &&& crate::settings::strings_view(r.resolution@) == rendered(s)
                &&& crate::settings::strings_view(r.diagnostics@) == n
            }),
    {
        let h = home_parts(home);
        let (explicit, mut diagnostics) = match xcursor {
            Some(x) => explicit_entries(x, &h),
            None => (Vec::new(), Vec::new()),
        };
        let ghost ex = comps_list_view(explicit@);
        let ghost d1 = crate::settings::strings_view(diagnostics@);
        proof {
            if xcursor is None {
                assert(ex =~= seq![]);
                assert(d1 =~= seq![]);
            }
        }
        let mut discovery: Vec<Vec<PathPart>> = Vec::new();
        append_list(&mut discovery, &explicit);
        let home_share = home_join(&h, ".local/share/icons");
        let data = nonempty_text(data_home);
        let ghost d2: Seq<Seq<char>>;
        match data {
            Some(d) => {
                let dc = components(d);
                if is_abs_parts(&dc) {
                    let w = with_icons(&dc);
                    let ghost prev = discovery@;
                    discovery.push(w);
                    assert(comps_list_view(discovery@) =~= comps_list_view(prev) + seq![parts_view(w@)]);
                    proof { d2 = seq![]; }
                } else {
                    diagnostics.push(String::from_str("XDG_DATA_HOME: relative path rejected; default used"));
                    proof { d2 = seq!["XDG_DATA_HOME: relative path rejected; default used"@]; }
                    push_opt(&mut discovery, &home_share);
                }
            },
            None => {
                proof { d2 = seq![]; }
                push_opt(&mut discovery, &home_share);
            },
        }
        assert(crate::settings::strings_view(diagnostics@) =~= d1 + d2);
        let home_icons = match &h {
            Some(hp) => {
                let mut v = clone_parts(hp);
                let ghost prev = v@;
                v.push(PathPart::Normal(crate::text::chars_of(".icons")));
                assert(parts_view(v@) =~= parts_view(prev).push(Comp::Normal(".icons"@)));
                Some(v)
            },
            None => None,
        };
        push_opt(&mut discovery, &home_icons);
        let dirs_text = match nonempty_text(data_dirs) {
            Some(d) => d,
            None => "/usr/local/share:/usr/share",
        };
        let (dir_part, d3v) = data_dir_entries(dirs_text);
        append_list(&mut discovery, &dir_part);
        let ghost d3 = crate::settings::strings_view(d3v@);
        let ghost before = diagnostics@;
        let mut d3m = d3v;
        diagnostics.append(&mut d3m);
        assert(crate::settings::strings_view(diagnostics@) =~= d1 + d2 + d3);
        let pixmaps = components("/usr/share/pixmaps");
        let ghost prev = discovery@;
        discovery.push(pixmaps);
        assert(comps_list_view(discovery@) =~= comps_list_view(prev) + seq![parts_view(pixmaps@)]);
        let unique = dedup_parts(&discovery);
        let resolution = if explicit.len() == 0 {
            let mut res: Vec<Vec<PathPart>> = Vec::new();
            push_opt(&mut res, &home_icons);
            let a = components("/usr/share/icons");
            let b = components("/usr/share/pixmaps");
            let ghost p0 = res@;
            res.push(a);
            res.push(b);
            assert(comps_list_view(res@) =~= comps_list_view(p0) + seq![parts_view(a@), parts_view(b@)]);
            res
        } else {
            explicit
        };
        let disc_text = render_paths(&unique);
        let res_text = render_paths(&resolution);
        Paths { discovery: disc_text, resolution: res_text, diagnostics }
    }
}

pub(crate) fn render_paths(v: &Vec<Vec<PathPart>>) -> (r: Vec<String>)
    ensures
        crate::settings::strings_view(r@) == rendered(comps_list_view(v@)),
{
    let mut out: Vec<String> = Vec::new();
    for i in 0..v.len()
        invariant
            crate::settings::strings_view(out@) == rendered(comps_list_view(v@)).take(i as int),
    {
        let t = render(&v[i]);
        let ghost prev = out@;
        out.push(t);
        assert(crate::settings::strings_view(out@) =~= crate::settings::strings_view(prev).push(t@));
        assert(rendered(comps_list_view(v@))[i as int] == spec_render(parts_view(v@[i as int]@)));
        assert(crate::settings::strings_view(out@) =~= rendered(comps_list_view(v@)).take(i + 1));
    }
    assert(rendered(comps_list_view(v@)).take(v@.len() as int) =~= rendered(comps_list_view(v@)));
    out
}

/// `s` with each leftmost, non-overlapping occurrence of `pat` replaced by
/// `rep` (`str::replace` for a non-empty pattern).
pub open spec fn spec_replace(s: Seq<char>, pat: Seq<char>, rep: Seq<char>) -> Seq<char>
    decreases s.len(),
{
    if pat.len() == 0 || s.len() < pat.len() {
        s
    } else if s.take(pat.len() as int) == pat {
        rep + spec_replace(s.skip(pat.len() as int), pat, rep)
    } else {
        seq![s[0]] + spec_replace(s.skip(1), pat, rep)
    }
}

fn matches_at(cs: &Vec<char>, pat: &Vec<char>, i: usize) -> (r: bool)
    requires
        i + pat@.len() <= cs@.len(),
    ensures
        r == (cs@.subrange(i as int, i + pat@.len()) == pat@),
{
    let n = cs.len();
    for k in 0..pat.len()
        invariant
            n == cs@.len(),
            i + pat@.len() <= cs@.len(),
            forall|j: int| 0 <= j < k ==> cs@[i + j] == pat@[j],
    {
        if cs[i + k] != pat[k] {
            assert(cs@.subrange(i as int, i + pat@.len())[k as int] != pat@[k as int]);
            return false;
        }
    }
    assert(cs@.subrange(i as int, i + pat@.len()) =~= pat@);
    true
}

/// `str::replace` of a non-empty pattern.
pub fn replace_all(s: &str, pat: &str, rep: &str) -> (r: String)
    requires
        pat@.len() > 0,
    ensures
        r@ == spec_replace(s@, pat@, rep@),
{
    let cs = crate::text::chars_of(s);
    let pc = crate::text::chars_of(pat);
    let rc = crate::text::chars_of(rep);
    let mut out: Vec<char> = Vec::new();
    let mut i: usize = 0;
    assert(cs@.skip(0) =~= cs@);
    while pc.len() <= cs.len() - i
        invariant
            cs@ == s@,
            pc@ == pat@,
            rc@ == rep@,
            pc@.len() > 0,
            i <= cs@.len(),
            out@ + spec_replace(cs@.skip(i as int), pc@, rc@) == spec_replace(cs@, pc@, rc@),
        decreases cs@.len() - i,
    {
        let ghost rest = cs@.skip(i as int);
        let ghost before = out@;
        assert(rest.take(pc@.len() as int) =~= cs@.subrange(i as int, i + pc@.len()));
        if matches_at(&cs, &pc, i) {
            let mut t = rc.clone();
            out.append(&mut t);
            assert(rest.skip(pc@.len() as int) =~= cs@.skip(i + pc@.len()));
            assert(out@ =~= before + rc@);
            i = i + pc.len();
        } else {
            out.push(cs[i]);
            assert(rest.skip(1) =~= cs@.skip(i + 1));
            assert(out@ =~= before + seq![rest[0]]);
            i = i + 1;
        }
    }
    let ghost before = out@;
    let ghost rest = cs@.skip(i as int);
    for k in i..cs.len()
        invariant
            i <= k <= cs@.len(),
            out@ == before + cs@.subrange(i as int, k as int),
    {
        out.push(cs[k]);
        assert(out@ =~= before + cs@.subrange(i as int, k + 1));
    }
    assert(cs@.subrange(i as int, cs@.len() as int) =~= rest);
    crate::text::string_from_chars(&out)
}

/// Whether the components of `p` start with those of `base` (`Path::starts_with`).
pub open spec fn comps_starts_with(p: Seq<Comp>, base: Seq<Comp>) -> bool {
    base.len() <= p.len() && p.take(base.len() as int) == base
}

fn starts_with_path(p: &str, base: &str) -> (r: bool)
    ensures
        r == comps_starts_with(spec_components(p@), spec_components(base@)),
{
    let pc = components(p);
    let bc = components(base);
    if bc.len() > pc.len() {
        return false;
    }
    crate::paths::same_parts_prefix(&bc, &pc, bc.len())
}

/// Whether path `p` lies under one of the `allowed` roots.
pub open spec fn spec_permitted(p: Seq<char>, allowed: Seq<Seq<char>>) -> bool {
    exists|i: int| 0 <= i < allowed.len() && #[trigger] comps_starts_with(spec_components(p), spec_components(allowed[i]))
}

pub fn permitted(p: &str, allowed: &[String]) -> (r: bool)
    ensures
        r == spec_permitted(p@, strings_view(allowed@)),
{
    let ghost av = strings_view(allowed@);
    for i in 0..allowed.len()
        invariant
            av == strings_view(allowed@),
            forall|j: int| 0 <= j < i ==> !comps_starts_with(spec_components(p@), spec_components(av[j])),
    {
        if starts_with_path(p, allowed[i].as_str()) {
            assert(av[i as int] == allowed@[i as int]@);
            return true;
        }
    }
    false
}

/// Symbolic links followed when a path is resolved.
pub const MAX_LINK_HOPS: usize = 32;

/// One step of resolving the links in path `current`, at hop `hops`,
/// with `seen` the paths resolved before: more than `MAX_LINK_HOPS` hops,
/// or a path seen before (as components), end it with an error. Without a
/// link (`target` is none) the path is the answer when it lies under an
/// allowed root (`Ok(true)`). A link whose normalized target lies under an
/// allowed root, or under `/etc/alternatives`, is followed (`Ok(false)`).
pub open spec fn spec_link_step(
    current: Seq<char>,
    target: Option<Seq<char>>,
    seen: Seq<Seq<char>>,
    hops: nat,
    allowed: Seq<Seq<char>>,
) -> Result<bool, Error> {
    match spec_link_enter(current, seen, hops) {
        Err(e) => Err(e),
        Ok(()) => match target {
            None => if spec_permitted(current, allowed) {
                Ok(true)
            } else {
                Err(Error::Invalid("outside declared roots"))
            },
            Some(t) => if spec_permitted(t, allowed) || comps_starts_with(
                spec_components(t),
                spec_components("/etc/alternatives"@),
            ) {
                Ok(false)
            } else {
                Err(Error::Invalid("symlink target outside declared roots"))
            },
        },
    }
}

/// The first checks of a link resolution step: more than `MAX_LINK_HOPS`
/// hops, or a path seen before (as components), are errors.
pub open spec fn spec_link_enter(current: Seq<char>, seen: Seq<Seq<char>>, hops: nat) -> Result<(), Error> {
    if hops > MAX_LINK_HOPS {
        Err(Error::LimitExceeded("symlink depth"))
    } else if exists|j: int| 0 <= j < seen.len() && #[trigger] spec_components(seen[j]) == spec_components(current) {
        Err(Error::Invalid("symlink cycle"))
    } else {
        Ok(())
    }
}

/// The checks made on entering a path while resolving links, before any
/// file is looked at (see `spec_link_enter`).
pub fn link_enter(current: &str, seen: &Vec<String>, hops: usize) -> (r: Result<(), Error>)
    ensures
        r == spec_link_enter(current@, strings_view(seen@), hops as nat),
{
    if hops > MAX_LINK_HOPS {
        return Err(Error::LimitExceeded("symlink depth"));
    }
    let ghost sv = strings_view(seen@);
    for j in 0..seen.len()
        invariant
            sv == strings_view(seen@),
            hops <= MAX_LINK_HOPS,
            forall|k: int| 0 <= k < j ==> spec_components(sv[k]) != spec_components(current@),
    {
        if crate::paths::same_path(seen[j].as_str(), current) {
            assert(sv[j as int] == seen@[j as int]@);
            assert(spec_components(sv[j as int]) == spec_components(current@));
            return Err(Error::Invalid("symlink cycle"));
        }
    }
    Ok(())
}

/// Decides one step of link resolution (see `spec_link_step`).
pub fn link_step(current: &str, target: Option<&str>, seen: &Vec<String>, hops: usize, allowed: &[String]) -> (r: Result<bool, Error>)
    ensures
        r == spec_link_step(
            current@,
            match target {
                Some(t) => Some(t@),
                None => None,
            },
            strings_view(seen@),
            hops as nat,
            strings_view(allowed@),
        ),
{
    match link_enter(current, seen, hops) {
        Ok(()) => {},
        Err(e) => {
            return Err(e);
        },
    }
    match target {
        None => {
            if permitted(current, allowed) {
                Ok(true)
            } else {
                Err(Error::Invalid("outside declared roots"))
            }
        },
        Some(t) => {
            if permitted(t, allowed) || starts_with_path(t, "/etc/alternatives") {
                proof {
                    reveal_strlit("/etc/alternatives");
                }
                Ok(false)
            } else {
                Err(Error::Invalid("symlink target outside declared roots"))
            }
        },
    }
}

/// Whether a search-path entry names a user root: non-empty and outside
/// `/usr` and `/etc`.
pub open spec fn user_root(p: Seq<char>) -> bool {
    &&& p.len() > 0
    &&& !comps_starts_with(spec_components(p), spec_components("/usr"@))
    &&& !comps_starts_with(spec_components(p), spec_components("/etc"@))
}

/// `s` with every user root among `roots` replaced, in order.
pub open spec fn spec_redact_roots(s: Seq<char>, roots: Seq<Seq<char>>) -> Seq<char>
    decreases roots.len(),
{
    if roots.len() == 0 {
        s
    } else {
        let t = spec_redact_roots(s, roots.drop_last());
        if user_root(roots.last()) {
            spec_replace(t, roots.last(), "$USER_PATH"@)
        } else {
            t
        }
    }
}

pub open spec fn entries_of(v: Option<Seq<char>>) -> Seq<Seq<char>> {
    match v {
        Some(x) => spec_split_char(x, ':'),
        None => seq![],
    }
}

/// `s` with a non-empty home replaced by `$HOME`, then each user root of
/// `XCURSOR_PATH`, `XDG_DATA_HOME` and `XDG_DATA_DIRS` by `$USER_PATH`.
pub open spec fn spec_redact(
    s: Seq<char>,
    home: Option<Seq<char>>,
    xcursor: Option<Seq<char>>,
    data_home: Option<Seq<char>>,
    data_dirs: Option<Seq<char>>,
) -> Seq<char> {
    let h = match home {
        Some(x) => if x.len() > 0 {
            spec_replace(s, x, "$HOME"@)
        } else {
            s
        },
        None => s,
    };
    spec_redact_roots(h, entries_of(xcursor) + entries_of(data_home) + entries_of(data_dirs))
}

fn redact_entries(out: String, v: Option<&str>) -> (r: String)
    ensures
        r@ == spec_redact_roots(out@, entries_of(opt_text(v))),
{
    match v {
        None => {
            assert(entries_of(opt_text(v)) =~= seq![]);
            out
        },
        Some(x) => {
            let pieces = split_char(x, ':');
            let ghost pv = crate::settings::strings_view(pieces@);
            let mut cur = out;
            let ghost start = cur@;
            assert(pv.take(0) =~= seq![]);
            for i in 0..pieces.len()
                invariant
                    pv == crate::settings::strings_view(pieces@),
                    cur@ == spec_redact_roots(start, pv.take(i as int)),
            {
                proof {
                    assert(pv.take(i + 1).drop_last() =~= pv.take(i as int));
                    assert(pv.take(i + 1).last() == pieces@[i as int]@);
                }
                let p = pieces[i].as_str();
                let keep = crate::text::chars_of(p).len() == 0 || starts_with_path(p, "/usr") || starts_with_path(p, "/etc");
                if !keep {
                    cur = replace_all(cur.as_str(), p, "$USER_PATH");
                }
            }
            assert(pv.take(pv.len() as int) =~= pv);
            cur
        },
    }
}

proof fn lemma_redact_roots_append(s: Seq<char>, a: Seq<Seq<char>>, b: Seq<Seq<char>>)
    ensures
        spec_redact_roots(s, a + b) == spec_redact_roots(spec_redact_roots(s, a), b),
    decreases b.len(),
{
    if b.len() == 0 {
        assert(a + b =~= a);
    } else {
        assert((a + b).drop_last() =~= a + b.drop_last());
        assert((a + b).last() == b.last());
        lemma_redact_roots_append(s, a, b.drop_last());
    }
}

/// Text with the home directory and user search roots hidden (see `spec_redact`).
pub fn redact(s: &str, home: Option<&str>, xcursor: Option<&str>, data_home: Option<&str>, data_dirs: Option<&str>) -> (r: String)
    ensures
        r@ == spec_redact(s@, opt_text(home), opt_text(xcursor), opt_text(data_home), opt_text(data_dirs)),
{
    let mut out = String::from_str(s);
    match home {
        Some(h) => {
            if crate::text::chars_of(h).len() > 0 {
                out = replace_all(s, h, "$HOME");
            }
        },
        None => {},
    }
    let ghost h0 = out@;
    let a = redact_entries(out, xcursor);
    let b = redact_entries(a, data_home);
    let c = redact_entries(b, data_dirs);
    proof {
        let ex = entries_of(opt_text(xcursor));
        let eh = entries_of(opt_text(data_home));
        let ed = entries_of(opt_text(data_dirs));
        lemma_redact_roots_append(h0, ex, eh);
        lemma_redact_roots_append(h0, ex + eh, ed);
    }
    c
}

proof fn lemma_dedup_contains(s: Seq<Seq<Comp>>, x: Seq<Comp>)
    ensures
        spec_dedup(s).contains(x) <==> s.contains(x),
    decreases s.len(),
{
    if s.len() > 0 {
        let p = spec_dedup(s.drop_last());
        lemma_dedup_contains(s.drop_last(), x);
        assert(s =~= s.drop_last().push(s.last()));
        if s.contains(x) && !s.drop_last().contains(x) {
            let j = choose|j: int| 0 <= j < s.len() && s[j] == x;
            if j < s.len() - 1 {
                assert(s.drop_last()[j] == x);
            }
        }
        if s.drop_last().contains(x) {
            let j = choose|j: int| 0 <= j < s.drop_last().len() && s.drop_last()[j] == x;
            assert(s[j] == x);
        }
        if !p.contains(s.last()) {
            assert(p.push(s.last())[p.len() as int] == s.last());
            if p.push(s.last()).contains(x) && x != s.last() {
                let j = choose|j: int| 0 <= j < p.len() + 1 && p.push(s.last())[j] == x;
                assert(p[j] == x);
            }
            if p.contains(x) {
                let j = choose|j: int| 0 <= j < p.len() && p[j] == x;
                assert(p.push(s.last())[j] == x);
            }
        }
        if x == s.last() {
            assert(s[s.len() - 1] == x);
        }
    }
}

proof fn lemma_dedup_unique(s: Seq<Seq<Comp>>)
    ensures
        spec_dedup(s).no_duplicates(),
    decreases s.len(),
{
    if s.len() > 0 {
        lemma_dedup_unique(s.drop_last());
        let p = spec_dedup(s.drop_last());
        if !p.contains(s.last()) {
            let q = p.push(s.last());
            assert forall|a: int, b: int| 0 <= a < q.len() && 0 <= b < q.len() && a != b implies q[a] != q[b] by {
                if a == p.len() {
                    assert(q[b] == p[b]);
                } else if b == p.len() {
                    assert(q[a] == p[a]);
                } else {
                    assert(q[a] == p[a]);
                    assert(q[b] == p[b]);
                }
            }
        }
    }
}

/// Discovery lists every search directory once, and loses none: each path
/// of the environment's candidate list is in it.
pub proof fn law_discovery_unique(
    home: Option<Seq<char>>,
    xcursor: Option<Seq<char>>,
    data_home: Option<Seq<char>>,
    data_dirs: Option<Seq<char>>,
)
    ensures
        spec_from_env(home, xcursor, data_home, data_dirs).0.no_duplicates(),
        spec_from_env(home, xcursor, data_home, data_dirs).0.contains(spec_components("/usr/share/pixmaps"@)),
{
    let h = spec_home(home);
    let (explicit, d1) = match xcursor {
        Some(x) => spec_explicit(spec_split_char(x, ':'), h),
        None => (seq![], seq![]),
    };
    let home_share: Seq<Seq<Comp>> = match h {
        Some(hc) => seq![hc + spec_components(".local/share/icons"@)],
        None => seq![],
    };
    let (data_part, d2) = match nonempty(data_home) {
        Some(d) => if abs_comps(spec_components(d)) {
            (seq![spec_components(d).push(Comp::Normal("icons"@))], seq![])
        } else {
            (home_share, seq!["XDG_DATA_HOME: relative path rejected; default used"@])
        },
        None => (home_share, seq![]),
    };
    let home_icons: Seq<Seq<Comp>> = match h {
        Some(hc) => seq![hc.push(Comp::Normal(".icons"@))],
        None => seq![],
    };
    let dirs = match nonempty(data_dirs) {
        Some(d) => d,
        None => "/usr/local/share:/usr/share"@,
    };
    let (dir_part, d3) = spec_data_dirs(spec_split_char(dirs, ':'));
    let all = explicit + data_part + home_icons + dir_part + seq![spec_components("/usr/share/pixmaps"@)];
    lemma_dedup_unique(all);
    lemma_dedup_contains(all, spec_components("/usr/share/pixmaps"@));
    assert(all[all.len() - 1] == spec_components("/usr/share/pixmaps"@));
}

/// What `zip::ZipArchive::new` over these bytes reports as its entry count
/// (`len`), or the message of its error.
pub uninterp spec fn zip_count(b: Seq<u8>) -> Result<usize, Seq<char>>;

/// What the archive over these bytes reports of entry `i` (`by_index`):
/// its name, Unix mode, whether it is encrypted, its compression method,
/// whether it is a directory, and its expanded size; or the
/// message of its error.
pub uninterp spec fn zip_meta(b: Seq<u8>, i: int) -> Result<(Seq<char>, Option<u32>, bool, ZipMethod, bool, u64), Seq<char>>;

/// The expanded contents of entry `i`, read up to `cap` bytes, or the
/// message of the read error.
pub uninterp spec fn zip_data(b: Seq<u8>, i: int, cap: u64) -> Result<Seq<u8>, Seq<char>>;

/// The entry count of a ZIP archive: `zip::ZipArchive::new`, then `len`.
#[verifier::external_body]
fn zip_entry_count(b: &[u8]) -> (r: Result<usize, String>)
    ensures
        match r {
            Ok(n) => zip_count(b@) == Ok::<usize, Seq<char>>(n),
            Err(m) => zip_count(b@) == Err::<usize, Seq<char>>(m@),
        },
{
    match zip::ZipArchive::new(std::io::Cursor::new(b)) {
        Ok(a) => Ok(a.len()),
        Err(e) => Err(e.to_string()),
    }
}

/// The metadata of ZIP entry `i`: `ZipArchive::by_index`, then the entry's
/// `name`, `unix_mode`, `encrypted`, `compression` (stored, deflated or
/// another method),
/// `is_dir` and `size`.
#[verifier::external_body]
fn zip_entry_meta(b: &[u8], i: usize) -> (r: Result<(String, Option<u32>, bool, ZipMethod, bool, u64), String>)
    ensures
        match r {
            Ok(m) => zip_meta(b@, i as int) == Ok::<(Seq<char>, Option<u32>, bool, ZipMethod, bool, u64), Seq<char>>((m.0@, m.1, m.2, m.3, m.4, m.5)),
            Err(e) => zip_meta(b@, i as int) == Err::<(Seq<char>, Option<u32>, bool, ZipMethod, bool, u64), Seq<char>>(e@),
        },
{
    let mut a = zip::ZipArchive::new(std::io::Cursor::new(b)).map_err(|e| e.to_string())?;
    let f = a.by_index(i).map_err(|e| e.to_string())?;
    let name = f.name().map_err(|e| e.to_string())?.into_owned();
    let method = match f.compression() {
        zip::CompressionMethod::Stored => ZipMethod::Stored,
        zip::CompressionMethod::Deflated => ZipMethod::Deflated,
        _ => ZipMethod::Other,
    };
    Ok((name, f.unix_mode(), f.encrypted(), method, f.is_dir(), f.size()))
}

/// Bytes read of one entry: one past the largest accepted input.
pub const READ_CAP: u64 = 16777217;

/// The contents of ZIP entry `i`: `ZipArchive::by_index`, then reading at
/// most `cap` bytes from it (`Read::take`, then `read_to_end`), which
/// reads no more than `cap` bytes.
#[verifier::external_body]
fn zip_entry_data(b: &[u8], i: usize, cap: u64) -> (r: Result<Vec<u8>, String>)
    ensures
        match r {
            Ok(d) => zip_data(b@, i as int, cap) == Ok::<Seq<u8>, Seq<char>>(d@) && d@.len() <= cap,
            Err(e) => zip_data(b@, i as int, cap) == Err::<Seq<u8>, Seq<char>>(e@),
        },
{
    let mut a = zip::ZipArchive::new(std::io::Cursor::new(b)).map_err(|e| e.to_string())?;
    let mut f = a.by_index(i).map_err(|e| e.to_string())?;
    let mut out = Vec::new();
    std::io::Read::read_to_end(&mut std::io::Read::take(&mut f, cap), &mut out).map_err(|e| e.to_string())?;
    Ok(out)
}

/// A ZIP entry name without its trailing slashes.
pub open spec fn spec_trim_slashes(s: Seq<char>) -> Seq<char>
    decreases s.len(),
{
    if s.len() > 0 && s.last() == '/' {
        spec_trim_slashes(s.drop_last())
    } else {
        s
    }
}

fn trim_slashes(s: &str) -> (r: String)
    ensures
        r@ == spec_trim_slashes(s@),
{
    let cs = crate::text::chars_of(s);
    let mut n = cs.len();
    assert(cs@.take(n as int) =~= cs@);
    while n > 0 && cs[n - 1] == '/'
        invariant
            n <= cs@.len(),
            spec_trim_slashes(cs@.take(n as int)) == spec_trim_slashes(s@),
            cs@ == s@,
        decreases n,
    {
        assert(cs@.take(n as int).drop_last() =~= cs@.take(n - 1));
        n = n - 1;
    }
    assert(cs@.take(n as int).len() == n);
    let mut out: Vec<char> = Vec::new();
    for k in 0..n
        invariant
            n <= cs@.len(),
            out@ == cs@.take(k as int),
    {
        out.push(cs[k]);
        assert(cs@.take(k + 1) =~= cs@.take(k as int).push(cs@[k as int]));
    }
    assert(spec_trim_slashes(cs@.take(n as int)) == cs@.take(n as int));
    crate::text::string_from_chars(&out)
}

/// The trimmed names of entries `0..i`, given that their metadata was read.
pub open spec fn zip_names(b: Seq<u8>, i: int) -> Seq<Seq<char>>
    decreases i,
{
    if i <= 0 {
        seq![]
    } else {
        zip_names(b, i - 1).push(match zip_meta(b, i - 1) {
            Ok(m) => spec_trim_slashes(m.0),
            Err(_) => seq![],
        })
    }
}

/// Entry `i` is a file whose contents do not have its declared size.
pub open spec fn size_mismatch(b: Seq<u8>, i: int) -> bool {
    zip_meta(b, i) matches Ok(mt) && !mt.4 && (zip_data(b, i, READ_CAP) matches Ok(d) && d.len() != mt.5)
}

/// A ZIP entry's Unix mode, 0 when it has none.
pub open spec fn mode_of(o: Option<u32>) -> u32 {
    match o {
        Some(x) => x,
        None => 0,
    }
}

/// The components of the trimmed names of entries `0..i`.
pub open spec fn zip_seen(b: Seq<u8>, i: int) -> Seq<Seq<Comp>> {
    zip_names(b, i).map_values(|n: Seq<char>| spec_components(n))
}

/// How many of the first `n` entries are files (not folders) whose path,
/// without leading and trailing slashes, is a cursor file (`cursor`) or
/// any other file (`!cursor`).
pub open spec fn zip_files(b: Seq<u8>, n: int, cursor: bool) -> nat
    decreases n,
{
    if n <= 0 {
        0
    } else {
        zip_files(b, n - 1, cursor) + match zip_meta(b, n - 1) {
            Ok(m) => if !m.4 && spec_is_cursor(spec_trim_slashes(m.0)) == cursor {
                1nat
            } else {
                0nat
            },
            Err(_) => 0nat,
        }
    }
}

/// What one accepted entry adds to a package: nothing for a folder; a
/// cursor file becomes the next asset, under its path; another file is
/// counted as ignored.
pub open spec fn zip_entry_added(b: Seq<u8>, i: int, before: Package, after: Package) -> bool {
    match zip_meta(b, i) {
        Ok(m) => if m.4 {
            after.assets@ == before.assets@ && after.ignored == before.ignored
        } else if spec_is_cursor(spec_trim_slashes(m.0)) {
            &&& after.assets@.len() == before.assets@.len() + 1
            &&& after.assets@.take(before.assets@.len() as int) == before.assets@
            &&& after.assets@.last().path@ == spec_trim_slashes(m.0)
            &&& after.ignored == before.ignored
        } else {
            after.assets@ == before.assets@ && after.ignored == before.ignored + 1
        },
        Err(_) => false,
    }
}

/// Entry `i` was accepted: its metadata was read and passed
/// `spec_zip_entry` (its path not seen before), and a file's contents were
/// read with exactly the declared size.
#[verifier::opaque]
pub open spec fn zip_entry_accepted(b: Seq<u8>, i: int) -> bool {
    match zip_meta(b, i) {
        Ok(m) => {
            &&& exists|s: &str| s@ == spec_trim_slashes(m.0) && #[trigger] spec_zip_entry(s, zip_seen(b, i), mode_of(m.1), m.2, m.3, m.5) is Ok
            &&& !m.4 ==> (zip_data(b, i, READ_CAP) matches Ok(d) && d.len() == m.5)
        },
        Err(_) => false,
    }
}

/// One entry of `unzip`, after the cancellation poll.
#[verifier::rlimit(40)]
fn unzip_entry<F: Fn() -> bool>(b: &[u8], i: usize, seen: &mut Vec<Vec<PathPart>>, budget: &mut ReadBudget, out: &mut Package, cancel: &F) -> (r: Result<(), Error>)
    requires
        cancel.requires(()),
        old(budget).pixels <= MAX_TOTAL,
        old(seen)@.map_values(|p: Vec<PathPart>| parts_view(p@)) == zip_seen(b@, i as int),
    ensures
        r is Ok ==> zip_entry_accepted(b@, i as int),
        r is Ok ==> final(seen)@.map_values(|p: Vec<PathPart>| parts_view(p@)) == zip_seen(b@, i + 1),
        r is Ok ==> final(budget).pixels <= MAX_TOTAL,
        r is Ok ==> zip_entry_added(b@, i as int, *old(out), *final(out)),
        r == Err::<(), Error>(Error::Invalid("ZIP expanded size mismatch")) ==> size_mismatch(b@, i as int),
        final(out).assets@.len() >= old(out).assets@.len(),
        final(out).assets@.take(old(out).assets@.len() as int) == old(out).assets@,
{
    proof {
        assert(old(out).assets@.take(old(out).assets@.len() as int) =~= old(out).assets@);
    }
        if cancel() {
            return Err(Error::Cancelled);
        }
        let (name, mode, encrypted, method, is_dir, size) = match zip_entry_meta(b, i) {
            Ok(m) => m,
            Err(m) => {
                return Err(Error::Io(m));
            },
        };
        let raw = trim_slashes(name.as_str());
        let mode_bits = match mode {
            Some(x) => x,
            None => 0,
        };
        let rs: &str = raw.as_str();
        match zip_entry(rs, &seen, mode_bits, encrypted, method, size) {
            Ok(()) => {},
            Err(e) => {
                return Err(e);
            },
        }
        proof {
            assert(seen@.map_values(|p: Vec<PathPart>| parts_view(p@)) == zip_seen(b@, i as int));
            assert(spec_zip_entry(rs, zip_seen(b@, i as int), mode_bits, encrypted, method, size) is Ok);
        }
        let ghost old_seen = seen@;
        seen.push(components(rs));
        proof {
            assert(seen@.map_values(|p: Vec<PathPart>| parts_view(p@)) =~= old_seen.map_values(|p: Vec<PathPart>| parts_view(p@)).push(spec_components(raw@)));
            assert(zip_names(b@, i + 1) == zip_names(b@, i as int).push(raw@));
            assert(zip_seen(b@, i + 1) =~= zip_seen(b@, i as int).push(spec_components(raw@)));
        }
        if budget.entries == usize::MAX {
            return Err(Error::LimitExceeded("package entries/expanded bytes"));
        }
        match budget.entry(size as usize) {
            Ok(()) => {},
            Err(e) => {
                return Err(e);
            },
        }
        if !is_dir {
            let data = match zip_entry_data(b, i, READ_CAP) {
                Ok(d) => d,
                Err(m) => {
                    return Err(Error::Io(m));
                },
            };
            if data.len() as u64 != size {
                assert(size_mismatch(b@, i as int));
                return Err(Error::Invalid("ZIP expanded size mismatch"));
            }
            if out.ignored == usize::MAX {
                return Err(Error::LimitExceeded("package entries/expanded bytes"));
            }
            match budget.asset(raw, data.as_slice(), out, cancel) {
                Ok(()) => {},
                Err(e) => {
                    return Err(e);
                },
            }
        }
    assert(zip_entry_accepted(b@, i as int)) by {
        reveal(zip_entry_accepted);
    }
    Ok(())
}

/// The entries of `unzip`, after the archive's count was checked.
fn unzip_entries<F: Fn() -> bool>(b: &[u8], n: usize, budget: &mut ReadBudget, out: &mut Package, cancel: &F) -> (r: Result<(), Error>)
    requires
        cancel.requires(()),
        old(budget).pixels <= MAX_TOTAL,
    ensures
        r is Ok ==> forall|i: int| 0 <= i < n ==> #[trigger] zip_entry_accepted(b@, i),
        r is Ok ==> final(out).assets@.len() == old(out).assets@.len() + zip_files(b@, n as int, true)
            && final(out).ignored == old(out).ignored + zip_files(b@, n as int, false),
        r == Err::<(), Error>(Error::Invalid("ZIP expanded size mismatch")) ==> exists|i: int| #[trigger] size_mismatch(b@, i),
        final(out).assets@.take(old(out).assets@.len() as int) == old(out).assets@,
        final(budget).pixels <= MAX_TOTAL || r is Err,
{
    let ghost start = out.assets@;
    let ghost start_ignored = out.ignored;
    let mut seen: Vec<Vec<PathPart>> = Vec::new();
    proof {
        assert(start.take(start.len() as int) =~= start);
    }
    for i in 0..n
        invariant
            cancel.requires(()),
            start == old(out).assets@,
            seen@.map_values(|p: Vec<PathPart>| parts_view(p@)) == zip_seen(b@, i as int),
            forall|j: int| 0 <= j < i ==> #[trigger] zip_entry_accepted(b@, j),
            budget.pixels <= MAX_TOTAL,
            out.assets@.len() >= start.len(),
            out.assets@.take(start.len() as int) == start,
            start_ignored == old(out).ignored,
            out.assets@.len() == start.len() + zip_files(b@, i as int, true),
            out.ignored == start_ignored + zip_files(b@, i as int, false),
    {
        if cancel() {
            return Err(Error::Cancelled);
        }
        let ghost before = out.assets@;
        let step = unzip_entry(b, i, &mut seen, budget, out, cancel);
        proof {
            assert(out.assets@.take(start.len() as int) =~= before.take(start.len() as int));
        }
        match step {
            Ok(()) => {},
            Err(e) => {
                return Err(e);
            },
        }
        proof {
            assert(zip_files(b@, i + 1, true) == zip_files(b@, i as int, true) + match zip_meta(b@, i as int) {
                Ok(m) => if !m.4 && spec_is_cursor(spec_trim_slashes(m.0)) == true { 1nat } else { 0nat },
                Err(_) => 0nat,
            });
            assert(zip_files(b@, i + 1, false) == zip_files(b@, i as int, false) + match zip_meta(b@, i as int) {
                Ok(m) => if !m.4 && spec_is_cursor(spec_trim_slashes(m.0)) == false { 1nat } else { 0nat },
                Err(_) => 0nat,
            });
        }
    }
    Ok(())
}

/// Reads a ZIP package: the end record is checked (`zip_index`) before the
/// archive is opened; the archive must list exactly the entries the end
/// record counts; each entry is checked (`zip_entry`) and counted against
/// the budget; folders are skipped; each file's contents must have its
/// declared size and go through `ReadBudget::asset`.
#[verifier::rlimit(40)]
pub fn unzip<F: Fn() -> bool>(b: &[u8], budget: &mut ReadBudget, out: &mut Package, cancel: &F) -> (r: Result<(), Error>)
    requires
        cancel.requires(()),
        old(budget).pixels <= MAX_TOTAL,
    ensures
        spec_zip_index(b@) matches Err(e) ==> r == Err::<(), Error>(e),
        spec_zip_index(b@) matches Ok((_, n)) && zip_count(b@) matches Ok(c) && c != n as usize
            ==> r == Err::<(), Error>(Error::Invalid("duplicate ZIP names or central-directory count mismatch")),
        r is Ok ==> (spec_zip_index(b@) matches Ok((_, n)) && zip_count(b@) == Ok::<usize, Seq<char>>(n as usize)
            && (forall|i: int| 0 <= i < n ==> #[trigger] zip_entry_accepted(b@, i))
            && final(out).assets@.len() == old(out).assets@.len() + zip_files(b@, n as int, true)
            && final(out).ignored == old(out).ignored + zip_files(b@, n as int, false)),
        r == Err::<(), Error>(Error::Invalid("ZIP expanded size mismatch")) ==> exists|i: int|
            #[trigger] size_mismatch(b@, i),
        final(out).assets@.take(old(out).assets@.len() as int) == old(out).assets@,
        final(budget).pixels <= MAX_TOTAL || r is Err,
{
    proof {
        assert(out.assets@.take(out.assets@.len() as int) =~= out.assets@);
    }
    let entries = match zip_index(b) {
        Ok((_, c)) => c,
        Err(e) => {
            return Err(e);
        },
    };
    let n = match zip_entry_count(b) {
        Ok(n) => n,
        Err(m) => {
            return Err(Error::Io(m));
        },
    };
    if n != entries as usize {
        return Err(Error::Invalid("duplicate ZIP names or central-directory count mismatch"));
    }
    unzip_entries(b, n, budget, out, cancel)
}

} // verus!
