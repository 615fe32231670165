//! Classification of scanned themes: the roles each theme and its ancestors
//! name, the bounded checks of those role files, and the evidence and
//! issues that follow, and the lookup of one role file through a theme's
//! inheritance. The file system is read through `ThemeFiles`.
use crate::classification::{
    budget_roles, conclude, gather_step, order_roles, prefer_evidence, split_usable,
    theme_diagnostics, tidy_issues, tidy_roles, availability_kind, sorted_texts, spec_conclusion,
    spec_split, theme_usable, MAX_ISSUES, MAX_VISITS, PER_SCAN, PER_THEME, ROLE_BUDGET,
};
use crate::catalog::Catalog;
use crate::model::{always_cancels, Availability, Error, Preview, Resolution, Theme, ThemeName, Variant};
use crate::paths::{same_path, spec_components};
use crate::settings::strings_view;
use crate::text::{concat2, concat3, str_eq};
use vstd::prelude::*;
use vstd::string::StringExecFns;

verus! {

/// The file system as lookups and classification read it: whether a role
/// file exists, the decoded file, and a theme's declared parents. Every
/// decision about what to read next is the library's (`find`,
/// `classify`).
pub trait ThemeFiles {
    /// That `r` is an answer of these files to a load of `role` of `theme`
    /// under `root`: a relation for specifications, which lets callers say
    /// which file each of their results came from. Nothing more is known of
    /// it, and nothing calls it at run time.
    spec fn loaded(&self, root: &str, theme: &str, role: &str, r: &Result<(Vec<Variant>, String, Vec<String>), Error>) -> bool;

    /// Whether `root/theme/cursors/role` exists (a dangling link counts).
    fn has_cursor(&self, root: &str, theme: &str, role: &str) -> bool;

    /// Reads and decodes `root/theme/cursors/role`: its variants, the file
    /// it resolved to, and the links followed on the way.
    fn load_cursor<F: Fn() -> bool>(&self, root: &str, theme: &str, role: &str, cancel: &F) -> (r: Result<
        (Vec<Variant>, String, Vec<String>),
        Error,
    >)
        requires
            cancel.requires(()),
        ensures
            self.loaded(root, theme, role, &r),
    ;

    /// The parents that `root/theme/index.theme` names, when it can be read.
    fn index_parents(&self, root: &str, theme: &str) -> Option<Vec<ThemeName>>;
}

/// The parents of `name`: the first nonempty list the lookup roots' index
/// files name, in root order, or none.
pub fn first_parents<L: ThemeFiles>(files: &L, roots: &[String], name: &str) -> (r: Vec<ThemeName>) {
    for i in 0..roots.len() {
        match files.index_parents(roots[i].as_str(), name) {
            Some(ps) => {
                if ps.len() > 0 {
                    return ps;
                }
            },
            None => {},
        }
    }
    Vec::new()
}

/// That preview `p` is the file of `role` that some theme's directory under
/// some root gave: its variants and the file it resolved to.
pub open spec fn from_file<L: ThemeFiles>(files: &L, role: Seq<char>, p: Preview) -> bool {
    exists|root: &str, theme: &str, s: &str, x: Result<(Vec<Variant>, String, Vec<String>), Error>|
        #[trigger] files.loaded(root, theme, s, &x) && s@ == role && (x matches Ok(t) && t.0@ == p.variants@ && t.1@
            == p.source@)
}

/// What a lookup of `role` from `theme` finds: the role, a file
/// (`from_file`), and an inherited or direct resolution, direct only for
/// the theme itself at the top of the walk.
pub open spec fn found_in<L: ThemeFiles>(files: &L, theme: Seq<char>, role: Seq<char>, top: bool, p: Preview) -> bool {
    &&& p.role@ == role
    &&& from_file(files, role, p)
    &&& p.resolution is Direct || p.resolution is Inherited
    &&& p.resolution is Direct ==> top && p.requested@ == theme
}

/// Looks `role` up in theme `t` and, failing that, in its parents, depth
/// first, as `find_here` describes; `stack` holds the themes above `t`,
/// `visits` counts the themes entered by the walk.
pub fn find<L: ThemeFiles, F: Fn() -> bool>(
    files: &L,
    roots: &[String],
    t: &ThemeName,
    role: &str,
    stack: &mut Vec<String>,
    visits: &mut usize,
    cancel: &F,
) -> (r: Result<Preview, Error>)
    requires
        cancel.requires(()),
        *old(visits) <= MAX_VISITS,
    ensures
        *old(visits) <= *final(visits) <= MAX_VISITS,
        final(stack)@ == old(stack)@,
        r matches Ok(p) ==> found_in(files, t@, role@, old(stack)@.len() == 0, p),
    decreases 2 * (MAX_VISITS - *old(visits)) + 3,
{
    if cancel() {
        return Err(Error::Cancelled);
    }
    if *visits >= MAX_VISITS {
        return Err(Error::LimitExceeded("inheritance visits"));
    }
    *visits = *visits + 1;
    match crate::classification::enter(stack, *visits, t.as_str()) {
        Ok(()) => {},
        Err(e) => {
            return Err(e);
        },
    }
    let ghost above = stack@;
    stack.push(String::from_str(t.as_str()));
    let result = find_here(files, roots, t, role, stack, visits, cancel);
    stack.pop();
    proof {
        assert(stack@ =~= above);
    }
    result
}

/// The lookup inside theme `t`, whose name tops `stack`: in each root in
/// order, a role file of `t` is the answer (direct at the top of the walk,
/// else inherited, its chain the walk and the links followed); the first
/// nonempty parent list any root names is kept. Without a file, the parents
/// are searched in order: the first found file is the answer, cancellation
/// stops the search, and any error but `Missing` is remembered.
fn find_here<L: ThemeFiles, F: Fn() -> bool>(
    files: &L,
    roots: &[String],
    t: &ThemeName,
    role: &str,
    stack: &mut Vec<String>,
    visits: &mut usize,
    cancel: &F,
) -> (r: Result<Preview, Error>)
    requires
        cancel.requires(()),
        *old(visits) <= MAX_VISITS,
        old(stack)@.len() >= 1,
    ensures
        *old(visits) <= *final(visits) <= MAX_VISITS,
        final(stack)@ == old(stack)@,
        r matches Ok(p) ==> found_in(files, t@, role@, old(stack)@.len() == 1, p),
    decreases 2 * (MAX_VISITS - *old(visits)) + 4,
{
    let mut inherits: Option<Vec<ThemeName>> = None;
    for i in 0..roots.len()
        invariant
            cancel.requires(()),
            stack@ == old(stack)@,
            old(stack)@.len() >= 1,
            *visits == *old(visits),
            *old(visits) <= MAX_VISITS,
    {
        if cancel() {
            return Err(Error::Cancelled);
        }
        let root = roots[i].as_str();
        let tn = t.as_str();
        if files.has_cursor(root, tn, role) {
            let loaded = files.load_cursor(root, tn, role, cancel);
            let ghost x = loaded;
            let (variants, source, links) = match loaded {
                Ok(v) => v,
                Err(e) => {
                    return Err(e);
                },
            };
            if cancel() {
                return Err(Error::Cancelled);
            }
            let mut chain = crate::model::clone_strings(stack);
            let mut more = links;
            chain.append(&mut more);
            let resolution = if stack.len() > 1 {
                Resolution::Inherited
            } else {
                Resolution::Direct
            };
            let p = Preview {
                requested: t.clone(),
                role: String::from_str(role),
                source,
                chain,
                resolution,
                variants,
            };
            proof {
                assert(files.loaded(root, tn, role, &x) && (x matches Ok(tt) && tt.0@ == p.variants@ && tt.1@ == p.source@));
                assert(from_file(files, role@, p));
            }
            return Ok(p);
        }
        if inherits.is_none() {
            match files.index_parents(root, t.as_str()) {
                Some(ps) => {
                    if ps.len() > 0 {
                        inherits = Some(ps);
                    }
                },
                None => {},
            }
        }
    }
    let parents = match inherits {
        Some(ps) => ps,
        None => Vec::new(),
    };
    let mut error = Error::Missing;
    for k in 0..parents.len()
        invariant
            cancel.requires(()),
            stack@ == old(stack)@,
            old(stack)@.len() >= 1,
            *old(visits) <= *visits <= MAX_VISITS,
    {
        match find(files, roots, &parents[k], role, stack, visits, cancel) {
            Ok(p) => {
                return Ok(p);
            },
            Err(e) => {
                error = match crate::classification::parent_outcome(error, e) {
                    Ok(kept) => kept,
                    Err(c) => {
                        return Err(c);
                    },
                };
            },
        }
    }
    Err(error)
}

/// A preview of `role` in `theme` for the repository: the role name must be
/// a valid file name; the lookup in `theme` (`find`) comes first, and when
/// it finds no file and `theme` is not the default theme, the default
/// theme's file stands in, marked as the automatic fallback
/// (`first_lookup`, `fallback_lookup`); both lookups share one visit count.
pub fn preview_role<L: ThemeFiles, F: Fn() -> bool>(
    files: &L,
    roots: &[String],
    theme: &ThemeName,
    role: &str,
    cancel: &F,
) -> (r: Result<Preview, Error>)
    requires
        cancel.requires(()),
    ensures
        !crate::model::valid_theme_name(role@) ==> r == Err::<Preview, Error>(Error::Invalid("invalid theme/role name")),
        r matches Ok(p) ==> p.requested@ == theme@ && p.role@ == role@ && from_file(files, role@, p),
        r matches Ok(p) ==> (p.resolution is Direct || p.resolution is Inherited || (p.resolution is Fallback && theme@ != "default"@)),
{
    match ThemeName::new(role) {
        Ok(_) => {},
        Err(e) => {
            return Err(e);
        },
    }
    let mut visits: usize = 0;
    let mut stack: Vec<String> = Vec::new();
    let found = find(files, roots, theme, role, &mut stack, &mut visits, cancel);
    match first_lookup(theme, found) {
        Err(e) => Err(e),
        Ok(Some(p)) => Ok(p),
        Ok(None) => {
            let default = match ThemeName::new("default") {
                Ok(d) => d,
                Err(e) => {
                    return Err(e);
                },
            };
            let mut stack: Vec<String> = Vec::new();
            let fallback = find(files, roots, &default, role, &mut stack, &mut visits, cancel);
            fallback_lookup(theme, fallback)
        },
    }
}

/// A hexadecimal digit, lower case.
pub open spec fn hex_digit(d: int) -> char {
    if d < 10 {
        (48 + d) as char
    } else {
        (87 + d) as char
    }
}

/// How a character is written inside quotes: quote, backslash, NUL, tab,
/// carriage return and line feed as their escapes, the other ASCII control
/// characters as `\u{..}` in hexadecimal, and any other character as
/// itself.
pub open spec fn spec_escape_char(c: char) -> Seq<char> {
    let n = c as u32;
    if c == '"' {
        seq!['\\', '"']
    } else if c == '\\' {
        seq!['\\', '\\']
    } else if n == 0 {
        seq!['\\', '0']
    } else if c == '\t' {
        seq!['\\', 't']
    } else if c == '\r' {
        seq!['\\', 'r']
    } else if c == '\n' {
        seq!['\\', 'n']
    } else if n < 16 {
        seq!['\\', 'u', '{', hex_digit(n as int), '}']
    } else if n < 32 || n == 127 {
        seq!['\\', 'u', '{', hex_digit(n as int / 16), hex_digit(n as int % 16), '}']
    } else {
        seq![c]
    }
}

/// A text with each character written as `spec_escape_char` says.
pub open spec fn spec_escape(s: Seq<char>) -> Seq<char>
    decreases s.len(),
{
    if s.len() == 0 {
        seq![]
    } else {
        spec_escape(s.drop_last()) + spec_escape_char(s.last())
    }
}

fn hex(d: u32) -> (r: char)
    requires
        d < 16,
    ensures
        r == hex_digit(d as int),
{
    if d < 10 {
        char_of(48 + d)
    } else {
        char_of(87 + d)
    }
}

fn char_of(n: u32) -> (r: char)
    requires
        48 <= n < 58 || 97 <= n < 103,
    ensures
        r == n as char,
{
    let digits: [char; 16] = ['0', '1', '2', '3', '4', '5', '6', '7', '8', '9', 'a', 'b', 'c', 'd', 'e', 'f'];
    let k: usize = if n < 58 {
        (n - 48) as usize
    } else {
        (n - 87) as usize
    };
    let c = digits[k];
    assert(c == n as char) by {
        assert(digits@[k as int] == c);
    }
    c
}

fn escape(s: &str) -> (r: String)
    ensures
        r@ == spec_escape(s@),
{
    let cs = crate::text::chars_of(s);
    let mut out: Vec<char> = Vec::new();
    for i in 0..cs.len()
        invariant
            cs@ == s@,
            out@ == spec_escape(s@.take(i as int)),
    {
        let c = cs[i];
        let n = c as u32;
        proof {
            assert(s@.take(i + 1).drop_last() =~= s@.take(i as int));
            assert(s@.take(i + 1).last() == c);
        }
        let ghost before = out@;
        if c == '"' {
            out.push('\\');
            out.push('"');
        } else if c == '\\' {
            out.push('\\');
            out.push('\\');
        } else if n == 0 {
            out.push('\\');
            out.push('0');
        } else if c == '\t' {
            out.push('\\');
            out.push('t');
        } else if c == '\r' {
            out.push('\\');
            out.push('r');
        } else if c == '\n' {
            out.push('\\');
            out.push('n');
        } else if n < 16 {
            out.push('\\');
            out.push('u');
            out.push('{');
            out.push(hex(n));
            out.push('}');
        } else if n < 32 || n == 127 {
            out.push('\\');
            out.push('u');
            out.push('{');
            out.push(hex(n / 16));
            out.push(hex(n % 16));
            out.push('}');
        } else {
            out.push(c);
        }
        assert(out@ =~= before + spec_escape_char(c));
    }
    assert(s@.take(cs@.len() as int) =~= s@);
    crate::text::string_from_chars(&out)
}

/// An error as text, as its `Debug` form writes it: its variant, and its
/// message in quotes (see `spec_escape`).
pub open spec fn spec_error_text(e: Error) -> Seq<char> {
    match e {
        Error::Invalid(m) => "Invalid(\""@ + spec_escape(m@) + "\")"@,
        Error::Unsupported(m) => "Unsupported(\""@ + spec_escape(m@) + "\")"@,
        Error::LimitExceeded(m) => "LimitExceeded(\""@ + spec_escape(m@) + "\")"@,
        Error::Missing => "Missing"@,
        Error::Cancelled => "Cancelled"@,
        Error::Io(s) => "Io(\""@ + spec_escape(s@) + "\")"@,
    }
}

fn quoted(open: &str, m: &str) -> (r: String)
    ensures
        r@ == open@ + spec_escape(m@) + "\")"@,
{
    let e = escape(m);
    concat3(open, e.as_str(), "\")")
}

/// Writes `e` as `spec_error_text` describes.
pub fn error_text(e: &Error) -> (r: String)
    ensures
        r@ == spec_error_text(*e),
{
    match e {
        Error::Invalid(m) => quoted("Invalid(\"", m),
        Error::Unsupported(m) => quoted("Unsupported(\"", m),
        Error::LimitExceeded(m) => quoted("LimitExceeded(\"", m),
        Error::Missing => String::from_str("Missing"),
        Error::Cancelled => String::from_str("Cancelled"),
        Error::Io(s) => quoted("Io(\"", s.as_str()),
    }
}

/// The directory `name` under `root` (`root.join(name)`).
pub open spec fn spec_joined(root: Seq<char>, name: Seq<char>) -> Seq<char> {
    if root.len() == 0 {
        name
    } else {
        root + "/"@ + name
    }
}

fn joined(root: &str, name: &str) -> (r: String)
    ensures
        r@ == spec_joined(root@, name@),
{
    if crate::text::chars_of(root).len() == 0 {
        String::from_str(name)
    } else {
        concat3(root, "/", name)
    }
}

/// Whether none of a theme's locations is its directory under one of the
/// lookup roots.
pub open spec fn spec_outside(t: Theme, roots: Seq<Seq<char>>) -> bool {
    !exists|i: int, j: int|
        0 <= i < t.locations@.len() && 0 <= j < roots.len() && #[trigger] spec_components(
            t.locations@[i].directory@,
        ) == #[trigger] spec_components(spec_joined(roots[j], t.name@))
}

fn outside_paths(t: &Theme, roots: &[String]) -> (r: bool)
    ensures
        r == spec_outside(*t, strings_view(roots@)),
{
    let ghost rv = strings_view(roots@);
    for i in 0..t.locations.len()
        invariant
            rv == strings_view(roots@),
            forall|a: int, b: int|
                0 <= a < i && 0 <= b < rv.len() ==> spec_components(t.locations@[a].directory@)
                    != spec_components(spec_joined(rv[b], t.name@)),
    {
        for j in 0..roots.len()
            invariant
                rv == strings_view(roots@),
                i < t.locations@.len(),
                forall|a: int, b: int|
                    0 <= a < i && 0 <= b < rv.len() ==> spec_components(t.locations@[a].directory@)
                        != spec_components(spec_joined(rv[b], t.name@)),
                forall|b: int|
                    0 <= b < j ==> spec_components(t.locations@[i as int].directory@)
                        != spec_components(spec_joined(rv[b], t.name@)),
        {
            let dir = joined(roots[j].as_str(), t.name.as_str());
            if same_path(t.locations[i].directory.as_str(), dir.as_str()) {
                assert(rv[j as int] == roots@[j as int]@);
                return false;
            }
        }
    }
    true
}

/// Gathers into `roles` (each name once) the role names of `name` and of
/// its ancestors, noting cycles and unknown parents in `issues`. Errors end
/// the walk: cancellation, the walk's bounds, too many role names.
fn collect_roles<L: ThemeFiles, F: Fn() -> bool>(
    files: &L,
    roots: &[String],
    name: &str,
    records: &Vec<Theme>,
    roles: &mut Vec<String>,
    stack: &mut Vec<String>,
    visits: &mut usize,
    issues: &mut Vec<String>,
    cancel: &F,
) -> (r: Result<(), Error>)
    requires
        cancel.requires(()),
        *old(visits) <= MAX_VISITS,
    ensures
        *final(visits) >= *old(visits),
        r is Ok ==> *final(visits) <= MAX_VISITS,
    decreases MAX_VISITS - *old(visits),
{
    if cancel() {
        return Err(Error::Cancelled);
    }
    *visits = *visits + 1;
    let mut record: Option<usize> = None;
    for i in 0..records.len()
        invariant
            record matches Some(k) ==> k < records@.len(),
    {
        if record.is_none() && str_eq(records[i].name.as_str(), name) {
            record = Some(i);
        }
    }
    match gather_step(stack, *visits, name, record.is_some()) {
        Err(e) => {
            return Err(e);
        },
        Ok(Some(note)) => {
            issues.push(note);
            return Ok(());
        },
        Ok(None) => {},
    }
    let k = match record {
        Some(k) => k,
        None => {
            return Ok(());
        },
    };
    let own = &records[k].roles;
    let n = if own.len() < 8192 {
        own.len()
    } else {
        8192
    };
    for i in 0..n
        invariant
            n <= own@.len(),
    {
        if !crate::browser::contains_role(roles.as_slice(), own[i].as_str()) {
            roles.push(String::from_str(own[i].as_str()));
        }
    }
    if roles.len() > 8192 {
        return Err(Error::LimitExceeded("inherited role names"));
    }
    stack.push(String::from_str(name));
    let parents = first_parents(files, roots, name);
    let ghost start = *visits;
    for p in 0..parents.len()
        invariant
            cancel.requires(()),
            *old(visits) < start <= *visits <= MAX_VISITS,
    {
        collect_roles(files, roots, parents[p].as_str(), records, roles, stack, visits, issues, cancel)?;
    }
    stack.pop();
    Ok(())
}

/// The role files that classification found for `d`, the classified form
/// of `t`: those it added to the verified list.
pub open spec fn checked_roles(t: Theme, d: Theme) -> Seq<Seq<char>> {
    strings_view(d.verified_roles@).skip(t.verified_roles@.len() as int)
}

/// That availability `a` is the evidence preview `p` gives: direct with its
/// file, or inherited with its file and chain.
pub open spec fn evidence_from(a: Availability, p: Preview) -> bool {
    match a {
        Availability::Direct { source, .. } => p.resolution is Direct && source@ == p.source@,
        Availability::Inherited { source, chain, .. } => !(p.resolution is Direct) && source@ == p.source@ && chain@
            == p.chain@,
        _ => false,
    }
}

/// The role whose file is an availability's evidence.
pub open spec fn evidence_role(a: Availability) -> Seq<char> {
    match a {
        Availability::Direct { role, .. } => role@,
        Availability::Inherited { role, .. } => role@,
        _ => seq![],
    }
}

/// Issues as a theme keeps them: sorted by text, each once, at most
/// `MAX_ISSUES`.
pub open spec fn tidy_issue_list(v: Seq<Seq<char>>) -> bool {
    sorted_texts(false, v) && v.no_duplicates() && v.len() <= MAX_ISSUES
}

/// What classification makes of the scanned theme `t`: the same theme with
/// its role names sorted and each once, its old ones kept; tidy issues; at
/// most `PER_THEME` role files added to its verified list, each one of its
/// role names; usable evidence exactly when one was added, naming one of
/// them; otherwise the conclusion for a theme without evidence.
pub open spec fn classified<L: ThemeFiles>(files: &L, t: Theme, d: Theme, roots: Seq<Seq<char>>) -> bool {
    let checked = checked_roles(t, d);
    &&& d.name == t.name && d.display == t.display && d.locations == t.locations
    &&& sorted_texts(false, strings_view(d.roles@)) && strings_view(d.roles@).no_duplicates()
    &&& forall|x: Seq<char>| #[trigger] strings_view(t.roles@).contains(x) ==> strings_view(d.roles@).contains(x)
    &&& tidy_issue_list(strings_view(d.issues@))
    &&& d.verified_roles@.len() >= t.verified_roles@.len()
    &&& strings_view(d.verified_roles@).take(t.verified_roles@.len() as int) == strings_view(t.verified_roles@)
    &&& checked.len() <= PER_THEME
    &&& forall|k: int| 0 <= k < checked.len() ==> strings_view(d.roles@).contains(#[trigger] checked[k])
    &&& theme_usable(d) <==> checked.len() > 0
    &&& theme_usable(d) ==> checked.contains(evidence_role(d.availability))
    &&& theme_usable(d) ==> exists|p: Preview| #[trigger] found_in(files, t.name@, evidence_role(d.availability), true, p)
        && evidence_from(d.availability, p)
    &&& !theme_usable(d) ==> (availability_kind(d.availability) == spec_conclusion(spec_outside(d, roots), true, strings_view(d.issues@))
        || availability_kind(d.availability) == spec_conclusion(spec_outside(d, roots), false, strings_view(d.issues@)))
}

/// The role files checked over a whole scan.
pub open spec fn checked_total(ts: Seq<Theme>, ds: Seq<Theme>) -> nat
    decreases ds.len(),
{
    if ds.len() == 0 || ts.len() == 0 {
        0
    } else {
        checked_total(ts.drop_last(), ds.drop_last()) + checked_roles(ts.last(), ds.last()).len()
    }
}

proof fn lemma_tidy_take(all: Seq<Seq<char>>, n: int)
    requires
        sorted_texts(false, all),
        all.no_duplicates(),
        0 <= n <= all.len(),
    ensures
        sorted_texts(false, all.take(n)),
        all.take(n).no_duplicates(),
{
    let t = all.take(n);
    assert forall|i: int| 0 <= i && i + 1 < t.len() implies #[trigger] crate::classification::text_lt(false, t[i], t[i + 1]) by {
        assert(crate::classification::text_lt(false, all[i], all[i + 1]));
    }
    assert forall|i: int, j: int| 0 <= i < t.len() && 0 <= j < t.len() && i != j implies t[i] != t[j] by {
        assert(all[i] != all[j]);
    }
}

/// Classifies scanned themes, in their order. For each theme: gather the
/// role names of it and its ancestors (walk errors other than cancellation
/// become issues), order them, and within the scan's role budget check at
/// most `PER_THEME` of their files, at most `PER_SCAN` over the scan; keep
/// the best verified file as evidence; tidy roles and issues; conclude the
/// availability. Then separate usable themes from candidates, each in
/// order, and add each theme's diagnostics after `diagnostics`.
pub fn classify<L: ThemeFiles, F: Fn() -> bool>(
    files: &L,
    themes: Vec<Theme>,
    diagnostics: Vec<String>,
    resolution: &[String],
    cancel: &F,
) -> (r: Result<Catalog, Error>)
    requires
        cancel.requires(()),
    ensures
        r matches Err(e) ==> e == Error::Cancelled,
        always_cancels(cancel) && themes@.len() > 0 ==> r is Err,
        themes@.len() == 0 ==> (r matches Ok(c) && c.themes@.len() == 0 && c.candidates@.len() == 0 && c.diagnostics@
            == diagnostics@),
        r matches Ok(c) ==> exists|done: Seq<Theme>|
            #![trigger spec_split(done)]
            done.len() == themes@.len()
            && (forall|i: int| 0 <= i < done.len() ==> classified(files, themes@[i], #[trigger] done[i], strings_view(resolution@)))
            && checked_total(themes@, done) <= PER_SCAN
            && (c.themes@, c.candidates@) == spec_split(done)
            && c.diagnostics@.len() >= diagnostics@.len()
            && c.diagnostics@.take(diagnostics@.len() as int) == diagnostics@,
{
    if themes.len() == 0 {
        let c = Catalog { themes: Vec::new(), candidates: Vec::new(), diagnostics };
        proof {
            let done: Seq<Theme> = seq![];
            assert(spec_split(done) == (c.themes@, c.candidates@));
            assert(c.diagnostics@.take(diagnostics@.len() as int) =~= diagnostics@);
            assert(checked_total(themes@, done) == 0);
        }
        return Ok(c);
    }
    let ghost all = themes@;
    let mut role_sets: Vec<(Vec<String>, Vec<String>, bool)> = Vec::new();
    let mut role_budget: usize = ROLE_BUDGET;
    for i in 0..themes.len()
        invariant
            cancel.requires(()),
            always_cancels(cancel) ==> i == 0,
            role_sets@.len() == i,
            role_budget <= ROLE_BUDGET,
    {
        if cancel() {
            return Err(Error::Cancelled);
        }
        if role_budget == 0 {
            role_sets.push((Vec::new(), Vec::new(), true));
        } else {
            let theme = &themes[i];
            let mut roles: Vec<String> = Vec::new();
            let mut issues: Vec<String> = Vec::new();
            match &theme.availability {
                Availability::Invalid(e) => {
                    issues.push(String::from_str(e.as_str()));
                },
                _ => {},
            }
            let mut visits: usize = 0;
            let mut stack: Vec<String> = Vec::new();
            let traversal = collect_roles(
                files,
                resolution,
                theme.name.as_str(),
                &themes,
                &mut roles,
                &mut stack,
                &mut visits,
                &mut issues,
                cancel,
            );
            let traversal_limited = match traversal {
                Ok(()) => false,
                Err(Error::Cancelled) => {
                    return Err(Error::Cancelled);
                },
                Err(e) => {
                    issues.push(error_text(&e));
                    true
                },
            };
            let ordered = order_roles(&roles);
            let (ordered, limited) = budget_roles(ordered, role_budget, traversal_limited);
            role_budget = role_budget - ordered.len();
            role_sets.push((ordered, tidy_issues(&issues), limited));
        }
    }
    let ghost roots = strings_view(resolution@);
    let n = themes.len();
    let mut rest = themes;
    let mut sets = role_sets;
    let mut done: Vec<Theme> = Vec::new();
    let mut diagnostics = diagnostics;
    let ghost given = diagnostics@;
    let mut attempts: usize = 0;
    let mut k: usize = 0;
    proof {
        assert(all.skip(0) =~= all);
    }
    while rest.len() > 0
        invariant
            cancel.requires(()),
            n == all.len(),
            all.len() > 0,
            themes@.len() > 0,
            k <= n,
            rest@ == all.skip(k as int),
            sets@.len() == rest@.len(),
            done@.len() == k,
            roots == strings_view(resolution@),
            forall|i: int| 0 <= i < k ==> classified(files, all[i], #[trigger] done@[i], roots),
            checked_total(all.take(k as int), done@) <= attempts <= PER_SCAN,
            diagnostics@.len() >= given.len(),
            diagnostics@.take(given.len() as int) == given,
        decreases rest@.len(),
    {
        let mut theme = rest.remove(0);
        let (roles, mut issues, mut limited) = sets.remove(0);
        proof {
            assert(all[k as int] == theme);
            assert(rest@ =~= all.skip(k + 1));
        }
        let ghost t0 = theme;
        let ghost base = strings_view(theme.verified_roles@);
        let ghost total0 = checked_total(all.take(k as int), done@);
        let mut evidence: Option<Availability> = None;
        let cap = if roles.len() < PER_THEME {
            roles.len()
        } else {
            PER_THEME
        };
        let mut idx: usize = 0;
        let mut go = true;
        while go && idx < cap
            invariant
                cancel.requires(()),
                all.len() > 0,
                themes@.len() > 0,
                cap <= roles@.len(),
                cap <= PER_THEME,
                idx <= cap,
                theme.name == t0.name && theme.display == t0.display && theme.locations == t0.locations,
                theme.roles == t0.roles,
                strings_view(theme.verified_roles@).take(base.len() as int) == base,
                theme.verified_roles@.len() >= base.len(),
                theme.verified_roles@.len() - base.len() <= idx,
                forall|q: int| base.len() <= q < theme.verified_roles@.len() ==> strings_view(roles@).contains(
                    #[trigger] strings_view(theme.verified_roles@)[q]),
                evidence is None <==> theme.verified_roles@.len() == base.len(),
                evidence matches Some(a) ==> (a is Direct || a is Inherited)
                    && strings_view(theme.verified_roles@).skip(base.len() as int).contains(evidence_role(a))
                    && exists|p: Preview| #[trigger] found_in(files, t0.name@, evidence_role(a), true, p) && evidence_from(a, p),
                total0 + (theme.verified_roles@.len() - base.len()) <= attempts <= PER_SCAN,
            decreases cap - idx + (if go { 1int } else { 0int }),
        {
            if cancel() {
                return Err(Error::Cancelled);
            }
            if attempts >= PER_SCAN {
                limited = true;
                go = false;
            } else {
                attempts = attempts + 1;
                let role = roles[idx].as_str();
                let mut visits: usize = 0;
                let mut walk: Vec<String> = Vec::new();
                match find(files, resolution, &theme.name, role, &mut walk, &mut visits, cancel) {
                    Ok(p) => {
                        let ghost found = p;
                        let ghost before = strings_view(theme.verified_roles@);
                        theme.verified_roles.push(String::from_str(role));
                        let next = match p.resolution {
                            Resolution::Direct => Availability::Direct { role: String::from_str(role), source: p.source },
                            _ => Availability::Inherited { role: String::from_str(role), source: p.source, chain: p.chain },
                        };
                        proof {
                            let after = strings_view(theme.verified_roles@);
                            assert(after =~= before.push(role@));
                            assert(after.take(base.len() as int) =~= before.take(base.len() as int));
                            assert(after.skip(base.len() as int) =~= before.skip(base.len() as int).push(role@));
                            assert(strings_view(roles@)[idx as int] == role@);
                            assert(after.skip(base.len() as int)[after.len() - 1 - base.len()] == role@);
                            if evidence is Some {
                                let a = evidence->0;
                                let q = choose|q: int| 0 <= q < before.skip(base.len() as int).len() && before.skip(base.len() as int)[q] == evidence_role(a);
                                assert(after.skip(base.len() as int)[q] == evidence_role(a));
                            }
                            assert(evidence_role(next) == role@);
                            assert(found_in(files, t0.name@, evidence_role(next), true, found) && evidence_from(next, found));
                        }
                        evidence = prefer_evidence(evidence, next);
                    },
                    Err(Error::Cancelled) => {
                        return Err(Error::Cancelled);
                    },
                    Err(Error::Missing) => {},
                    Err(e) => {
                        let text = error_text(&e);
                        issues.push(concat3(role, ": ", text.as_str()));
                    },
                }
                idx = idx + 1;
            }
        }
        if roles.len() > PER_THEME {
            limited = true;
        }
        let ghost vr = theme.verified_roles;
        let ghost old_roles = strings_view(theme.roles@);
        let ghost ordered = strings_view(roles@);
        let mut extra = roles;
        theme.roles.append(&mut extra);
        proof {
            assert(strings_view(theme.roles@) =~= old_roles + ordered);
        }
        let mut theme = tidy_roles(theme);
        if limited {
            issues.push(String::from_str("Verification budget reached; remaining roles were not checked"));
        }
        let issues = tidy_issues(&issues);
        proof {
            let alli = choose|alli: Seq<Seq<char>>| #![trigger sorted_texts(false, alli)]
                sorted_texts(false, alli) && alli.no_duplicates()
                && strings_view(issues@) == alli.take(if alli.len() <= MAX_ISSUES { alli.len() as int } else { MAX_ISSUES as int });
            lemma_tidy_take(alli, if alli.len() <= MAX_ISSUES { alli.len() as int } else { MAX_ISSUES as int });
        }
        let outside = outside_paths(&theme, resolution);
        let ghost probed = theme;
        let availability = conclude(evidence, outside, limited, &issues);
        let mut notes = theme_diagnostics(theme.name.as_str(), &availability, &issues);
        theme.availability = availability;
        theme.issues = issues;
        let ghost before_diag = diagnostics@;
        diagnostics.append(&mut notes);
        proof {
            assert(diagnostics@.take(given.len() as int) =~= before_diag.take(given.len() as int));
            let d = theme;
            let checked = checked_roles(t0, d);
            assert(checked =~= strings_view(vr@).skip(base.len() as int));
            assert forall|q: int| 0 <= q < checked.len() implies strings_view(d.roles@).contains(#[trigger] checked[q]) by {
                assert(strings_view(vr@)[q + base.len()] == checked[q]);
                assert(ordered.contains(checked[q]));
                let w = choose|w: int| 0 <= w < ordered.len() && ordered[w] == checked[q];
                assert((old_roles + ordered)[old_roles.len() + w] == checked[q]);
            }
            assert forall|x: Seq<char>| #[trigger] strings_view(t0.roles@).contains(x) implies strings_view(d.roles@).contains(x) by {
                let w = choose|w: int| 0 <= w < old_roles.len() && old_roles[w] == x;
                assert((old_roles + ordered)[w] == x);
            }
            assert(d.name == probed.name && d.locations == probed.locations);
            assert(spec_outside(d, roots) == spec_outside(probed, roots));
            assert(spec_outside(d, roots) == outside);
            assert(classified(files, t0, d, roots));
        }
        let ghost done_before = done@;
        done.push(theme);
        proof {
            assert(all.take(k + 1).drop_last() =~= all.take(k as int));
            assert(done@.drop_last() =~= done_before);
            assert(all.take(k + 1).last() == t0);
            assert forall|i: int| 0 <= i < k + 1 implies classified(files, all[i], #[trigger] done@[i], roots) by {
                if i < k {
                    assert(done@[i] == done_before[i]);
                }
            }
        }
        k = k + 1;
    }
    proof {
        assert(all.take(k as int) =~= all);
    }
    let (usable, candidates) = split_usable(done);
    Ok(Catalog { themes: usable, candidates, diagnostics })
}

/// The outcome of a preview's lookup in the theme itself: its file, as
/// requested of `theme`; for a missing file outside the default theme,
/// `Ok(None)`: the default theme's file is looked up in its place; any other
/// error stands.
pub fn first_lookup(theme: &ThemeName, found: Result<Preview, Error>) -> (r: Result<Option<Preview>, Error>)
    ensures
        match found {
            Ok(p) => r matches Ok(Some(q)) && q == (Preview { requested: q.requested, ..p }) && q.requested@ == theme@,
            Err(e) => if e == Error::Missing && theme@ != "default"@ {
                r matches Ok(None)
            } else {
                r == Err::<Option<Preview>, Error>(e)
            },
        },
{
    match found {
        Ok(p) => {
            let mut q = p;
            q.requested = theme.clone();
            Ok(Some(q))
        },
        Err(Error::Missing) => {
            if str_eq(theme.as_str(), "default") {
                proof {
                    reveal_strlit("default");
                }
                Err(Error::Missing)
            } else {
                Ok(None)
            }
        },
        Err(e) => Err(e),
    }
}

/// The default theme's file standing in for a missing one: marked as the
/// automatic fallback and recorded as requested of `theme`; its error
/// stands.
pub fn fallback_lookup(theme: &ThemeName, found: Result<Preview, Error>) -> (r: Result<Preview, Error>)
    ensures
        match found {
            Ok(p) => r matches Ok(q) && q == (Preview { requested: q.requested, resolution: Resolution::Fallback, ..p })
                && q.requested@ == theme@,
            Err(e) => r == Err::<Preview, Error>(e),
        },
{
    match found {
        Ok(p) => {
            let mut q = p;
            q.resolution = Resolution::Fallback;
            q.requested = theme.clone();
            Ok(q)
        },
        Err(e) => Err(e),
    }
}

} // verus!
