//! The decisions of theme classification: which role files of a theme are
//! checked and in what order, which verified file is the theme's evidence,
//! what a theme without evidence is reported as, and how inheritance walks
//! are bounded. The file system walk that feeds them lives with the caller.
use crate::browser::spec_present;
use crate::model::{Availability, Error, Location, Theme, ThemeName};
use crate::paths::{chars_less, chars_lt, lemma_chars_total};
use crate::settings::strings_view;
use crate::text::{chars_of, concat2, concat3, spec_lowercase, str_eq, to_lowercase};
use vstd::prelude::*;
use vstd::string::StringExecFns;

verus! {

/// Role files checked per theme.
pub const PER_THEME: usize = 64;

/// Role checks per scan.
pub const PER_SCAN: usize = 2048;

/// Role names gathered per scan.
pub const ROLE_BUDGET: usize = 65536;

/// Issues kept per theme.
pub const MAX_ISSUES: usize = 64;

/// Themes entered by one inheritance walk.
pub const MAX_VISITS: usize = 4096;

/// Depth of an inheritance walk.
pub const MAX_DEPTH: usize = 32;

/// The customary role files, checked first and in this order.
pub open spec fn spec_priority() -> Seq<Seq<char>> {
    seq![
        "left_ptr"@, "default"@, "pointer"@, "hand2"@, "text"@, "xterm"@, "watch"@, "wait"@,
        "sb_h_double_arrow"@, "sb_v_double_arrow"@, "ew-resize"@, "ns-resize"@, "nwse-resize"@,
        "nesw-resize"@, "h_double_arrow"@, "v_double_arrow"@, "fleur"@, "move"@, "not-allowed"@,
        "crossed_circle"@
    ]
}

fn priority() -> (r: Vec<&'static str>)
    ensures
        crate::browser::strs_view(r@) == spec_priority(),
{
    let r = vec![
        "left_ptr", "default", "pointer", "hand2", "text", "xterm", "watch", "wait",
        "sb_h_double_arrow", "sb_v_double_arrow", "ew-resize", "ns-resize", "nwse-resize",
        "nesw-resize", "h_double_arrow", "v_double_arrow", "fleur", "move", "not-allowed",
        "crossed_circle",
    ];
    assert(crate::browser::strs_view(r@) =~= spec_priority());
    r
}

/// The order of the other role files: names without a dot first, then by text.
pub open spec fn role_key_lt(a: Seq<char>, b: Seq<char>) -> bool {
    (!a.contains('.') && b.contains('.')) || (a.contains('.') == b.contains('.') && chars_lt(a, b))
}

/// The order used by `by_key`: the role order, or plain text order.
pub open spec fn text_lt(by_key: bool, a: Seq<char>, b: Seq<char>) -> bool {
    if by_key {
        role_key_lt(a, b)
    } else {
        chars_lt(a, b)
    }
}

/// Texts in strictly increasing order.
pub open spec fn sorted_texts(by_key: bool, v: Seq<Seq<char>>) -> bool {
    forall|i: int| 0 <= i && i + 1 < v.len() ==> #[trigger] text_lt(by_key, v[i], v[i + 1])
}

proof fn lemma_text_total(by_key: bool, a: Seq<char>, b: Seq<char>)
    ensures
        text_lt(by_key, a, b) || text_lt(by_key, b, a) || a == b,
{
    lemma_chars_total(a, b);
}

fn has_dot(s: &str) -> (r: bool)
    ensures
        r == s@.contains('.'),
{
    let cs = chars_of(s);
    for i in 0..cs.len()
        invariant
            cs@ == s@,
            forall|j: int| 0 <= j < i ==> cs@[j] != '.',
    {
        if cs[i] == '.' {
            assert(s@[i as int] == '.');
            return true;
        }
    }
    false
}

fn text_less(by_key: bool, a: &str, b: &str) -> (r: bool)
    ensures
        r == text_lt(by_key, a@, b@),
{
    let plain = chars_less(&chars_of(a), &chars_of(b));
    if by_key {
        let da = has_dot(a);
        let db = has_dot(b);
        (!da && db) || (da == db && plain)
    } else {
        plain
    }
}

/// Adds `s` to a strictly increasing list unless it is there already.
fn insert_text(by_key: bool, v: &mut Vec<String>, s: String)
    requires
        sorted_texts(by_key, strings_view(old(v)@)),
        strings_view(old(v)@).no_duplicates(),
    ensures
        sorted_texts(by_key, strings_view(final(v)@)),
        strings_view(final(v)@).no_duplicates(),
        forall|x: Seq<char>| #[trigger] strings_view(final(v)@).contains(x) <==> (strings_view(old(v)@).contains(x) || x == s@),
{
    let ghost old_list = strings_view(v@);
    for i in 0..v.len()
        invariant
            old_list == strings_view(v@),
            sorted_texts(by_key, old_list),
            old_list.no_duplicates(),
            forall|j: int| 0 <= j < i ==> old_list[j] != s@,
    {
        if str_eq(v[i].as_str(), s.as_str()) {
            assert(old_list[i as int] == s@);
            return;
        }
    }
    assert(!old_list.contains(s@));
    let mut k: usize = 0;
    while k < v.len() && text_less(by_key, v[k].as_str(), s.as_str())
        invariant
            old_list == strings_view(v@),
            sorted_texts(by_key, old_list),
            old_list.no_duplicates(),
            !old_list.contains(s@),
            k <= v@.len(),
            forall|j: int| 0 <= j < k ==> text_lt(by_key, #[trigger] old_list[j], s@),
        decreases v@.len() - k,
    {
        k = k + 1;
    }
    proof {
        if k < old_list.len() {
            lemma_text_total(by_key, old_list[k as int], s@);
            assert(old_list[k as int] != s@);
        }
    }
    assert(k < old_list.len() ==> text_lt(by_key, s@, old_list[k as int]));
    let ghost sv = s@;
    v.insert(k, s);
    let ghost nl = strings_view(v@);
    assert(nl =~= old_list.insert(k as int, sv));
    assert forall|i: int| 0 <= i && i + 1 < nl.len() implies #[trigger] text_lt(by_key, nl[i], nl[i + 1]) by {
        if i + 1 < k {
            assert(nl[i] == old_list[i]);
            assert(nl[i + 1] == old_list[i + 1]);
            assert(text_lt(by_key, old_list[i], old_list[i + 1]));
        } else if i + 1 == k {
            assert(nl[i] == old_list[i]);
            assert(text_lt(by_key, old_list[i], sv));
        } else if i == k {
            assert(nl[i + 1] == old_list[i]);
        } else {
            let j = i - 1;
            assert(text_lt(by_key, old_list[j], old_list[j + 1]));
            assert(j + 1 == i);
        }
    }
    assert forall|a: int, b: int| 0 <= a < nl.len() && 0 <= b < nl.len() && a != b implies nl[a] != nl[b] by {
        if a == k || b == k {
            if a != k {
                let oa = if a < k { a } else { a - 1 };
                assert(nl[a] == old_list[oa]);
            }
            if b != k {
                let ob = if b < k { b } else { b - 1 };
                assert(nl[b] == old_list[ob]);
            }
        } else {
            let oa = if a < k { a } else { a - 1 };
            let ob = if b < k { b } else { b - 1 };
            assert(nl[a] == old_list[oa]);
            assert(nl[b] == old_list[ob]);
        }
    }
    assert forall|x: Seq<char>| #[trigger] nl.contains(x) <==> (old_list.contains(x) || x == sv) by {
        if nl.contains(x) {
            let j = choose|j: int| 0 <= j < nl.len() && nl[j] == x;
            if j < k {
                assert(old_list[j] == x);
            } else if j > k {
                assert(old_list[j - 1] == x);
            }
        }
        if old_list.contains(x) {
            let j = choose|j: int| 0 <= j < old_list.len() && old_list[j] == x;
            if j < k {
                assert(nl[j] == x);
            } else {
                assert(nl[j + 1] == x);
            }
        }
        if x == sv {
            assert(nl[k as int] == x);
        }
    }
}

/// `names` sorted (by the role order, or by text) with repeats removed.
fn sorted_unique(by_key: bool, names: &Vec<String>) -> (r: Vec<String>)
    ensures
        sorted_texts(by_key, strings_view(r@)),
        strings_view(r@).no_duplicates(),
        forall|x: Seq<char>| #[trigger] strings_view(r@).contains(x) <==> strings_view(names@).contains(x),
{
    let mut out: Vec<String> = Vec::new();
    for i in 0..names.len()
        invariant
            sorted_texts(by_key, strings_view(out@)),
            strings_view(out@).no_duplicates(),
            forall|x: Seq<char>| #[trigger] strings_view(out@).contains(x) <==> strings_view(names@).take(i as int).contains(x),
    {
        let ghost before = strings_view(out@);
        insert_text(by_key, &mut out, names[i].clone());
        proof {
            let nt = strings_view(names@).take(i + 1);
            assert(nt =~= strings_view(names@).take(i as int).push(names@[i as int]@));
            assert forall|x: Seq<char>| #[trigger] strings_view(out@).contains(x) <==> nt.contains(x) by {
                if nt.contains(x) {
                    let j = choose|j: int| 0 <= j < nt.len() && nt[j] == x;
                    if j < i {
                        assert(strings_view(names@).take(i as int)[j] == x);
                    }
                }
                if strings_view(names@).take(i as int).contains(x) {
                    let j = choose|j: int| 0 <= j < i && strings_view(names@).take(i as int)[j] == x;
                    assert(nt[j] == x);
                }
                if x == names@[i as int]@ {
                    assert(nt[i as int] == x);
                }
            }
        }
    }
    assert(strings_view(names@).take(names@.len() as int) =~= strings_view(names@));
    out
}

/// The order in which a theme's role files are checked: the customary
/// roles that it has, in their fixed order, then every other role once,
/// names without a dot first, each group by text.
pub fn order_roles(roles: &Vec<String>) -> (r: Vec<String>)
    ensures
        exists|rest: Seq<Seq<char>>| #![trigger sorted_texts(true, rest)]
            strings_view(r@) == spec_present(spec_priority(), strings_view(roles@)) + rest
            && sorted_texts(true, rest)
            && rest.no_duplicates()
            && forall|x: Seq<char>| #[trigger] rest.contains(x) <==> (strings_view(roles@).contains(x) && !spec_priority().contains(x)),
{
    let ghost rv = strings_view(roles@);
    let prio = priority();
    let ghost pv = spec_priority();
    let mut out: Vec<String> = Vec::new();
    proof {
        assert(pv.take(0) =~= seq![]);
        assert(strings_view(out@) =~= seq![]);
    }
    for j in 0..prio.len()
        invariant
            crate::browser::strs_view(prio@) == pv,
            pv == spec_priority(),
            rv == strings_view(roles@),
            strings_view(out@) == spec_present(pv.take(j as int), rv),
    {
        proof {
            assert(pv.take(j + 1).drop_last() =~= pv.take(j as int));
            assert(pv.take(j + 1).last() == prio@[j as int]@);
        }
        if crate::browser::contains_role(roles.as_slice(), prio[j]) {
            let ghost before = strings_view(out@);
            out.push(String::from_str(prio[j]));
            assert(strings_view(out@) =~= before.push(prio@[j as int]@));
        }
    }
    assert(pv.take(pv.len() as int) =~= pv);
    let mut others: Vec<String> = Vec::new();
    for i in 0..roles.len()
        invariant
            crate::browser::strs_view(prio@) == pv,
            pv == spec_priority(),
            rv == strings_view(roles@),
            forall|x: Seq<char>| #[trigger] strings_view(others@).contains(x) <==> (rv.take(i as int).contains(x) && !pv.contains(x)),
    {
        let keep = !crate::browser::contains_name(&prio, roles[i].as_str());
        let ghost before = strings_view(others@);
        if keep {
            others.push(roles[i].clone());
        }
        proof {
            let rt = rv.take(i + 1);
            assert(rt =~= rv.take(i as int).push(roles@[i as int]@));
            assert forall|x: Seq<char>| #[trigger] strings_view(others@).contains(x) <==> (rt.contains(x) && !pv.contains(x)) by {
                if keep {
                    assert(strings_view(others@) =~= before.push(roles@[i as int]@));
                    if strings_view(others@).contains(x) && x != roles@[i as int]@ {
                        let j = choose|j: int| 0 <= j < strings_view(others@).len() && strings_view(others@)[j] == x;
                        assert(before[j] == x);
                    }
                    if before.contains(x) {
                        let j = choose|j: int| 0 <= j < before.len() && before[j] == x;
                        assert(strings_view(others@)[j] == x);
                    }
                    if x == roles@[i as int]@ {
                        assert(strings_view(others@)[before.len() as int] == x);
                    }
                }
                if rt.contains(x) {
                    let j = choose|j: int| 0 <= j < rt.len() && rt[j] == x;
                    if j < i {
                        assert(rv.take(i as int)[j] == x);
                    }
                }
                if rv.take(i as int).contains(x) {
                    let j = choose|j: int| 0 <= j < i && rv.take(i as int)[j] == x;
                    assert(rt[j] == x);
                }
                if x == roles@[i as int]@ {
                    assert(rt[i as int] == x);
                }
            }
        }
    }
    assert(rv.take(roles@.len() as int) =~= rv);
    let rest = sorted_unique(true, &others);
    let ghost head = strings_view(out@);
    let ghost tail = strings_view(rest@);
    let mut rest_mut = rest;
    out.append(&mut rest_mut);
    assert(strings_view(out@) =~= head + tail);
    out
}

/// The role files a theme may still check under the scan's role budget:
/// at most one more than `PER_THEME`, and no more than the budget; the
/// theme is limited when the walk was, or when either bound cut the list.
pub fn budget_roles(ordered: Vec<String>, budget: usize, traversal_limited: bool) -> (r: (Vec<String>, bool))
    ensures
        r.0@ == ordered@.take(
            if ordered@.len() <= PER_THEME + 1 && ordered@.len() <= budget {
                ordered@.len() as int
            } else if PER_THEME + 1 <= budget {
                PER_THEME + 1
            } else {
                budget as int
            },
        ),
        r.1 == (traversal_limited || ordered@.len() > PER_THEME || ordered@.len() > budget),
{
    let limited = traversal_limited || ordered.len() > PER_THEME || ordered.len() > budget;
    let cap = if PER_THEME + 1 <= budget {
        PER_THEME + 1
    } else {
        budget
    };
    let mut out = ordered;
    out.truncate(cap);
    (out, limited)
}

/// The evidence kept after verifying one more role file: the first one,
/// unless a direct file follows an inherited one.
pub open spec fn spec_prefer(current: Option<Availability>, next: Availability) -> Option<Availability> {
    match current {
        None => Some(next),
        Some(c) => if c is Inherited && next is Direct {
            Some(next)
        } else {
            Some(c)
        },
    }
}

/// Keeps the better of the current evidence and a newly verified file.
pub fn prefer_evidence(current: Option<Availability>, next: Availability) -> (r: Option<Availability>)
    ensures
        r == spec_prefer(current, next),
{
    match current {
        None => Some(next),
        Some(c) => {
            let replace = match (&c, &next) {
                (Availability::Inherited { .. }, Availability::Direct { .. }) => true,
                _ => false,
            };
            if replace {
                Some(next)
            } else {
                Some(c)
            }
        },
    }
}

/// Texts joined by `sep`.
pub open spec fn spec_join_with(v: Seq<Seq<char>>, sep: Seq<char>) -> Seq<char>
    decreases v.len(),
{
    if v.len() == 0 {
        seq![]
    } else if v.len() == 1 {
        v[0]
    } else {
        spec_join_with(v.drop_last(), sep) + sep + v.last()
    }
}

/// `v.join(sep)`.
pub fn join_with(v: &Vec<String>, sep: &str) -> (r: String)
    ensures
        r@ == spec_join_with(strings_view(v@), sep@),
{
    let ghost vv = strings_view(v@);
    let mut out = String::new();
    proof {
        assert(vv.take(0) =~= seq![]);
    }
    for i in 0..v.len()
        invariant
            vv == strings_view(v@),
            out@ == spec_join_with(vv.take(i as int), sep@),
    {
        proof {
            assert(vv.take(i + 1).drop_last() =~= vv.take(i as int));
            assert(vv.take(i + 1).last() == v@[i as int]@);
        }
        if i == 0 {
            out = String::from_str(v[i].as_str());
            assert(vv.take(1) =~= seq![v@[0]@]);
        } else {
            out = concat3(out.as_str(), sep, v[i].as_str());
        }
    }
    assert(vv.take(vv.len() as int) =~= vv);
    out
}

/// What a theme without a verified role file is reported as.
pub open spec fn spec_conclusion(outside: bool, limited: bool, issues: Seq<Seq<char>>) -> (int, Seq<char>) {
    if outside {
        (4, "Discovered outside the effective lookup paths"@)
    } else if limited {
        (4, "Verification budget reached"@)
    } else if issues.len() > 0 {
        (3, spec_join_with(issues, "; "@))
    } else {
        (2, seq![])
    }
}

/// The kind of an availability (direct, inherited, none, invalid,
/// unverified) and its text.
pub open spec fn availability_kind(a: Availability) -> (int, Seq<char>) {
    match a {
        Availability::Direct { .. } => (0, seq![]),
        Availability::Inherited { .. } => (1, seq![]),
        Availability::NoCursorSource => (2, seq![]),
        Availability::Invalid(s) => (3, s@),
        Availability::Unverified(s) => (4, s@),
    }
}

/// A theme's availability: its evidence when a role file was verified;
/// else unverified when it lies outside the lookup paths or the budget cut
/// it short, invalid with its issues joined, or without a cursor source.
pub fn conclude(evidence: Option<Availability>, outside: bool, limited: bool, issues: &Vec<String>) -> (r: Availability)
    ensures
        evidence matches Some(a) ==> r == a,
        evidence is None ==> availability_kind(r) == spec_conclusion(outside, limited, strings_view(issues@)),
{
    match evidence {
        Some(a) => a,
        None => {
            if outside {
                Availability::Unverified(String::from_str("Discovered outside the effective lookup paths"))
            } else if limited {
                Availability::Unverified(String::from_str("Verification budget reached"))
            } else if issues.len() > 0 {
                Availability::Invalid(join_with(issues, "; "))
            } else {
                Availability::NoCursorSource
            }
        },
    }
}

/// Issues sorted by text, each once, at most `MAX_ISSUES`.
pub fn tidy_issues(issues: &Vec<String>) -> (r: Vec<String>)
    ensures
        exists|all: Seq<Seq<char>>| #![trigger sorted_texts(false, all)]
            sorted_texts(false, all) && all.no_duplicates()
            && (forall|x: Seq<char>| #[trigger] all.contains(x) <==> strings_view(issues@).contains(x))
            && strings_view(r@) == all.take(if all.len() <= MAX_ISSUES { all.len() as int } else { MAX_ISSUES as int }),
{
    let mut all = sorted_unique(false, issues);
    let ghost av = strings_view(all@);
    all.truncate(MAX_ISSUES);
    assert(strings_view(all@) =~= av.take(if av.len() <= MAX_ISSUES { av.len() as int } else { MAX_ISSUES as int }));
    all
}

/// The note for a theme without usable evidence.
pub fn unusable_note(name: &str, label: &str) -> (r: String)
    ensures
        r@ == name@ + ": "@ + label@ + ". Automatic default fallback is not theme evidence."@,
{
    let a = concat3(name, ": ", label);
    concat2(a.as_str(), ". Automatic default fallback is not theme evidence.")
}

/// The diagnostics a theme adds: a note when it has no usable evidence,
/// then each kept issue prefixed with the theme's name.
pub fn theme_diagnostics(name: &str, availability: &Availability, issues: &Vec<String>) -> (r: Vec<String>)
    ensures
        strings_view(r@) == (if availability is Direct || availability is Inherited {
            Seq::<Seq<char>>::empty()
        } else {
            seq![name@ + ": "@ + crate::model::spec_availability_label(*availability)@ + ". Automatic default fallback is not theme evidence."@]
        }) + Seq::new(
            if issues@.len() <= MAX_ISSUES { issues@.len() as nat } else { MAX_ISSUES as nat },
            |i: int| name@ + ": "@ + issues@[i]@,
        ),
{
    let mut out: Vec<String> = Vec::new();
    if !availability.usable() {
        out.push(unusable_note(name, availability.label()));
    }
    let ghost head = strings_view(out@);
    let n = if issues.len() <= MAX_ISSUES {
        issues.len()
    } else {
        MAX_ISSUES
    };
    for i in 0..n
        invariant
            n <= issues@.len(),
            strings_view(out@) == head + Seq::new(i as nat, |j: int| name@ + ": "@ + issues@[j]@),
    {
        let ghost before = strings_view(out@);
        let line = concat3(name, ": ", issues[i].as_str());
        out.push(line);
        assert(strings_view(out@) =~= before.push(line@));
        assert(strings_view(out@) =~= head + Seq::new((i + 1) as nat, |j: int| name@ + ": "@ + issues@[j]@));
    }
    out
}

/// Whether a theme has usable evidence.
pub open spec fn theme_usable(t: Theme) -> bool {
    t.availability is Direct || t.availability is Inherited
}

/// The themes with usable evidence and the others, each in their order.
pub open spec fn spec_split(ts: Seq<Theme>) -> (Seq<Theme>, Seq<Theme>)
    decreases ts.len(),
{
    if ts.len() == 0 {
        (seq![], seq![])
    } else {
        let (u, c) = spec_split(ts.drop_last());
        if theme_usable(ts.last()) {
            (u.push(ts.last()), c)
        } else {
            (u, c.push(ts.last()))
        }
    }
}

/// Separates usable themes from candidates, keeping the order of each.
pub fn split_usable(themes: Vec<Theme>) -> (r: (Vec<Theme>, Vec<Theme>))
    ensures
        (r.0@, r.1@) == spec_split(themes@),
{
    let ghost all = themes@;
    let n = themes.len();
    let mut rest = themes;
    let mut usable: Vec<Theme> = Vec::new();
    let mut others: Vec<Theme> = Vec::new();
    let mut k: usize = 0;
    proof {
        assert(all.take(0) =~= seq![]);
        assert(all.skip(0) =~= all);
    }
    while rest.len() > 0
        invariant
            n == all.len(),
            k <= all.len(),
            rest@ == all.skip(k as int),
            (usable@, others@) == spec_split(all.take(k as int)),
        decreases rest@.len(),
    {
        let t = rest.remove(0);
        proof {
            assert(all.take(k + 1).drop_last() =~= all.take(k as int));
            assert(all.take(k + 1).last() == t);
            assert(rest@ =~= all.skip(k + 1));
        }
        if t.availability.usable() {
            usable.push(t);
        } else {
            others.push(t);
        }
        k = k + 1;
    }
    assert(all.take(k as int) =~= all);
    (usable, others)
}

/// The checks made on entering a theme during an inheritance walk: the
/// visit count (after counting this visit) and depth bounds, and no cycle.
pub open spec fn spec_enter(stack: Seq<Seq<char>>, visits: nat, name: Seq<char>) -> Result<(), Error> {
    if visits > MAX_VISITS {
        Err(Error::LimitExceeded("inheritance visits"))
    } else if stack.len() >= MAX_DEPTH {
        Err(Error::LimitExceeded("inheritance depth"))
    } else if stack.contains(name) {
        Err(Error::Invalid("inheritance cycle"))
    } else {
        Ok(())
    }
}

/// Checks entering `name` with `stack` above it, after `visits` visits
/// (this one included).
pub fn enter(stack: &Vec<String>, visits: usize, name: &str) -> (r: Result<(), Error>)
    ensures
        r == spec_enter(strings_view(stack@), visits as nat, name@),
{
    if visits > MAX_VISITS {
        return Err(Error::LimitExceeded("inheritance visits"));
    }
    if stack.len() >= MAX_DEPTH {
        return Err(Error::LimitExceeded("inheritance depth"));
    }
    if crate::browser::contains_role(stack.as_slice(), name) {
        return Err(Error::Invalid("inheritance cycle"));
    }
    Ok(())
}

/// How a failed parent lookup changes the error of an inheritance walk:
/// cancellation stops the walk; any error but `Missing` replaces the one
/// kept so far.
pub fn parent_outcome(kept: Error, e: Error) -> (r: Result<Error, Error>)
    ensures
        e == Error::Cancelled ==> r == Err::<Error, Error>(Error::Cancelled),
        e != Error::Cancelled && e == Error::Missing ==> r == Ok::<Error, Error>(kept),
        e != Error::Cancelled && e != Error::Missing ==> r == Ok::<Error, Error>(e),
{
    match e {
        Error::Cancelled => Err(Error::Cancelled),
        Error::Missing => Ok(kept),
        other => Ok(other),
    }
}

/// The step of the role-gathering walk on reaching `name`: the bounds
/// (after counting this visit) end the walk; a cycle or an unknown theme
/// adds a note and goes no further; otherwise the theme is entered.
pub open spec fn spec_gather_step(stack: Seq<Seq<char>>, visits: nat, name: Seq<char>, known: bool) -> Result<Option<Seq<char>>, Error> {
    if visits > MAX_VISITS || stack.len() >= MAX_DEPTH {
        Err(Error::LimitExceeded("inheritance traversal"))
    } else if stack.contains(name) {
        Ok(Some("Inheritance cycle: "@ + spec_join_with(stack, " → "@) + " → "@ + name))
    } else if !known {
        Ok(Some("Missing parent: "@ + name))
    } else {
        Ok(None)
    }
}

/// Decides one step of the role-gathering walk (see `spec_gather_step`).
pub fn gather_step(stack: &Vec<String>, visits: usize, name: &str, known: bool) -> (r: Result<Option<String>, Error>)
    ensures
        match r {
            Ok(Some(note)) => spec_gather_step(strings_view(stack@), visits as nat, name@, known) == Ok::<Option<Seq<char>>, Error>(Some(note@)),
            Ok(None) => spec_gather_step(strings_view(stack@), visits as nat, name@, known) == Ok::<Option<Seq<char>>, Error>(None),
            Err(e) => spec_gather_step(strings_view(stack@), visits as nat, name@, known) == Err::<Option<Seq<char>>, Error>(e),
        },
{
    if visits > MAX_VISITS || stack.len() >= MAX_DEPTH {
        return Err(Error::LimitExceeded("inheritance traversal"));
    }
    if crate::browser::contains_role(stack.as_slice(), name) {
        let path = join_with(stack, " → ");
        let a = concat3("Inheritance cycle: ", path.as_str(), " → ");
        return Ok(Some(concat2(a.as_str(), name)));
    }
    if !known {
        return Ok(Some(concat2("Missing parent: ", name)));
    }
    Ok(None)
}

/// Directory entries a scan looks at over all roots.
pub const MAX_SCAN_ENTRIES: usize = 16384;

/// Role file entries a scan looks at over all themes.
pub const MAX_SCAN_ROLE_ENTRIES: usize = 65536;

/// Role file entries kept per theme directory.
pub const MAX_THEME_ROLE_ENTRIES: usize = 8192;

/// What a scan has looked at so far.
pub struct ScanCounts {
    pub entries: usize,
    pub role_entries: usize,
}

impl ScanCounts {
    /// Nothing looked at yet.
    pub fn new() -> (r: Self)
        ensures
            r.entries == 0 && r.role_entries == 0,
    {
        ScanCounts { entries: 0, role_entries: 0 }
    }

    /// Counts one more directory entry of a root; more than
    /// `MAX_SCAN_ENTRIES` end the scan.
    pub fn entry(&mut self) -> (r: Result<(), Error>)
        requires
            old(self).entries <= MAX_SCAN_ENTRIES,
        ensures
            final(self).entries == old(self).entries + 1,
            final(self).role_entries == old(self).role_entries,
            r is Err <==> final(self).entries > MAX_SCAN_ENTRIES,
            r matches Err(e) ==> e == Error::LimitExceeded("theme entries"),
    {
        self.entries = self.entries + 1;
        if self.entries > MAX_SCAN_ENTRIES {
            return Err(Error::LimitExceeded("theme entries"));
        }
        Ok(())
    }

    /// Counts the `n`-th (from 0) role file entry of a theme directory;
    /// more than `MAX_SCAN_ROLE_ENTRIES` over the scan end it. Answers
    /// whether the entry is still within the theme's `MAX_THEME_ROLE_ENTRIES`.
    pub fn role_entry(&mut self, n: usize) -> (r: Result<bool, Error>)
        requires
            old(self).role_entries <= MAX_SCAN_ROLE_ENTRIES,
        ensures
            final(self).role_entries == old(self).role_entries + 1,
            final(self).entries == old(self).entries,
            r is Err <==> final(self).role_entries > MAX_SCAN_ROLE_ENTRIES,
            r matches Err(e) ==> e == Error::LimitExceeded("catalog role entries"),
            r matches Ok(keep) ==> keep == (n < MAX_THEME_ROLE_ENTRIES),
    {
        self.role_entries = self.role_entries + 1;
        if self.role_entries > MAX_SCAN_ROLE_ENTRIES {
            return Err(Error::LimitExceeded("catalog role entries"));
        }
        Ok(n < MAX_THEME_ROLE_ENTRIES)
    }
}

/// Whether a directory found during a scan is a theme: it has role files,
/// parents, an index file, or an error worth reporting.
pub fn is_theme_dir(roles_empty: bool, inherits_empty: bool, has_index: bool, has_error: bool) -> (r: bool)
    ensures
        r == !(roles_empty && inherits_empty && !has_index && !has_error),
{
    !(roles_empty && inherits_empty && !has_index && !has_error)
}

pub open spec fn theme_names_of(ts: Seq<Theme>) -> Seq<Seq<char>> {
    ts.map_values(|t: Theme| t.name@)
}

/// Records one location of a scanned theme: the record of that name gets
/// the location and role files (and becomes invalid with `error`); a new
/// name gets a record, displayed as `display` or its name, not probed yet.
pub fn add_location(
    records: &mut Vec<Theme>,
    name: ThemeName,
    display: Option<String>,
    error: Option<String>,
    location: Location,
    roles: Vec<String>,
)
    ensures
        ({
            let names = theme_names_of(old(records)@);
            if names.contains(name@) {
                let k = choose|k: int| 0 <= k < names.len() && names[k] == name@ && forall|j: int| 0 <= j < k ==> names[j] != name@;
                let t = final(records)@[k];
                let o = old(records)@[k];
                &&& final(records)@.len() == old(records)@.len()
                &&& forall|j: int| 0 <= j < names.len() && j != k ==> #[trigger] final(records)@[j] == old(records)@[j]
                &&& t.name == o.name && t.display == o.display && t.verified_roles == o.verified_roles && t.issues == o.issues
                &&& t.locations@ == o.locations@.push(location)
                &&& t.roles@ == o.roles@ + roles@
                &&& error is None ==> t.availability == o.availability
                &&& error matches Some(e) ==> availability_kind(t.availability) == (3int, e@)
            } else {
                let t = final(records)@.last();
                &&& final(records)@.len() == old(records)@.len() + 1
                &&& final(records)@.drop_last() == old(records)@
                &&& t.name@ == name@
                &&& t.display@ == (match display { Some(d) => d@, None => name@ })
                &&& t.locations@ == seq![location]
                &&& t.roles@ == roles@
                &&& t.verified_roles@.len() == 0
                &&& t.issues@.len() == 0
                &&& availability_kind(t.availability) == (match error {
                    Some(e) => (3int, e@),
                    None => (4int, "Not probed yet"@),
                })
            }
        }),
        theme_names_of(old(records)@).no_duplicates() ==> theme_names_of(final(records)@).no_duplicates(),
{
    let ghost names = theme_names_of(records@);
    let mut found: Option<usize> = None;
    for i in 0..records.len()
        invariant
            names == theme_names_of(records@),
            match found {
                Some(k) => k < i && names[k as int] == name@ && forall|j: int| 0 <= j < k ==> names[j] != name@,
                None => forall|j: int| 0 <= j < i ==> names[j] != name@,
            },
    {
        if found.is_none() && str_eq(records[i].name.as_str(), name.as_str()) {
            found = Some(i);
        }
    }
    match found {
        Some(k) => {
            proof {
                assert(names[k as int] == name@);
                let c = choose|c: int| 0 <= c < names.len() && names[c] == name@ && forall|j: int| 0 <= j < c ==> names[j] != name@;
                if c < k {
                    assert(names[c] != name@);
                }
                if c > k {
                    assert(names[k as int] != name@);
                }
            }
            let mut t = records.remove(k);
            let ghost o = t;
            match error {
                Some(e) => {
                    t.availability = Availability::Invalid(e);
                },
                None => {},
            }
            t.locations.push(location);
            let mut extra = roles;
            t.roles.append(&mut extra);
            records.insert(k, t);
            proof {
                assert(theme_names_of(records@) =~= names);
            }
        },
        None => {
            let shown = match display {
                Some(d) => d,
                None => String::from_str(name.as_str()),
            };
            let availability = match error {
                Some(e) => Availability::Invalid(e),
                None => Availability::Unverified(String::from_str("Not probed yet")),
            };
            let mut locations = Vec::new();
            locations.push(location);
            let ghost nv = name@;
            records.push(Theme {
                name,
                display: shown,
                locations,
                roles,
                verified_roles: Vec::new(),
                availability,
                issues: Vec::new(),
            });
            proof {
                assert(theme_names_of(records@) =~= names.push(nv));
                assert(!names.contains(nv));
            }
        },
    }
}

/// A theme with its role file names sorted by text, each once; nothing
/// else changes.
pub fn tidy_roles(t: Theme) -> (r: Theme)
    ensures
        r.name == t.name && r.display == t.display && r.locations == t.locations,
        r.verified_roles == t.verified_roles && r.availability == t.availability && r.issues == t.issues,
        sorted_texts(false, strings_view(r.roles@)),
        strings_view(r.roles@).no_duplicates(),
        forall|x: Seq<char>| #[trigger] strings_view(r.roles@).contains(x) <==> strings_view(t.roles@).contains(x),
{
    let mut t = t;
    t.roles = sorted_unique(false, &t.roles);
    t
}

/// The list order of themes: by lower-cased display name, then by name.
pub open spec fn theme_lt(a: Theme, b: Theme) -> bool {
    chars_lt(spec_lowercase(a.display@), spec_lowercase(b.display@)) || (spec_lowercase(a.display@)
        == spec_lowercase(b.display@) && chars_lt(a.name@, b.name@))
}

pub open spec fn sorted_themes(v: Seq<Theme>) -> bool {
    forall|i: int| 0 <= i && i + 1 < v.len() ==> #[trigger] theme_lt(v[i], v[i + 1])
}

fn theme_less(a: &Theme, b: &Theme) -> (r: bool)
    ensures
        r == theme_lt(*a, *b),
{
    let la = chars_of(to_lowercase(a.display.as_str()).as_str());
    let lb = chars_of(to_lowercase(b.display.as_str()).as_str());
    if chars_less(&la, &lb) {
        return true;
    }
    if !crate::paths::chars_eq(&la, &lb) {
        return false;
    }
    chars_less(&chars_of(a.name.as_str()), &chars_of(b.name.as_str()))
}

proof fn lemma_theme_total(a: Theme, b: Theme)
    requires
        a.name@ != b.name@,
    ensures
        theme_lt(a, b) || theme_lt(b, a),
{
    lemma_chars_total(spec_lowercase(a.display@), spec_lowercase(b.display@));
    lemma_chars_total(a.name@, b.name@);
}

/// Themes in list order (see `theme_lt`); names are distinct, so the
/// order is strict.
pub fn sort_themes(themes: Vec<Theme>) -> (r: Vec<Theme>)
    requires
        theme_names_of(themes@).no_duplicates(),
    ensures
        sorted_themes(r@),
        r@.to_multiset() == themes@.to_multiset(),
{
    broadcast use vstd::seq_lib::group_to_multiset_ensures;
    let ghost all = themes@;
    let n = themes.len();
    let mut rest = themes;
    let mut out: Vec<Theme> = Vec::new();
    let mut k: usize = 0;
    proof {
        assert(all.take(0) =~= seq![]);
        assert(all.skip(0) =~= all);
    }
    while rest.len() > 0
        invariant
            n == all.len(),
            k <= all.len(),
            rest@ == all.skip(k as int),
            theme_names_of(all).no_duplicates(),
            sorted_themes(out@),
            out@.to_multiset() == all.take(k as int).to_multiset(),
        decreases rest@.len(),
    {
        let t = rest.remove(0);
        proof {
            assert(all.take(k + 1) =~= all.take(k as int).push(t));
            assert(rest@ =~= all.skip(k + 1));
            assert(all[k as int] == t);
        }
        let ghost old_out = out@;
        let mut p: usize = 0;
        while p < out.len() && theme_less(&out[p], &t)
            invariant
                old_out == out@,
                p <= out@.len(),
                forall|j: int| 0 <= j < p ==> theme_lt(#[trigger] old_out[j], t),
            decreases out@.len() - p,
        {
            p = p + 1;
        }
        proof {
            if p < old_out.len() {
                vstd::seq_lib::to_multiset_contains(old_out, old_out[p as int]);
                vstd::seq_lib::to_multiset_contains(all.take(k as int), old_out[p as int]);
                assert(old_out.contains(old_out[p as int]));
                assert(all.take(k as int).contains(old_out[p as int]));
                let q = choose|q: int| 0 <= q < k && all.take(k as int)[q] == old_out[p as int];
                assert(all[q] == old_out[p as int]);
                assert(theme_names_of(all)[q] != theme_names_of(all)[k as int]);
                lemma_theme_total(old_out[p as int], t);
            }
        }
        assert(p < old_out.len() ==> theme_lt(t, old_out[p as int]));
        let ghost tv = t;
        out.insert(p, t);
        let ghost nl = out@;
        assert(nl =~= old_out.insert(p as int, tv));
        proof {
            vstd::seq_lib::to_multiset_insert(old_out, p as int, tv);
            vstd::seq_lib::to_multiset_build(all.take(k as int), tv);
            assert(nl.to_multiset() == all.take(k + 1).to_multiset());
        }
        assert forall|i: int| 0 <= i && i + 1 < nl.len() implies #[trigger] theme_lt(nl[i], nl[i + 1]) by {
            if i + 1 < p {
                assert(nl[i] == old_out[i]);
                assert(nl[i + 1] == old_out[i + 1]);
                assert(theme_lt(old_out[i], old_out[i + 1]));
            } else if i + 1 == p {
                assert(nl[i] == old_out[i]);
                assert(theme_lt(old_out[i], tv));
            } else if i == p {
                assert(nl[i + 1] == old_out[i]);
            } else {
                let j = i - 1;
                assert(theme_lt(old_out[j], old_out[j + 1]));
                assert(j + 1 == i);
            }
        }
        k = k + 1;
    }
    assert(all.take(k as int) =~= all);
    out
}

} // verus!
