//! A byte-budgeted LRU cache of decoded role files, validated by content:
//! an entry is reused only for the same path and the same input bytes.
use crate::import::{spec_variants_bytes, variants_bytes_within};
use crate::model::{Variant, VariantV, clone_variants, variants_view};
use crate::paths::{same_path, spec_components};
use vstd::prelude::*;

verus! {

/// One cached file: its path, input bytes, decoded variants and the bytes
/// charged for it (input plus decoded pixels).
struct Entry {
    path: String,
    input: Vec<u8>,
    variants: Vec<Variant>,
    charge: usize,
}

/// The abstract value of an entry.
pub struct EntryV {
    pub path: Seq<char>,
    pub input: Seq<u8>,
    pub variants: Seq<VariantV>,
    pub charge: nat,
}

impl View for Entry {
    type V = EntryV;

    closed spec fn view(&self) -> EntryV {
        EntryV {
            path: self.path@,
            input: self.input@,
            variants: variants_view(self.variants@),
            charge: self.charge as nat,
        }
    }
}

/// The bytes charged for a file.
pub open spec fn spec_charge(input: Seq<u8>, vs: Seq<VariantV>) -> int {
    input.len() + spec_variants_bytes(vs)
}

/// The bytes charged for all entries.
pub open spec fn spec_used(es: Seq<EntryV>) -> int
    decreases es.len(),
{
    if es.len() == 0 {
        0
    } else {
        spec_used(es.drop_last()) + es.last().charge
    }
}

/// The least recently used entry first.
pub struct Cache {
    entries: Vec<Entry>,
    used: usize,
    budget: usize,
}

/// The abstract cache: entries from least to most recently used.
pub struct CacheV {
    pub entries: Seq<EntryV>,
    pub used: nat,
    pub budget: nat,
}

impl View for Cache {
    type V = CacheV;

    closed spec fn view(&self) -> CacheV {
        CacheV {
            entries: self.entries@.map_values(|e: Entry| e@),
            used: self.used as nat,
            budget: self.budget as nat,
        }
    }
}

/// A consistent cache: `used` is the sum of the charges, within the budget,
/// and each charge is what its file costs.
pub open spec fn cache_wf(c: CacheV) -> bool {
    &&& c.used == spec_used(c.entries)
    &&& c.used <= c.budget
    &&& forall|i: int| 0 <= i < c.entries.len() ==> #[trigger] c.entries[i].charge == spec_charge(c.entries[i].input, c.entries[i].variants)
}

/// Whether entry `e` is for `path`, compared as paths by their components
/// (and, when given, for exactly `input`).
pub open spec fn entry_matches(e: EntryV, path: Seq<char>, input: Option<Seq<u8>>) -> bool {
    spec_components(e.path) == spec_components(path) && match input {
        Some(i) => e.input == i,
        None => true,
    }
}

/// The first matching entry.
pub open spec fn spec_first_match(es: Seq<EntryV>, path: Seq<char>, input: Option<Seq<u8>>) -> Option<int>
    decreases es.len(),
{
    if es.len() == 0 {
        None
    } else {
        match spec_first_match(es.drop_last(), path, input) {
            Some(i) => Some(i),
            None => if entry_matches(es.last(), path, input) {
                Some(es.len() - 1)
            } else {
                None
            },
        }
    }
}

/// The first entry for `path` with exactly `input`.
pub open spec fn spec_find(es: Seq<EntryV>, path: Seq<char>, input: Seq<u8>) -> Option<int> {
    spec_first_match(es, path, Some(input))
}

/// The first entry for `path`, whatever its content.
pub open spec fn spec_find_path(es: Seq<EntryV>, path: Seq<char>) -> Option<int> {
    spec_first_match(es, path, None)
}

proof fn lemma_first_match(es: Seq<EntryV>, path: Seq<char>, input: Option<Seq<u8>>)
    ensures
        match spec_first_match(es, path, input) {
            Some(i) => 0 <= i < es.len() && entry_matches(es[i], path, input),
            None => true,
        },
    decreases es.len(),
{
    if es.len() > 0 {
        lemma_first_match(es.drop_last(), path, input);
    }
}

proof fn lemma_first_match_prefix(es: Seq<EntryV>, path: Seq<char>, input: Option<Seq<u8>>, k: int)
    requires
        0 <= k <= es.len(),
        spec_first_match(es.take(k), path, input) is Some,
    ensures
        spec_first_match(es, path, input) == spec_first_match(es.take(k), path, input),
    decreases es.len() - k,
{
    if k < es.len() {
        assert(es.take(k + 1).drop_last() =~= es.take(k));
        lemma_first_match_prefix(es, path, input, k + 1);
    } else {
        assert(es.take(k) =~= es);
    }
}

/// Drops least recently used entries until `charge` more bytes fit.
pub open spec fn spec_evict(es: Seq<EntryV>, used: int, budget: int, charge: int) -> (Seq<EntryV>, int)
    decreases es.len(),
{
    if used > budget - charge && es.len() > 0 {
        spec_evict(es.drop_first(), used - es[0].charge, budget, charge)
    } else {
        (es, used)
    }
}

/// Inserting a decoded file: nothing when its charge exceeds the budget;
/// else an earlier entry for the same path is dropped, least recently used
/// entries are evicted until the charge fits, and the file becomes the
/// most recently used entry.
pub open spec fn spec_cache_insert(c: CacheV, path: Seq<char>, input: Seq<u8>, vs: Seq<VariantV>) -> CacheV {
    let charge = spec_charge(input, vs);
    if charge > c.budget || charge > usize::MAX {
        c
    } else {
        let (es1, used1) = match spec_find_path(c.entries, path) {
            Some(i) => (c.entries.remove(i), c.used - c.entries[i].charge),
            None => (c.entries, c.used as int),
        };
        let (es2, used2) = spec_evict(es1, used1, c.budget as int, charge);
        CacheV {
            entries: es2.push(EntryV { path, input, variants: vs, charge: charge as nat }),
            used: (used2 + charge) as nat,
            budget: c.budget,
        }
    }
}

proof fn lemma_used_remove(es: Seq<EntryV>, i: int)
    requires
        0 <= i < es.len(),
    ensures
        spec_used(es.remove(i)) == spec_used(es) - es[i].charge,
    decreases es.len(),
{
    if i == es.len() - 1 {
        assert(es.remove(i) =~= es.drop_last());
    } else {
        lemma_used_remove(es.drop_last(), i);
        assert(es.remove(i).drop_last() =~= es.drop_last().remove(i));
        assert(es.remove(i).last() == es.last());
    }
}

proof fn lemma_used_push(es: Seq<EntryV>, e: EntryV)
    ensures
        spec_used(es.push(e)) == spec_used(es) + e.charge,
{
    assert(es.push(e).drop_last() =~= es);
}

proof fn lemma_used_nonneg(es: Seq<EntryV>)
    ensures
        spec_used(es) >= 0,
    decreases es.len(),
{
    if es.len() > 0 {
        lemma_used_nonneg(es.drop_last());
    }
}

proof fn lemma_charge_le_used(es: Seq<EntryV>, i: int)
    requires
        0 <= i < es.len(),
    ensures
        es[i].charge <= spec_used(es),
{
    lemma_used_remove(es, i);
    lemma_used_nonneg(es.remove(i));
}

impl Cache {
    /// An empty cache of `budget` bytes.
    pub fn new(budget: usize) -> (r: Self)
        ensures
            r@.entries.len() == 0,
            r@.used == 0,
            r@.budget == budget,
            cache_wf(r@),
    {
        let r = Cache { entries: Vec::new(), used: 0, budget };
        assert(r@.entries =~= seq![]);
        r
    }

    fn find(&self, path: &str, input: &[u8]) -> (r: Option<usize>)
        ensures
            match r {
                Some(k) => spec_find(self@.entries, path@, input@) == Some(k as int) && k < self@.entries.len(),
                None => spec_find(self@.entries, path@, input@) is None,
            },
    {
        let ghost es = self@.entries;
        for k in 0..self.entries.len()
            invariant
                es == self@.entries,
                spec_first_match(es.take(k as int), path@, Some(input@)) is None,
        {
            proof {
                assert(es[k as int] == self.entries@[k as int]@);
                assert(es.take(k + 1).drop_last() =~= es.take(k as int));
                assert(es.take(k + 1).last() == es[k as int]);
            }
            if same_path(self.entries[k].path.as_str(), path) && bytes_equal(self.entries[k].input.as_slice(), input) {
                proof {
                    lemma_first_match_prefix(es, path@, Some(input@), k + 1);
                }
                return Some(k);
            }
        }
        assert(es.take(es.len() as int) =~= es);
        None
    }

    fn find_path(&self, path: &str) -> (r: Option<usize>)
        ensures
            match r {
                Some(k) => spec_find_path(self@.entries, path@) == Some(k as int) && k < self@.entries.len(),
                None => spec_find_path(self@.entries, path@) is None,
            },
    {
        let ghost es = self@.entries;
        for k in 0..self.entries.len()
            invariant
                es == self@.entries,
                spec_first_match(es.take(k as int), path@, None) is None,
        {
            proof {
                assert(es[k as int] == self.entries@[k as int]@);
                assert(es.take(k + 1).drop_last() =~= es.take(k as int));
                assert(es.take(k + 1).last() == es[k as int]);
            }
            if same_path(self.entries[k].path.as_str(), path) {
                proof {
                    lemma_first_match_prefix(es, path@, None, k + 1);
                }
                return Some(k);
            }
        }
        assert(es.take(es.len() as int) =~= es);
        None
    }

    /// The bytes charged for the cached files.
    pub fn used(&self) -> (r: usize)
        ensures
            r == self@.used,
    {
        self.used
    }

    /// The cached variants of `path` when its input is exactly `input`; the
    /// entry becomes the most recently used one.
    pub fn get(&mut self, path: &str, input: &[u8]) -> (r: Option<Vec<Variant>>)
        requires
            cache_wf(old(self)@),
        ensures
            cache_wf(final(self)@),
            match spec_find(old(self)@.entries, path@, input@) {
                None => r is None && final(self)@ == old(self)@,
                Some(i) => r matches Some(vs) && variants_view(vs@) == old(self)@.entries[i].variants
                    && final(self)@ == (CacheV {
                    entries: old(self)@.entries.remove(i).push(old(self)@.entries[i]),
                    ..old(self)@
                }),
            },
    {
        let ghost es = self@.entries;
        let k = match self.find(path, input) {
            Some(k) => k,
            None => {
                return None;
            },
        };
        let ghost before = self.entries@;
        let e = self.entries.remove(k);
        let result = clone_variants(&e.variants);
        self.entries.push(e);
        proof {
            lemma_first_match(es, path@, Some(input@));
            assert(self.entries@ =~= before.remove(k as int).push(before[k as int]));
            assert(self@.entries =~= es.remove(k as int).push(es[k as int]));
            lemma_used_remove(es, k as int);
            lemma_used_push(es.remove(k as int), es[k as int]);
            assert forall|i: int| 0 <= i < self@.entries.len() implies #[trigger] self@.entries[i].charge == spec_charge(self@.entries[i].input, self@.entries[i].variants) by {
                if i < k {
                    assert(self@.entries[i] == es[i]);
                } else if i < es.len() - 1 {
                    assert(self@.entries[i] == es[i + 1]);
                } else {
                    assert(self@.entries[i] == es[k as int]);
                }
            }
        }
        Some(result)
    }

    /// Caches the decoded variants of `path` for exactly `input` (see
    /// `spec_cache_insert`).
    pub fn insert(&mut self, path: String, input: Vec<u8>, variants: Vec<Variant>)
        requires
            cache_wf(old(self)@),
        ensures
            cache_wf(final(self)@),
            final(self)@ == spec_cache_insert(old(self)@, path@, input@, variants_view(variants@)),
    {
        let ghost c0 = self@;
        let ghost charge_s = spec_charge(input@, variants_view(variants@));
        proof {
            crate::import::lemma_variants_bytes_prefix(variants_view(variants@), 0);
            assert(variants_view(variants@).take(0) =~= seq![]);
        }
        if input.len() > self.budget {
            return;
        }
        let charge = match variants_bytes_within(&variants, self.budget - input.len()) {
            Some(n) => input.len() + n,
            None => {
                return;
            },
        };
        let ghost es = self@.entries;
        match self.find_path(path.as_str()) {
            Some(k) => {
                proof {
                    lemma_first_match(es, path@, None);
                    lemma_used_remove(es, k as int);
                    lemma_charge_le_used(es, k as int);
                }
                let e = self.entries.remove(k);
                self.used = self.used - e.charge;
                proof {
                    assert(self@.entries =~= es.remove(k as int));
                    assert forall|i: int| 0 <= i < self@.entries.len() implies #[trigger] self@.entries[i].charge == spec_charge(self@.entries[i].input, self@.entries[i].variants) by {
                        if i < k {
                            assert(self@.entries[i] == es[i]);
                        } else {
                            assert(self@.entries[i] == es[i + 1]);
                        }
                    }
                }
            },
            None => {},
        }
        let ghost es1 = self@.entries;
        let ghost used1 = self.used as int;
        while self.used > self.budget - charge && self.entries.len() > 0
            invariant
                self.budget == c0.budget,
                charge <= self.budget,
                charge == charge_s,
                self.used == spec_used(self@.entries),
                self.used <= self.budget,
                forall|i: int| 0 <= i < self@.entries.len() ==> #[trigger] self@.entries[i].charge == spec_charge(self@.entries[i].input, self@.entries[i].variants),
                spec_evict(es1, used1, c0.budget as int, charge as int) == spec_evict(self@.entries, self.used as int, c0.budget as int, charge as int),
            decreases self.entries@.len(),
        {
            let ghost before = self@.entries;
            proof {
                lemma_charge_le_used(before, 0);
                lemma_used_remove(before, 0);
                assert(before.remove(0) =~= before.drop_first());
            }
            let e = self.entries.remove(0);
            proof {
                assert(e@ == before[0]);
            }
            self.used = self.used - e.charge;
            proof {
                assert(self@.entries =~= before.drop_first());
                assert forall|i: int| 0 <= i < self@.entries.len() implies #[trigger] self@.entries[i].charge == spec_charge(self@.entries[i].input, self@.entries[i].variants) by {
                    assert(self@.entries[i] == before[i + 1]);
                }
            }
        }
        let ghost es2 = self@.entries;
        let entry = Entry { path, input, variants, charge };
        self.used = self.used + charge;
        self.entries.push(entry);
        proof {
            lemma_used_push(es2, entry@);
            assert(self@.entries =~= es2.push(entry@));
            assert forall|i: int| 0 <= i < self@.entries.len() implies #[trigger] self@.entries[i].charge == spec_charge(self@.entries[i].input, self@.entries[i].variants) by {
                if i < es2.len() {
                    assert(self@.entries[i] == es2[i]);
                }
            }
        }
    }
}

/// Whether two byte slices are equal.
pub fn bytes_equal(a: &[u8], b: &[u8]) -> (r: bool)
    ensures
        r == (a@ == b@),
{
    if a.len() != b.len() {
        return false;
    }
    for i in 0..a.len()
        invariant
            a@.len() == b@.len(),
            forall|j: int| 0 <= j < i ==> a@[j] == b@[j],
    {
        if a[i] != b[i] {
            return false;
        }
    }
    assert(a@ =~= b@);
    true
}

/// The cache never holds more bytes than its budget, whatever is inserted
/// or looked up.
pub proof fn law_cache_within_budget(c: CacheV, path: Seq<char>, input: Seq<u8>, vs: Seq<VariantV>)
    requires
        cache_wf(c),
    ensures
        spec_cache_insert(c, path, input, vs).used <= c.budget,
        spec_cache_insert(c, path, input, vs).budget == c.budget,
{
    lemma_insert_bound(c, path, input, vs);
}

proof fn lemma_insert_bound(c: CacheV, path: Seq<char>, input: Seq<u8>, vs: Seq<VariantV>)
    requires
        cache_wf(c),
    ensures
        spec_cache_insert(c, path, input, vs).used <= c.budget,
        spec_cache_insert(c, path, input, vs).budget == c.budget,
{
    let charge = spec_charge(input, vs);
    if charge > c.budget || charge > usize::MAX {
    } else {
        lemma_first_match(c.entries, path, None);
        crate::import::lemma_variants_bytes_prefix(vs, 0);
        assert(vs.take(0) =~= seq![]);
        let (es1, used1) = match spec_find_path(c.entries, path) {
            Some(i) => (c.entries.remove(i), c.used - c.entries[i].charge),
            None => (c.entries, c.used as int),
        };
        match spec_find_path(c.entries, path) {
            Some(i) => {
                lemma_used_remove(c.entries, i);
            },
            None => {},
        }
        lemma_evict_bound(es1, used1, c.budget as int, charge);
    }
}

proof fn lemma_evict_bound(es: Seq<EntryV>, used: int, budget: int, charge: int)
    requires
        used == spec_used(es),
        0 <= charge <= budget,
    ensures
        spec_evict(es, used, budget, charge).1 <= budget - charge,
        spec_evict(es, used, budget, charge).1 == spec_used(spec_evict(es, used, budget, charge).0),
        spec_evict(es, used, budget, charge).1 >= 0,
    decreases es.len(),
{
    lemma_used_nonneg(es);
    if used > budget - charge && es.len() > 0 {
        lemma_used_remove(es, 0);
        assert(es.remove(0) =~= es.drop_first());
        lemma_evict_bound(es.drop_first(), used - es[0].charge, budget, charge);
    } else if es.len() == 0 {
        assert(used == 0);
    }
}

} // verus!
