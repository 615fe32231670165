//! Desktop cursor settings: values, snapshots, and the controller that
//! plans, writes, verifies and undoes a change through a settings port.
use crate::model::ThemeName;
use crate::text::{concat2, concat3};
use vstd::prelude::*;
use vstd::string::StringExecFns;

verus! {

/// The two desktop settings this application may change.
#[derive(Clone, Copy, Debug, PartialEq, Eq, PartialOrd, Ord, Hash, Structural)]
pub enum Key {
    Theme,
    Size,
}

pub open spec fn spec_key_name(k: Key) -> &'static str {
    match k {
        Key::Theme => "cursor-theme",
        Key::Size => "cursor-size",
    }
}

impl Key {
    /// The settings key name.
    pub fn name(self) -> (r: &'static str)
        ensures
            r == spec_key_name(self),
    {
        match self {
            Key::Theme => "cursor-theme",
            Key::Size => "cursor-size",
        }
    }
}

/// A setting value: the theme name or the cursor size.
#[derive(Debug, PartialEq, Eq)]
pub enum Value {
    Text(String),
    Int(i32),
}

/// The abstract value of a `Value`.
pub enum ValueV {
    Text(Seq<char>),
    Int(i32),
}

impl View for Value {
    type V = ValueV;

    open spec fn view(&self) -> ValueV {
        match self {
            Value::Text(s) => ValueV::Text(s@),
            Value::Int(n) => ValueV::Int(*n),
        }
    }
}

impl Clone for Value {
    fn clone(&self) -> (r: Self)
        ensures
            r@ == self@,
    {
        match self {
            Value::Text(s) => Value::Text(s.clone()),
            Value::Int(n) => Value::Int(*n),
        }
    }
}

pub open spec fn opt_value_view(v: Option<Value>) -> Option<ValueV> {
    match v {
        Some(x) => Some(x@),
        None => None,
    }
}

pub open spec fn ref_value_view(v: Option<&Value>) -> Option<ValueV> {
    match v {
        Some(x) => Some(x@),
        None => None,
    }
}

/// Whether two values are equal.
pub fn value_eq(a: &Value, b: &Value) -> (r: bool)
    ensures
        r == (a@ == b@),
{
    match (a, b) {
        (Value::Text(x), Value::Text(y)) => *x == *y,
        (Value::Int(x), Value::Int(y)) => *x == *y,
        _ => false,
    }
}

/// Whether two optional values are equal.
pub fn opt_value_eq(a: Option<&Value>, b: Option<&Value>) -> (r: bool)
    ensures
        r == (ref_value_view(a) == ref_value_view(b)),
{
    match (a, b) {
        (Some(x), Some(y)) => value_eq(x, y),
        (None, None) => true,
        _ => false,
    }
}

/// Clones an optional value.
pub fn clone_opt_value(v: &Option<Value>) -> (r: Option<Value>)
    ensures
        opt_value_view(r) == opt_value_view(*v),
{
    match v {
        Some(x) => Some(x.clone()),
        None => None,
    }
}

/// The effective value of a key and the user's explicit value, if any.
#[derive(Debug, PartialEq, Eq)]
pub struct Setting {
    pub effective: Value,
    pub user: Option<Value>,
}

pub struct SettingV {
    pub effective: ValueV,
    pub user: Option<ValueV>,
}

impl View for Setting {
    type V = SettingV;

    open spec fn view(&self) -> SettingV {
        SettingV { effective: self.effective@, user: opt_value_view(self.user) }
    }
}

impl Clone for Setting {
    fn clone(&self) -> (r: Self)
        ensures
            r@ == self@,
    {
        Setting { effective: self.effective.clone(), user: clone_opt_value(&self.user) }
    }
}

pub open spec fn opt_setting_view(s: Option<Setting>) -> Option<SettingV> {
    match s {
        Some(x) => Some(x@),
        None => None,
    }
}

/// Whether two settings are equal.
pub fn setting_eq(a: &Setting, b: &Setting) -> (r: bool)
    ensures
        r == (a@ == b@),
{
    value_eq(&a.effective, &b.effective) && opt_value_eq(a.user.as_ref(), b.user.as_ref())
}

fn opt_setting_eq(a: &Option<Setting>, b: &Option<Setting>) -> (r: bool)
    ensures
        r == (opt_setting_view(*a) == opt_setting_view(*b)),
{
    match (a, b) {
        (Some(x), Some(y)) => setting_eq(x, y),
        (None, None) => true,
        _ => false,
    }
}

/// The settings read at one moment, by key.
#[derive(Debug, PartialEq, Eq)]
pub struct Snapshot {
    pub theme: Option<Setting>,
    pub size: Option<Setting>,
}

pub struct SnapshotV {
    pub theme: Option<SettingV>,
    pub size: Option<SettingV>,
}

impl SnapshotV {
    pub open spec fn get(self, k: Key) -> Option<SettingV> {
        match k {
            Key::Theme => self.theme,
            Key::Size => self.size,
        }
    }

    pub open spec fn set(self, k: Key, s: Option<SettingV>) -> SnapshotV {
        match k {
            Key::Theme => SnapshotV { theme: s, size: self.size },
            Key::Size => SnapshotV { theme: self.theme, size: s },
        }
    }

    /// The number of keys present.
    pub open spec fn len(self) -> nat {
        (if self.theme is Some { 1nat } else { 0nat }) + (if self.size is Some { 1nat } else { 0nat })
    }
}

impl View for Snapshot {
    type V = SnapshotV;

    open spec fn view(&self) -> SnapshotV {
        SnapshotV { theme: opt_setting_view(self.theme), size: opt_setting_view(self.size) }
    }
}

impl Clone for Snapshot {
    fn clone(&self) -> (r: Self)
        ensures
            r@ == self@,
    {
        let theme = match &self.theme {
            Some(s) => Some(s.clone()),
            None => None,
        };
        let size = match &self.size {
            Some(s) => Some(s.clone()),
            None => None,
        };
        Snapshot { theme, size }
    }
}

impl Snapshot {
    /// A snapshot without keys.
    pub fn new() -> (r: Self)
        ensures
            r@.theme is None,
            r@.size is None,
    {
        Snapshot { theme: None, size: None }
    }

    /// The setting of `k`, if read.
    pub fn get(&self, k: Key) -> (r: Option<&Setting>)
        ensures
            match r {
                Some(s) => self@.get(k) == Some(s@),
                None => self@.get(k) is None,
            },
    {
        match k {
            Key::Theme => self.theme.as_ref(),
            Key::Size => self.size.as_ref(),
        }
    }

    /// Records the setting of `k`, replacing an earlier one.
    pub fn insert(&mut self, k: Key, s: Setting)
        ensures
            final(self)@ == old(self)@.set(k, Some(s@)),
    {
        match k {
            Key::Theme => self.theme = Some(s),
            Key::Size => self.size = Some(s),
        }
    }

    /// The number of keys read.
    pub fn len(&self) -> (r: usize)
        ensures
            r == self@.len(),
    {
        (if self.theme.is_some() { 1 } else { 0 }) + (if self.size.is_some() { 1 } else { 0 })
    }
}

/// Whether two snapshots hold the same settings.
pub fn snapshot_eq(a: &Snapshot, b: &Snapshot) -> (r: bool)
    ensures
        r == (a@ == b@),
{
    opt_setting_eq(&a.theme, &b.theme) && opt_setting_eq(&a.size, &b.size)
}

/// Planned writes by key: `Some(v)` sets the user value, `None` resets it.
#[derive(Debug, PartialEq, Eq)]
pub struct Changes {
    pub theme: Option<Option<Value>>,
    pub size: Option<Option<Value>>,
}

pub struct ChangesV {
    pub theme: Option<Option<ValueV>>,
    pub size: Option<Option<ValueV>>,
}

impl ChangesV {
    pub open spec fn get(self, k: Key) -> Option<Option<ValueV>> {
        match k {
            Key::Theme => self.theme,
            Key::Size => self.size,
        }
    }

    /// The planned keys in key order.
    pub open spec fn keys(self) -> Seq<Key> {
        (if self.theme is Some { seq![Key::Theme] } else { seq![] }) + (if self.size is Some {
            seq![Key::Size]
        } else {
            seq![]
        })
    }

    pub open spec fn is_empty(self) -> bool {
        self.theme is None && self.size is None
    }
}

pub open spec fn opt_change_view(c: Option<Option<Value>>) -> Option<Option<ValueV>> {
    match c {
        Some(v) => Some(opt_value_view(v)),
        None => None,
    }
}

impl View for Changes {
    type V = ChangesV;

    open spec fn view(&self) -> ChangesV {
        ChangesV { theme: opt_change_view(self.theme), size: opt_change_view(self.size) }
    }
}

fn clone_change(c: &Option<Option<Value>>) -> (r: Option<Option<Value>>)
    ensures
        opt_change_view(r) == opt_change_view(*c),
{
    match c {
        Some(v) => Some(clone_opt_value(v)),
        None => None,
    }
}

impl Clone for Changes {
    fn clone(&self) -> (r: Self)
        ensures
            r@ == self@,
    {
        Changes { theme: clone_change(&self.theme), size: clone_change(&self.size) }
    }
}

impl Changes {
    /// No planned writes.
    pub fn new() -> (r: Self)
        ensures
            r@.is_empty(),
    {
        Changes { theme: None, size: None }
    }

    /// The planned write of `k`, if any.
    pub fn get(&self, k: Key) -> (r: Option<&Option<Value>>)
        ensures
            match r {
                Some(c) => self@.get(k) == Some(opt_value_view(*c)),
                None => self@.get(k) is None,
            },
    {
        match k {
            Key::Theme => self.theme.as_ref(),
            Key::Size => self.size.as_ref(),
        }
    }

    /// Plans the write of `k`, replacing an earlier one.
    pub fn insert(&mut self, k: Key, v: Option<Value>)
        ensures
            final(self)@.get(k) == Some(opt_value_view(v)),
            forall|j: Key| j != k ==> final(self)@.get(j) == old(self)@.get(j),
    {
        match k {
            Key::Theme => self.theme = Some(v),
            Key::Size => self.size = Some(v),
        }
    }

    /// Whether nothing is planned.
    pub fn is_empty(&self) -> (r: bool)
        ensures
            r == self@.is_empty(),
    {
        self.theme.is_none() && self.size.is_none()
    }

    /// The planned keys in key order.
    pub fn keys(&self) -> (r: Vec<Key>)
        ensures
            r@ == self@.keys(),
    {
        let mut out = Vec::new();
        if self.theme.is_some() {
            out.push(Key::Theme);
        }
        if self.size.is_some() {
            out.push(Key::Size);
        }
        proof {
            assert(out@ =~= self@.keys());
        }
        out
    }
}


/// What the settings backend allows in this session.
pub struct Capability {
    pub writable: bool,
    pub details: Vec<String>,
}

impl Default for Capability {
    fn default() -> (r: Self)
        ensures
            !r.writable,
            r.details@.len() == 0,
    {
        Capability { writable: false, details: Vec::new() }
    }
}

/// A desktop settings backend. Each implementation decides what its calls
/// return; the controller states what holds whatever they return.
///
/// The `spec` relations below name each answer by the arguments it was given
/// (`capability_was`, `read_was`, `validated`, `wrote`); nothing more is
/// known of them, and nothing calls them at run time.
pub trait DesktopSettingsPort {
    spec fn capability_was(&self, c: &Capability) -> bool;

    spec fn read_was(&self, r: &Result<Snapshot, String>) -> bool;

    spec fn validated(&self, key: Key, value: ValueV, r: &Result<(), String>) -> bool;

    spec fn wrote(&self, key: Key, value: Option<ValueV>, r: &Result<(), String>) -> bool;

    fn capability(&self) -> (r: Capability)
        ensures
            self.capability_was(&r),
    ;

    fn read(&self) -> (r: Result<Snapshot, String>)
        ensures
            self.read_was(&r),
    ;

    fn validate(&self, key: Key, value: &Value) -> (r: Result<(), String>)
        ensures
            self.validated(key, value@, &r),
    ;

    fn write(&self, key: Key, value: Option<&Value>) -> (r: Result<(), String>)
        ensures
            self.wrote(
                key,
                match value {
                    Some(v) => Some(v@),
                    None => None,
                },
                &r,
            ),
    ;
}

/// The backend accepted `value` for `k`.
pub open spec fn validated_ok<P: DesktopSettingsPort>(port: &P, k: Key, value: ValueV) -> bool {
    exists|x: Result<(), String>| #[trigger] port.validated(k, value, &x) && x is Ok
}

/// Compensation of key `k` after a failed write: the backend read `now`,
/// where `k` still holds the planned user value (`spec_restorable`), and,
/// when the plan read `k` before, the earlier user value was written back.
pub open spec fn compensated<P: DesktopSettingsPort>(port: &P, plan: PlanV, now: Snapshot, k: Key) -> bool {
    &&& port.read_was(&Ok::<Snapshot, String>(now))
    &&& spec_restorable(now@, plan, k)
    &&& plan.before.get(k) is Some ==> exists|x: Result<(), String>| #[trigger] port.wrote(k, spec_user_of(plan.before, k), &x) && x is Ok
}

/// The write of planned key `k` succeeded.
pub open spec fn wrote_ok<P: DesktopSettingsPort>(port: &P, plan: PlanV, k: Key) -> bool {
    exists|x: Result<(), String>| #[trigger] port.wrote(k, plan.changes.get(k).unwrap(), &x) && x is Ok
}

/// What the backend answered when a start was decided: `read` is the
/// snapshot it read (none when the session was read-only or the read
/// failed, both answers of the backend); that read decides the start
/// (`spec_read_decides`); a start that leaves writes pending wrote every
/// planned key in key order; a start whose writes failed wrote the keys
/// before the first failure and the failing one, and no later key.
pub open spec fn spec_port_start<P: DesktopSettingsPort>(port: &P, plan: PlanV, read: Option<Snapshot>, r: Status) -> bool {
    let keys = plan.changes.keys();
    &&& spec_read_decides(plan, opt_snapshot_view(read), r)
    &&& read matches Some(s) ==> port.read_was(&Ok::<Snapshot, String>(s))
    &&& read is None ==> ((exists|c: Capability| #[trigger] port.capability_was(&c) && !c.writable) || (exists|e: String|
        #[trigger] port.read_was(&Err::<Snapshot, String>(e))))
    &&& r == Status::Writing ==> forall|i: int| 0 <= i < keys.len() ==> #[trigger] wrote_ok(port, plan, keys[i])
    &&& (r == Status::WriteFailed || r == Status::VerificationPending) && read is Some ==> exists|f: int|
        #![trigger keys[f]]
        0 <= f < keys.len() && (forall|j: int| 0 <= j < f ==> #[trigger] wrote_ok(port, plan, keys[j])) && exists|e: String|
            #[trigger] port.wrote(keys[f], plan.changes.get(keys[f]).unwrap(), &Err::<(), String>(e))
}

/// A requested theme, with an optional size, and whether a valid preview of
/// the theme was loaded.
pub struct ChangeIntent {
    pub theme: ThemeName,
    pub size: Option<i32>,
    pub resolved: bool,
}

/// The settings read before a change and the writes that make it.
#[derive(Debug)]
pub struct Plan {
    pub before: Snapshot,
    pub changes: Changes,
}

pub struct PlanV {
    pub before: SnapshotV,
    pub changes: ChangesV,
}

impl View for Plan {
    type V = PlanV;

    open spec fn view(&self) -> PlanV {
        PlanV { before: self.before@, changes: self.changes@ }
    }
}

impl Clone for Plan {
    fn clone(&self) -> (r: Self)
        ensures
            r@ == self@,
    {
        Plan { before: self.before.clone(), changes: self.changes.clone() }
    }
}

/// What an observed change replaced: enough to undo it.
#[derive(Debug)]
pub struct Receipt {
    pub before: Snapshot,
    pub after: Snapshot,
    pub keys: Vec<Key>,
}

pub struct ReceiptV {
    pub before: SnapshotV,
    pub after: SnapshotV,
    pub keys: Seq<Key>,
}

impl View for Receipt {
    type V = ReceiptV;

    open spec fn view(&self) -> ReceiptV {
        ReceiptV { before: self.before@, after: self.after@, keys: self.keys@ }
    }
}

pub open spec fn opt_receipt_view(r: Option<Receipt>) -> Option<ReceiptV> {
    match r {
        Some(x) => Some(x@),
        None => None,
    }
}

/// The state of the last settings operation.
#[derive(Clone, Copy, Debug, PartialEq, Eq, Structural)]
pub enum Status {
    Idle,
    Prepared,
    Writing,
    Observed,
    NoOp,
    WriteFailed,
    Conflict,
    VerificationPending,
    Indeterminate,
}

/// Writes that were made and now wait for the backend to show them.
struct Pending {
    plan: Plan,
    expected: Snapshot,
    undo: bool,
    compensating: bool,
}

pub struct PendingV {
    pub plan: PlanV,
    pub expected: SnapshotV,
    pub undo: bool,
    pub compensating: bool,
}

impl View for Pending {
    type V = PendingV;

    closed spec fn view(&self) -> PendingV {
        PendingV {
            plan: self.plan@,
            expected: self.expected@,
            undo: self.undo,
            compensating: self.compensating,
        }
    }
}

/// What the last operation planned, observed and concluded.
#[derive(Debug)]
pub struct OperationReport {
    pub before: Snapshot,
    pub changes: Changes,
    pub observed: Option<Snapshot>,
    pub status: Status,
}

pub struct ReportV {
    pub before: SnapshotV,
    pub changes: ChangesV,
    pub observed: Option<SnapshotV>,
    pub status: Status,
}

pub open spec fn opt_snapshot_view(s: Option<Snapshot>) -> Option<SnapshotV> {
    match s {
        Some(x) => Some(x@),
        None => None,
    }
}

impl View for OperationReport {
    type V = ReportV;

    open spec fn view(&self) -> ReportV {
        ReportV {
            before: self.before@,
            changes: self.changes@,
            observed: opt_snapshot_view(self.observed),
            status: self.status,
        }
    }
}

/// Plans, applies, verifies and undoes settings changes, one at a time.
pub struct Controller {
    pub undo: Option<Receipt>,
    pub messages: Vec<String>,
    pub last_operation: Option<OperationReport>,
    pending: Option<Pending>,
}

pub struct ControllerV {
    pub undo: Option<ReceiptV>,
    pub messages: Seq<Seq<char>>,
    pub report: Option<ReportV>,
    pub pending: Option<PendingV>,
}

pub open spec fn strings_view(v: Seq<String>) -> Seq<Seq<char>> {
    v.map_values(|s: String| s@)
}

impl View for Controller {
    type V = ControllerV;

    closed spec fn view(&self) -> ControllerV {
        ControllerV {
            undo: opt_receipt_view(self.undo),
            messages: strings_view(self.messages@),
            report: match self.last_operation {
                Some(r) => Some(r@),
                None => None,
            },
            pending: match self.pending {
                Some(p) => Some(p@),
                None => None,
            },
        }
    }
}

impl Default for Controller {
    fn default() -> (r: Self)
        ensures
            r@.undo is None,
            r@.messages.len() == 0,
            r@.report is None,
            r@.pending is None,
    {
        let r = Controller { undo: None, messages: Vec::new(), last_operation: None, pending: None };
        assert(strings_view(r.messages@) =~= seq![]);
        r
    }
}

pub open spec fn busy_msg() -> Seq<char> {
    "A settings change is already in progress"@
}

pub open spec fn conflict_msg() -> Seq<char> {
    "Settings changed externally. Review the current values and apply again."@
}

pub open spec fn restored_msg() -> Seq<char> {
    "Compensation restored the original settings; the requested write failed"@
}

pub open spec fn inconclusive_msg() -> Seq<char> {
    "Verification was inconclusive. Settings may have partially changed; check the current values."@
}

/// A setting after one planned write: the user value becomes the written one,
/// and a written value also becomes the effective one.
pub open spec fn spec_apply_key(s: SnapshotV, k: Key, c: Option<ValueV>) -> SnapshotV {
    match s.get(k) {
        Some(st) => s.set(
            k,
            Some(
                SettingV {
                    effective: match c {
                        Some(v) => v,
                        None => st.effective,
                    },
                    user: c,
                },
            ),
        ),
        None => s,
    }
}

/// The snapshot after the planned writes of the listed keys.
pub open spec fn spec_apply_keys(s: SnapshotV, ch: ChangesV, keys: Seq<Key>) -> SnapshotV
    decreases keys.len(),
{
    if keys.len() == 0 {
        s
    } else {
        let prev = spec_apply_keys(s, ch, keys.drop_last());
        match ch.get(keys.last()) {
            Some(c) => spec_apply_key(prev, keys.last(), c),
            None => prev,
        }
    }
}

/// The settings that a completed plan is expected to show.
pub open spec fn spec_expected(before: SnapshotV, ch: ChangesV) -> SnapshotV {
    spec_apply_keys(before, ch, ch.keys())
}

/// Whether the setting read for one key shows its planned write.
pub open spec fn spec_key_settled(
    now: Option<SettingV>,
    c: Option<Option<ValueV>>,
    expected: Option<SettingV>,
) -> bool {
    match now {
        None => true,
        Some(s) => match c {
            Some(Some(v)) => s.effective == v && s.user == Some(v),
            Some(None) => s.user is None,
            None => expected == Some(s),
        },
    }
}

/// Whether a read snapshot shows the pending writes (or, while compensating,
/// the settings from before the plan).
pub open spec fn spec_settled(p: PendingV, now: SnapshotV) -> bool {
    if p.compensating {
        now == p.plan.before
    } else {
        &&& spec_key_settled(now.theme, p.plan.changes.theme, p.expected.theme)
        &&& spec_key_settled(now.size, p.plan.changes.size, p.expected.size)
        &&& now.len() == p.expected.len()
    }
}

pub open spec fn spec_with_observed(r: Option<ReportV>, n: SnapshotV) -> Option<ReportV> {
    match r {
        Some(rep) => Some(ReportV { observed: Some(n), ..rep }),
        None => None,
    }
}

pub open spec fn spec_with_status(r: Option<ReportV>, s: Status) -> Option<ReportV> {
    match r {
        Some(rep) => Some(ReportV { status: s, ..rep }),
        None => None,
    }
}

pub open spec fn snapshot_result_view(r: Result<Snapshot, String>) -> Result<SnapshotV, Seq<char>> {
    match r {
        Ok(s) => Ok(s@),
        Err(e) => Err(e@),
    }
}

/// One verification step on a read result: the next controller state and status.
pub open spec fn spec_observe(
    c: ControllerV,
    now: Result<SnapshotV, Seq<char>>,
    expired: bool,
) -> (ControllerV, Status) {
    match c.pending {
        None => (c, Status::Idle),
        Some(p) => match now {
            Err(e) => {
                let c1 = ControllerV { messages: c.messages.push(e), ..c };
                if expired {
                    (ControllerV { pending: None, ..c1 }, Status::Indeterminate)
                } else {
                    (c1, Status::VerificationPending)
                }
            },
            Ok(n) => {
                let c1 = ControllerV { report: spec_with_observed(c.report, n), ..c };
                if spec_settled(p, n) {
                    if p.compensating {
                        (
                            ControllerV { pending: None, messages: c1.messages.push(restored_msg()), ..c1 },
                            Status::WriteFailed,
                        )
                    } else if p.undo {
                        (ControllerV { pending: None, undo: None, ..c1 }, Status::Observed)
                    } else {
                        (
                            ControllerV {
                                pending: None,
                                undo: Some(
                                    ReceiptV {
                                        before: p.plan.before,
                                        after: n,
                                        keys: p.plan.changes.keys(),
                                    },
                                ),
                                ..c1
                            },
                            Status::Observed,
                        )
                    }
                } else if expired {
                    (
                        ControllerV {
                            pending: None,
                            messages: c1.messages.push(inconclusive_msg()),
                            ..c1
                        },
                        Status::Indeterminate,
                    )
                } else {
                    (c1, Status::VerificationPending)
                }
            },
        },
    }
}

/// A poll: nothing while idle, else one verification step whose status is
/// also recorded in the report.
pub open spec fn spec_poll(
    c: ControllerV,
    now: Result<SnapshotV, Seq<char>>,
    expired: bool,
) -> (ControllerV, Status) {
    if c.pending is None {
        (c, Status::Idle)
    } else {
        let (c2, s) = spec_observe(c, now, expired);
        (ControllerV { report: spec_with_status(c2.report, s), ..c2 }, s)
    }
}

/// Whether a pending operation is still being written or verified.
fn settled(p: &Pending, now: &Snapshot) -> (r: bool)
    ensures
        r == spec_settled(p@, now@),
{
    if p.compensating {
        return snapshot_eq(now, &p.plan.before);
    }
    key_settled(&now.theme, &p.plan.changes.theme, &p.expected.theme)
        && key_settled(&now.size, &p.plan.changes.size, &p.expected.size)
        && now.len() == p.expected.len()
}

fn key_settled(now: &Option<Setting>, c: &Option<Option<Value>>, expected: &Option<Setting>) -> (r:
    bool)
    ensures
        r == spec_key_settled(opt_setting_view(*now), opt_change_view(*c), opt_setting_view(*expected)),
{
    match now {
        None => true,
        Some(s) => match c {
            Some(Some(v)) => value_eq(&s.effective, v) && opt_value_eq(s.user.as_ref(), Some(v)),
            Some(None) => s.user.is_none(),
            None => match expected {
                Some(e) => setting_eq(e, s),
                None => false,
            },
        },
    }
}

pub proof fn lemma_push_strings(v: Seq<String>, s: String)
    ensures
        strings_view(v.push(s)) == strings_view(v).push(s@),
{
    assert(strings_view(v.push(s)) =~= strings_view(v).push(s@));
}

impl Controller {
    /// Whether writes are pending verification.
    pub fn busy(&self) -> (r: bool)
        ensures
            r == self@.pending is Some,
    {
        self.pending.is_some()
    }

    /// One verification step on the result of reading the settings: a
    /// pending plan that the read shows is concluded (recording an undo
    /// receipt for a forward change, clearing it for an undo), one that it
    /// does not show stays pending until `expired`.
    pub fn observe(&mut self, now: Result<Snapshot, String>, expired: bool) -> (r: Status)
        ensures
            (final(self)@, r) == spec_observe(old(self)@, snapshot_result_view(now), expired),
    {
        if self.pending.is_none() {
            return Status::Idle;
        }
        let now = match now {
            Ok(n) => n,
            Err(e) => {
                proof {
                    lemma_push_strings(self.messages@, e);
                }
                self.messages.push(e);
                if expired {
                    self.pending = None;
                    return Status::Indeterminate;
                }
                return Status::VerificationPending;
            },
        };
        match &mut self.last_operation {
            Some(report) => {
                report.observed = Some(now.clone());
            },
            None => {},
        }
        let p = match self.pending.take() {
            Some(p) => p,
            None => {
                return Status::Idle;
            },
        };
        if settled(&p, &now) {
            if p.compensating {
                let m = String::from_str(
                    "Compensation restored the original settings; the requested write failed",
                );
                proof {
                    lemma_push_strings(self.messages@, m);
                }
                self.messages.push(m);
                return Status::WriteFailed;
            }
            if p.undo {
                self.undo = None;
            } else {
                let keys = p.plan.changes.keys();
                self.undo = Some(Receipt { before: p.plan.before, after: now, keys });
            }
            Status::Observed
        } else if expired {
            let m = String::from_str(
                "Verification was inconclusive. Settings may have partially changed; check the current values.",
            );
            proof {
                lemma_push_strings(self.messages@, m);
            }
            self.messages.push(m);
            Status::Indeterminate
        } else {
            self.pending = Some(p);
            Status::VerificationPending
        }
    }

    /// Reads the settings and takes one verification step; idle controllers
    /// answer `Idle` and change nothing. The status is recorded in the report.
    pub fn poll<P: DesktopSettingsPort>(&mut self, port: &P, expired: bool) -> (r: Status)
        ensures
            old(self)@.pending is None ==> r == Status::Idle && final(self)@ == old(self)@,
            exists|now: Result<SnapshotV, Seq<char>>|
                (final(self)@, r) == #[trigger] spec_poll(old(self)@, now, expired),
    {
        if !self.busy() {
            assert(spec_poll(old(self)@, Err(seq![]), expired) == (old(self)@, Status::Idle));
            return Status::Idle;
        }
        let now = port.read();
        let ghost nv = snapshot_result_view(now);
        let status = self.observe(now, expired);
        match &mut self.last_operation {
            Some(report) => {
                report.status = status;
            },
            None => {},
        }
        assert((self@, status) == spec_poll(old(self)@, nv, expired));
        status
    }
}


/// The planned writes that undo a receipt: each recorded key gets back the
/// user value it had before, where that key was read.
pub open spec fn spec_undo_change(rc: ReceiptV, k: Key) -> Option<Option<ValueV>> {
    if rc.keys.contains(k) {
        match rc.before.get(k) {
            Some(s) => Some(s.user),
            None => None,
        }
    } else {
        None
    }
}

pub open spec fn spec_undo_plan(rc: ReceiptV) -> PlanV {
    PlanV {
        before: rc.after,
        changes: ChangesV {
            theme: spec_undo_change(rc, Key::Theme),
            size: spec_undo_change(rc, Key::Size),
        },
    }
}

/// Whether the theme or size read is `v`.
pub open spec fn spec_effective_is(s: Option<SettingV>, v: ValueV) -> bool {
    match s {
        Some(st) => st.effective == v,
        None => false,
    }
}

/// The writes that realise an intent: the theme, and the size if one is
/// requested, each only where the effective value differs.
pub open spec fn spec_intent_changes(before: SnapshotV, theme: Seq<char>, size: Option<i32>) -> ChangesV {
    ChangesV {
        theme: if spec_effective_is(before.theme, ValueV::Text(theme)) {
            None
        } else {
            Some(Some(ValueV::Text(theme)))
        },
        size: match size {
            None => None,
            Some(n) => if spec_effective_is(before.size, ValueV::Int(n)) {
                None
            } else {
                Some(Some(ValueV::Int(n)))
            },
        },
    }
}

/// What starting a plan leaves pending, for each status it can answer.
pub open spec fn spec_started(plan: PlanV, undo: bool, pending: Option<PendingV>, r: Status) -> bool {
    match r {
        Status::Writing => {
            &&& !plan.changes.is_empty()
            &&& pending == Some(
                PendingV {
                    plan,
                    expected: spec_expected(plan.before, plan.changes),
                    undo,
                    compensating: false,
                },
            )
        },
        Status::VerificationPending => pending matches Some(p) && p.plan == plan && p.compensating
            && !p.undo,
        Status::NoOp => pending is None && plan.changes.is_empty(),
        Status::Conflict => pending is None,
        Status::WriteFailed => pending is None,
        _ => false,
    }
}

/// What the settings read at the start decide: settings unlike the plan's
/// `before` are a conflict; an empty plan needs nothing; otherwise writing
/// goes ahead.
pub open spec fn spec_start_status(plan: PlanV, now: SnapshotV) -> Option<Status> {
    if now != plan.before {
        Some(Status::Conflict)
    } else if plan.changes.is_empty() {
        Some(Status::NoOp)
    } else {
        None
    }
}

/// How the first read decides a start: `read` is what the port gave when
/// the session was writable (`None` when it was read-only or the read
/// failed, which fails the start).
pub open spec fn spec_read_decides(plan: PlanV, read: Option<SnapshotV>, r: Status) -> bool {
    match read {
        Some(now) => match spec_start_status(plan, now) {
            Some(s) => r == s,
            None => r == Status::Writing || r == Status::VerificationPending || r == Status::WriteFailed,
        },
        None => r == Status::WriteFailed,
    }
}

/// Whether key `k` may be put back by compensation: its user value read
/// now is still the one the plan wrote (an external change is never
/// overwritten).
pub open spec fn spec_restorable(now: SnapshotV, plan: PlanV, k: Key) -> bool {
    match (now.get(k), plan.changes.get(k)) {
        (Some(s), Some(t)) => s.user == t,
        (None, None) => true,
        _ => false,
    }
}

/// Decides a start from the settings read now (see `spec_start_status`).
pub fn start_status(plan: &Plan, now: &Snapshot) -> (r: Option<Status>)
    ensures
        r == spec_start_status(plan@, now@),
{
    if !snapshot_eq(now, &plan.before) {
        Some(Status::Conflict)
    } else if plan.changes.is_empty() {
        Some(Status::NoOp)
    } else {
        None
    }
}

/// Whether compensation may rewrite `k` (see `spec_restorable`).
pub fn restorable(now: &Snapshot, plan: &Plan, k: Key) -> (r: bool)
    ensures
        r == spec_restorable(now@, plan@, k),
{
    match (now.get(k), plan.changes.get(k)) {
        (Some(s), Some(t)) => opt_value_eq(s.user.as_ref(), t.as_ref()),
        (None, None) => true,
        _ => false,
    }
}

/// What `begin` guarantees of an idle controller, whatever the port answers.
pub open spec fn spec_began(old: ControllerV, plan: PlanV, undo: bool, new: ControllerV, r: Status) -> bool {
    &&& new.undo == old.undo
    &&& new.report matches Some(rep) && rep.before == plan.before && rep.changes == plan.changes
        && rep.status == r
    &&& spec_started(plan, undo, new.pending, r)
    &&& r == Status::Conflict ==> new.messages == seq![conflict_msg()]
    &&& (r == Status::WriteFailed || r == Status::Conflict) ==> new.messages.len() > 0
}

pub open spec fn spec_user_of(s: SnapshotV, k: Key) -> Option<ValueV> {
    match s.get(k) {
        Some(st) => st.user,
        None => None,
    }
}

impl Snapshot {
    /// Applies one planned write to the expected settings.
    pub fn apply(&mut self, k: Key, c: &Option<Value>)
        ensures
            final(self)@ == spec_apply_key(old(self)@, k, opt_value_view(*c)),
    {
        let slot = match k {
            Key::Theme => &mut self.theme,
            Key::Size => &mut self.size,
        };
        match slot {
            Some(st) => {
                st.user = clone_opt_value(c);
                match c {
                    Some(v) => st.effective = v.clone(),
                    None => {},
                }
            },
            None => {},
        }
    }
}

fn user_of(s: &Snapshot, k: Key) -> (r: Option<&Value>)
    ensures
        ref_value_view(r) == spec_user_of(s@, k),
{
    match s.get(k) {
        Some(st) => st.user.as_ref(),
        None => None,
    }
}

fn effective_is(s: &Snapshot, k: Key, v: &Value) -> (r: bool)
    ensures
        r == spec_effective_is(s@.get(k), v@),
{
    match s.get(k) {
        Some(st) => value_eq(&st.effective, v),
        None => false,
    }
}

/// The plan that undoes a receipt.
pub fn undo_plan(rc: &Receipt) -> (r: Plan)
    ensures
        r@ == spec_undo_plan(rc@),
{
    let mut changes = Changes::new();
    for i in 0..rc.keys.len()
        invariant
            forall|k: Key| #[trigger] changes@.get(k) == (if rc.keys@.take(i as int).contains(k) {
                match rc.before@.get(k) {
                    Some(s) => Some(s.user),
                    None => None,
                }
            } else {
                None
            }),
    {
        let k = rc.keys[i];
        proof {
            assert(rc.keys@.take(i + 1) =~= rc.keys@.take(i as int).push(k));
            assert forall|j: Key| #[trigger] rc.keys@.take(i + 1).contains(j) == (rc.keys@.take(
                i as int,
            ).contains(j) || j == k) by {
                broadcast use vstd::seq_lib::group_seq_properties;

            }
        }
        match rc.before.get(k) {
            Some(s) => changes.insert(k, clone_opt_value(&s.user)),
            None => {},
        }
    }
    proof {
        assert(rc.keys@.take(rc.keys@.len() as int) =~= rc.keys@);
        assert(changes@.get(Key::Theme) == changes@.theme);
        assert(changes@.get(Key::Size) == changes@.size);
    }
    Plan { before: rc.after.clone(), changes }
}

impl Controller {
    fn note(&mut self, m: String)
        ensures
            final(self)@ == (ControllerV { messages: old(self)@.messages.push(m@), ..old(self)@ }),
    {
        proof {
            lemma_push_strings(self.messages@, m);
        }
        self.messages.push(m);
    }

    /// Checks an intent against the backend and reads the settings it will
    /// change; the plan writes only keys whose effective value differs.
    pub fn prepare<P: DesktopSettingsPort>(&self, port: &P, intent: ChangeIntent) -> (r: Result<
        Plan,
        String,
    >)
        ensures
            self@.pending is Some ==> (r matches Err(e) && e@ == busy_msg()),
            self@.pending is None && !intent.resolved ==> r is Err,
            r matches Ok(p) ==> {
                &&& self@.pending is None
                &&& intent.resolved
                &&& p@.changes == spec_intent_changes(p@.before, intent.theme@, intent.size)
                &&& port.read_was(&Ok::<Snapshot, String>(p.before))
                &&& exists|c: Capability| #[trigger] port.capability_was(&c) && c.writable
                &&& validated_ok(port, Key::Theme, ValueV::Text(intent.theme@))
                &&& intent.size matches Some(n) ==> validated_ok(port, Key::Size, ValueV::Int(n))
            },
            self@.pending is None && intent.resolved && (forall|c: Capability| #[trigger] port.capability_was(&c) ==> c.writable)
                && (forall|x: Result<Snapshot, String>| #[trigger] port.read_was(&x) ==> x is Ok) && (forall|
                k: Key,
                v: ValueV,
                x: Result<(), String>,
            | #[trigger] port.validated(k, v, &x) ==> x is Ok) ==> r is Ok,
            r matches Err(e) ==> self@.pending is Some || !intent.resolved || (exists|c: Capability|
                #[trigger] port.capability_was(&c) && !c.writable) || port.read_was(&Err::<Snapshot, String>(e)) || (exists|
                k: Key,
                v: ValueV,
            | #[trigger] port.validated(k, v, &Err::<(), String>(e))),
    {
        if self.busy() {
            return Err(String::from_str("A settings change is already in progress"));
        }
        let cap = port.capability();
        if !cap.writable {
            return Err(String::from_str("This session supports browsing and previewing only"));
        }
        if !intent.resolved {
            return Err(String::from_str("Load a valid preview of the selected theme first"));
        }
        let before = match port.read() {
            Ok(b) => b,
            Err(e) => {
                return Err(e);
            },
        };
        let mut changes = Changes::new();
        let theme = Value::Text(String::from_str(intent.theme.as_str()));
        assert(theme@ == ValueV::Text(intent.theme@));
        let vt = port.validate(Key::Theme, &theme);
        match vt {
            Ok(()) => {
                assert(port.validated(Key::Theme, ValueV::Text(intent.theme@), &vt) && vt is Ok);
            },
            Err(e) => {
                return Err(e);
            },
        }
        if !effective_is(&before, Key::Theme, &theme) {
            changes.insert(Key::Theme, Some(theme));
        }
        match intent.size {
            Some(n) => {
                let size = Value::Int(n);
                assert(size@ == ValueV::Int(n));
                let vs = port.validate(Key::Size, &size);
                match vs {
                    Ok(()) => {
                        assert(port.validated(Key::Size, ValueV::Int(n), &vs) && vs is Ok);
                    },
                    Err(e) => {
                        return Err(e);
                    },
                }
                if !effective_is(&before, Key::Size, &size) {
                    changes.insert(Key::Size, Some(size));
                }
            },
            None => {},
        }
        proof {
            assert(changes@.get(Key::Theme) == changes@.theme);
            assert(changes@.get(Key::Size) == changes@.size);
        }
        Ok(Plan { before, changes })
    }

    /// Starts an idle controller on a plan: records a report, writes the
    /// planned keys and leaves them pending verification. A busy controller
    /// answers `Writing` and changes nothing.
    pub fn begin<P: DesktopSettingsPort>(&mut self, port: &P, plan: Plan, undo: bool) -> (r:
        Status)
        ensures
            old(self)@.pending is Some ==> r == Status::Writing && final(self)@ == old(self)@,
            old(self)@.pending is None ==> spec_began(old(self)@, plan@, undo, final(self)@, r),
            old(self)@.pending is None ==> exists|read: Option<Snapshot>| #[trigger] spec_port_start(port, plan@, read, r),
            old(self)@.pending is None ==> (final(self)@.report matches Some(rep) && exists|x: Result<Snapshot, String>|
                #[trigger] port.read_was(&x) && rep.observed == opt_snapshot_view(
                    match x {
                        Ok(n) => Some(n),
                        Err(_) => None,
                    },
                )),
    {
        if self.busy() {
            return Status::Writing;
        }
        let ghost p = plan@;
        self.last_operation = Some(
            OperationReport {
                before: plan.before.clone(),
                changes: plan.changes.clone(),
                observed: None,
                status: Status::Prepared,
            },
        );
        let (status, read) = self.start_plan(port, plan, undo);
        assert(spec_port_start(port, p, read@, status));
        let answer = port.read();
        let ghost x = answer;
        let observed = match answer {
            Ok(n) => Some(n),
            Err(_) => None,
        };
        match &mut self.last_operation {
            Some(report) => {
                report.status = status;
                report.observed = observed;
            },
            None => {},
        }
        status
    }

    fn start_plan<P: DesktopSettingsPort>(&mut self, port: &P, plan: Plan, undo: bool) -> (r: (
        Status,
        Ghost<Option<Snapshot>>,
    ))
        requires
            old(self)@.pending is None,
        ensures
            final(self)@.undo == old(self)@.undo,
            final(self)@.report == old(self)@.report,
            spec_started(plan@, undo, final(self)@.pending, r.0),
            spec_port_start(port, plan@, r.1@, r.0),
            r.0 == Status::Conflict ==> final(self)@.messages == seq![conflict_msg()],
            (r.0 == Status::WriteFailed || r.0 == Status::Conflict) ==> final(self)@.messages.len() > 0,
    {
        self.messages.clear();
        assert(strings_view(self.messages@) =~= seq![]);
        if !port.capability().writable {
            self.note(String::from_str("Settings are read-only in this session"));
            return (Status::WriteFailed, Ghost(None));
        }
        let now = match port.read() {
            Ok(now) => now,
            Err(e) => {
                self.note(e);
                return (Status::WriteFailed, Ghost(None));
            },
        };
        let ghost read = Some(now);
        match start_status(&plan, &now) {
            Some(Status::Conflict) => {
                self.note(
                    String::from_str(
                        "Settings changed externally. Review the current values and apply again.",
                    ),
                );
                assert(self@.messages =~= seq![conflict_msg()]);
                return (Status::Conflict, Ghost(read));
            },
            Some(s) => {
                return (s, Ghost(read));
            },
            None => {},
        }
        let mut expected = plan.before.clone();
        let mut written: Vec<Key> = Vec::new();
        let keys = plan.changes.keys();
        for i in 0..keys.len()
            invariant
                keys@ == plan@.changes.keys(),
                read == Some(now),
                port.read_was(&Ok::<Snapshot, String>(now)),
                forall|j: int| 0 <= j < i ==> #[trigger] wrote_ok(port, plan@, keys@[j]),
                spec_start_status(plan@, now@) is None,
                self@.pending is None,
                self@.undo == old(self)@.undo,
                self@.report == old(self)@.report,
                expected@ == spec_apply_keys(plan@.before, plan@.changes, keys@.take(i as int)),
        {
            let key = keys[i];
            proof {
                assert(plan@.changes.get(key) is Some);
                assert(keys@.take(i + 1).drop_last() =~= keys@.take(i as int));
            }
            let value = match plan.changes.get(key) {
                Some(v) => v,
                None => {
                    assert(false);
                    return (Status::WriteFailed, Ghost(read));
                },
            };
            let vr = value.as_ref();
            let w = port.write(key, vr);
            proof {
                assert(opt_value_view(*value) == plan@.changes.get(key).unwrap());
                assert(match vr { Some(v) => Some(v@), None => None::<ValueV> } == opt_value_view(*value));
            }
            match w {
                Ok(()) => {
                    proof {
                        assert(port.wrote(keys@[i as int], plan@.changes.get(keys@[i as int]).unwrap(), &w) && w is Ok);
                        assert(wrote_ok(port, plan@, keys@[i as int]));
                    }
                },
                Err(e) => {
                    proof {
                        assert(port.wrote(keys@[i as int], plan@.changes.get(keys@[i as int]).unwrap(), &Err::<(), String>(e)));
                    }
                    let mut m = concat3("Write to ", key.name(), " failed: ");
                    m.append(e.as_str());
                    self.note(m);
                    match port.read() {
                        Ok(now) => {
                            if opt_value_eq(user_of(&now, key), value.as_ref()) {
                                written.push(key);
                            }
                        },
                        Err(_) => {},
                    }
                    return (self.compensate(port, &plan, &written, &expected), Ghost(read));
                },
            }
            written.push(key);
            expected.apply(key, value);
        }
        assert(keys@.take(keys@.len() as int) =~= keys@);
        self.pending = Some(Pending { plan, expected, undo, compensating: false });
        (Status::Writing, Ghost(read))
    }

    fn compensate<P: DesktopSettingsPort>(
        &mut self,
        port: &P,
        plan: &Plan,
        keys: &Vec<Key>,
        expected: &Snapshot,
    ) -> (r: Status)
        requires
            old(self)@.pending is None,
            old(self)@.messages.len() > 0,
        ensures
            final(self)@.undo == old(self)@.undo,
            final(self)@.report == old(self)@.report,
            final(self)@.messages.len() >= old(self)@.messages.len(),
            r == Status::VerificationPending ==> final(self)@.pending == Some(
                PendingV { plan: plan@, expected: expected@, undo: false, compensating: true },
            ),
            r == Status::WriteFailed ==> final(self)@.pending is None,
            r == Status::VerificationPending || r == Status::WriteFailed,
            keys@.len() == 0 ==> r == Status::WriteFailed,
            r == Status::VerificationPending ==> exists|reads: Seq<Snapshot>| #![trigger reads.len()]
                reads.len() == keys@.len() && forall|i: int| 0 <= i < keys@.len() ==> compensated(port, plan@, reads[i], #[trigger] keys@[i]),
    {
        let mut restored = true;
        let ghost mut reads: Seq<Snapshot> = seq![];
        for i in 0..keys.len()
            invariant
                self@.undo == old(self)@.undo,
                self@.report == old(self)@.report,
                self@.pending is None,
                self@.messages.len() >= old(self)@.messages.len(),
                restored ==> reads.len() == i && forall|j: int| 0 <= j < i ==> compensated(port, plan@, reads[j], #[trigger] keys@[j]),
        {
            let key = keys[i];
            let answer = port.read();
            match answer {
                Err(e) => {
                    self.note(e);
                    restored = false;
                },
                Ok(now) => {
                    let same = restorable(&now, plan, key);
                    let ghost read = now;
                    if !same {
                        self.note(
                            concat2(key.name(), " changed externally; compensation was skipped"),
                        );
                        restored = false;
                    } else {
                        match plan.before.get(key) {
                            Some(old) => {
                                let ur = old.user.as_ref();
                                let w = port.write(key, ur);
                                proof {
                                    assert(match ur { Some(v) => Some(v@), None => None::<ValueV> } == spec_user_of(plan@.before, key));
                                }
                                match w {
                                    Ok(()) => {
                                        proof {
                                            assert(port.wrote(key, spec_user_of(plan@.before, key), &w) && w is Ok);
                                        }
                                    },
                                    Err(e) => {
                                        let mut m = concat3("Compensation for ", key.name(), " failed: ");
                                        m.append(e.as_str());
                                        self.note(m);
                                        restored = false;
                                    },
                                }
                            },
                            None => {},
                        }
                        proof {
                            if restored {
                                assert(compensated(port, plan@, read, keys@[i as int]));
                                reads = reads.push(read);
                            }
                        }
                    }
                },
            }
        }
        if restored && keys.len() > 0 {
            assert(reads.len() == keys@.len());
            self.pending = Some(
                Pending {
                    plan: plan.clone(),
                    expected: expected.clone(),
                    undo: false,
                    compensating: true,
                },
            );
            Status::VerificationPending
        } else {
            Status::WriteFailed
        }
    }

    /// Starts undoing the last observed change: the receipt's keys get back
    /// their earlier user values, planned against the settings observed after
    /// that change. Without a receipt nothing happens.
    pub fn begin_undo<P: DesktopSettingsPort>(&mut self, port: &P) -> (r: Status)
        ensures
            old(self)@.undo is None ==> r == Status::NoOp && final(self)@ == old(self)@,
            old(self)@.undo matches Some(rc) ==> {
                &&& old(self)@.pending is Some ==> r == Status::Writing && final(self)@ == old(
                    self,
                )@
                &&& old(self)@.pending is None ==> spec_began(
                    old(self)@,
                    spec_undo_plan(rc),
                    true,
                    final(self)@,
                    r,
                )
                &&& old(self)@.pending is None ==> exists|read: Option<Snapshot>| #[trigger] spec_port_start(port, spec_undo_plan(rc), read, r)
            },
    {
        let plan = match &self.undo {
            None => {
                return Status::NoOp;
            },
            Some(rc) => undo_plan(rc),
        };
        self.begin(port, plan, true)
    }
}


/// The pending state that `begin_undo` creates for a receipt, once its
/// writes succeeded.
pub open spec fn spec_undo_pending(rc: ReceiptV) -> PendingV {
    let plan = spec_undo_plan(rc);
    PendingV { plan, expected: spec_expected(plan.before, plan.changes), undo: true, compensating: false }
}

/// Undo restores: once the backend shows an undo plan, every recorded key
/// that was read before the change has its earlier user value again.
pub proof fn law_undo_restores_user_values(rc: ReceiptV, now: SnapshotV)
    requires
        spec_settled(spec_undo_pending(rc), now),
    ensures
        forall|k: Key|
            rc.keys.contains(k) && rc.before.get(k) is Some && now.get(k) is Some
                ==> #[trigger] spec_user_of(now, k) == spec_user_of(rc.before, k),
{
    assert forall|k: Key|
        rc.keys.contains(k) && rc.before.get(k) is Some && now.get(k) is Some
            implies #[trigger] spec_user_of(now, k) == spec_user_of(rc.before, k) by {
        match k {
            Key::Theme => {},
            Key::Size => {},
        }
    }
}

/// Apply, then undo: after a forward change was observed and the undo of its
/// receipt was observed in turn, every changed key that had been read before
/// has the user value it had before the change.
pub proof fn law_apply_then_undo(c: ControllerV, n: SnapshotV, expired: bool, m: SnapshotV)
    requires
        c.pending matches Some(p) && !p.undo && !p.compensating,
        spec_observe(c, Ok(n), expired).1 == Status::Observed,
        spec_observe(c, Ok(n), expired).0.undo matches Some(rc) && spec_settled(
            spec_undo_pending(rc),
            m,
        ),
    ensures
        forall|k: Key|
            c.pending.unwrap().plan.changes.get(k) is Some && c.pending.unwrap().plan.before.get(k) is Some
                && m.get(k) is Some ==> #[trigger] spec_user_of(m, k) == spec_user_of(
                c.pending.unwrap().plan.before,
                k,
            ),
{
    let p = c.pending.unwrap();
    let rc = spec_observe(c, Ok(n), expired).0.undo.unwrap();
    assert(rc.keys == p.plan.changes.keys());
    assert(rc.before == p.plan.before);
    law_undo_restores_user_values(rc, m);
    assert forall|k: Key|
        p.plan.changes.get(k) is Some && p.plan.before.get(k) is Some && m.get(k) is Some
            implies #[trigger] spec_user_of(m, k) == spec_user_of(p.plan.before, k) by {
        match k {
            Key::Theme => {
                assert(rc.keys[0] == Key::Theme);
                assert(rc.keys.contains(Key::Theme));
            },
            Key::Size => {
                assert(rc.keys[rc.keys.len() - 1] == Key::Size);
                assert(rc.keys.contains(Key::Size));
            },
        }
    }
}

/// Only an observed change replaces or clears the undo receipt.
pub proof fn law_undo_changes_only_when_observed(
    c: ControllerV,
    now: Result<SnapshotV, Seq<char>>,
    expired: bool,
)
    ensures
        spec_poll(c, now, expired).0.undo != c.undo ==> spec_poll(c, now, expired).1
            == Status::Observed,
{
}

/// An expired verification always concludes: the controller is idle after it.
pub proof fn law_expired_poll_concludes(
    c: ControllerV,
    now: Result<SnapshotV, Seq<char>>,
)
    ensures
        spec_poll(c, now, true).0.pending is None,
{
}

/// Verifying a compensation never records an undo receipt.
pub proof fn law_compensation_keeps_undo(
    c: ControllerV,
    now: Result<SnapshotV, Seq<char>>,
    expired: bool,
)
    requires
        c.pending matches Some(p) && p.compensating,
    ensures
        spec_poll(c, now, expired).0.undo == c.undo,
        spec_poll(c, now, expired).1 != Status::Observed,
{
}

/// A change never overwrites an external one and an empty change does
/// nothing: when the settings read at the start differ from those the plan
/// was made from, the start is a conflict; when they match and nothing is
/// to change, it is a no-op. Either way nothing is pending and the undo
/// history stays.
pub proof fn law_start_keeps_history(
    c: ControllerV,
    plan: PlanV,
    now: SnapshotV,
    new: ControllerV,
    r: Status,
)
    requires
        c.pending is None,
        now != plan.before || plan.changes.is_empty(),
        spec_began(c, plan, false, new, r),
        spec_read_decides(plan, Some(now), r),
    ensures
        r == (if now != plan.before { Status::Conflict } else { Status::NoOp }),
        new.undo == c.undo,
        new.pending is None,
{
}

/// Undo stops on an external change: when the settings read before an undo
/// are not what the undone change left, the undo is refused as a conflict,
/// nothing is left pending and the receipt stays for a later undo.
pub proof fn law_undo_stops_on_external_change(
    c: ControllerV,
    rc: ReceiptV,
    now: SnapshotV,
    new: ControllerV,
    r: Status,
)
    requires
        c.undo == Some(rc),
        c.pending is None,
        now != rc.after,
        spec_began(c, spec_undo_plan(rc), true, new, r),
        spec_read_decides(spec_undo_plan(rc), Some(now), r),
    ensures
        r == Status::Conflict,
        new.undo == Some(rc),
        new.pending is None,
{
}

/// Undo writes back what the undone change replaced: once an undo starts
/// writing, every key the change owned and read before it was written with
/// its user value from before the change (none, a reset, where there was
/// none).
pub proof fn law_undo_writes_earlier_values<P: DesktopSettingsPort>(port: &P, rc: ReceiptV, read: Option<Snapshot>)
    requires
        spec_port_start(port, spec_undo_plan(rc), read, Status::Writing),
    ensures
        forall|k: Key|
            rc.keys.contains(k) && rc.before.get(k) is Some ==> exists|x: Result<(), String>|
                #[trigger] port.wrote(k, spec_user_of(rc.before, k), &x) && x is Ok,
{
    let keys = spec_undo_plan(rc).changes.keys();
    assert forall|k: Key| rc.keys.contains(k) && rc.before.get(k) is Some implies exists|x: Result<(), String>|
        #[trigger] port.wrote(k, spec_user_of(rc.before, k), &x) && x is Ok by {
        match k {
            Key::Theme => {
                assert(keys[0] == Key::Theme);
                assert(wrote_ok(port, spec_undo_plan(rc), keys[0]));
            },
            Key::Size => {
                let i = if spec_undo_plan(rc).changes.theme is Some { 1int } else { 0int };
                assert(keys[i] == Key::Size);
                assert(wrote_ok(port, spec_undo_plan(rc), keys[i]));
            },
        }
    }
}

/// The effective cursor theme of a snapshot, when it holds one as text.
pub fn current_theme(s: &Snapshot) -> (r: Option<&str>)
    ensures
        match s@.theme {
            Some(t) => match t.effective {
                ValueV::Text(x) => r matches Some(y) && y@ == x,
                ValueV::Int(_) => r is None,
            },
            None => r is None,
        },
{
    match &s.theme {
        Some(t) => match &t.effective {
            Value::Text(x) => Some(x.as_str()),
            Value::Int(_) => None,
        },
        None => None,
    }
}

/// The effective cursor size of a snapshot, 24 when it holds none.
pub fn cursor_size(s: &Snapshot) -> (r: i32)
    ensures
        r == match s@.size {
            Some(t) => match t.effective {
                ValueV::Int(n) => n,
                ValueV::Text(_) => 24,
            },
            None => 24,
        },
{
    match &s.size {
        Some(t) => match &t.effective {
            Value::Int(n) => *n,
            Value::Text(_) => 24,
        },
        None => 24,
    }
}

/// The name of a status.
pub open spec fn status_name(s: Status) -> Seq<char> {
    match s {
        Status::Idle => "Idle"@,
        Status::Prepared => "Prepared"@,
        Status::Writing => "Writing"@,
        Status::Observed => "Observed"@,
        Status::NoOp => "NoOp"@,
        Status::WriteFailed => "WriteFailed"@,
        Status::Conflict => "Conflict"@,
        Status::VerificationPending => "VerificationPending"@,
        Status::Indeterminate => "Indeterminate"@,
    }
}

fn status_str(s: Status) -> (r: &'static str)
    ensures
        r@ == status_name(s),
{
    match s {
        Status::Idle => "Idle",
        Status::Prepared => "Prepared",
        Status::Writing => "Writing",
        Status::Observed => "Observed",
        Status::NoOp => "NoOp",
        Status::WriteFailed => "WriteFailed",
        Status::Conflict => "Conflict",
        Status::VerificationPending => "VerificationPending",
        Status::Indeterminate => "Indeterminate",
    }
}

/// What the user is told after an operation: success, nothing to do,
/// waiting, or the status with the controller's messages joined by "; ".
pub open spec fn spec_outcome(s: Status, messages: Seq<Seq<char>>) -> Seq<char> {
    match s {
        Status::Observed => "Settings updated. Please check your actual pointer."@,
        Status::NoOp => "Already in use. No settings were changed."@,
        Status::Writing | Status::VerificationPending => "Applying settings… waiting for verification."@,
        _ => status_name(s) + ": "@ + crate::classification::spec_join_with(messages, "; "@),
    }
}

/// The outcome text of an operation (see `spec_outcome`).
pub fn outcome_text(status: Status, messages: &Vec<String>) -> (r: String)
    ensures
        r@ == spec_outcome(status, strings_view(messages@)),
{
    match status {
        Status::Observed => String::from_str("Settings updated. Please check your actual pointer."),
        Status::NoOp => String::from_str("Already in use. No settings were changed."),
        Status::Writing | Status::VerificationPending => String::from_str("Applying settings… waiting for verification."),
        _ => {
            let joined = crate::classification::join_with(messages, "; ");
            concat3(status_str(status), ": ", joined.as_str())
        },
    }
}

} // verus!
