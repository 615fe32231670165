use cursormochi::model::ThemeName;
use cursormochi::settings::{
    current_theme, cursor_size, outcome_text,
    Capability, ChangeIntent, Controller, DesktopSettingsPort, Key, Setting, Snapshot, Status, Value,
    ValueV,
};
use std::cell::{Cell, RefCell};

struct Fake {
    state: RefCell<Snapshot>,
    writes: RefCell<Vec<Key>>,
    fail: Cell<Option<Key>>,
    silent: Cell<bool>,
    fail_reset: Cell<bool>,
    external_on_failure: Cell<bool>,
    read_error: Cell<bool>,
}

impl Fake {
    fn new() -> Self {
        let mut s = Snapshot::new();
        s.insert(Key::Theme, Setting { effective: Value::Text("A".into()), user: None });
        s.insert(Key::Size, Setting { effective: Value::Int(24), user: None });
        Self {
            state: RefCell::new(s),
            writes: RefCell::new(vec![]),
            fail: Cell::new(None),
            silent: Cell::new(false),
            fail_reset: Cell::new(false),
            external_on_failure: Cell::new(false),
            read_error: Cell::new(false),
        }
    }
}

impl DesktopSettingsPort for Fake {
    fn capability_was(&self, _: &Capability) -> bool {
        true
    }
    fn read_was(&self, _: &Result<Snapshot, String>) -> bool {
        true
    }
    fn validated(&self, _: Key, _: ValueV, _: &Result<(), String>) -> bool {
        true
    }
    fn wrote(&self, _: Key, _: Option<ValueV>, _: &Result<(), String>) -> bool {
        true
    }
    fn capability(&self) -> Capability {
        Capability { writable: true, details: vec![] }
    }
    fn read(&self) -> Result<Snapshot, String> {
        if self.read_error.get() {
            return Err("injected read error".into());
        }
        Ok(self.state.borrow().clone())
    }
    fn validate(&self, _: Key, _: &Value) -> Result<(), String> {
        Ok(())
    }
    fn write(&self, k: Key, v: Option<&Value>) -> Result<(), String> {
        self.writes.borrow_mut().push(k);
        if self.fail.get() == Some(k) {
            if self.external_on_failure.get() {
                self.state.borrow_mut().insert(
                    Key::Theme,
                    Setting {
                        effective: Value::Text("external".into()),
                        user: Some(Value::Text("external".into())),
                    },
                );
            }
            return Err("injected".into());
        }
        if v.is_none() && self.fail_reset.get() {
            return Err("injected reset failure".into());
        }
        if self.silent.get() {
            return Ok(());
        }
        self.state.borrow_mut().insert(
            k,
            Setting {
                effective: v.cloned().unwrap_or_else(|| match k {
                    Key::Theme => Value::Text("A".into()),
                    Key::Size => Value::Int(24),
                }),
                user: v.cloned(),
            },
        );
        Ok(())
    }
}

fn intent(theme: &str, size: Option<i32>) -> ChangeIntent {
    ChangeIntent { theme: ThemeName::new(theme).unwrap(), size, resolved: true }
}

fn apply(c: &mut Controller, f: &Fake, t: &str) -> Status {
    let p = c.prepare(f, intent(t, None)).unwrap();
    let s = c.begin(f, p, false);
    if s == Status::Writing {
        c.poll(f, false)
    } else {
        s
    }
}

fn effective(f: &Fake, k: Key) -> Value {
    f.read().unwrap().get(k).unwrap().effective.clone()
}

fn user(f: &Fake, k: Key) -> Option<Value> {
    f.read().unwrap().get(k).unwrap().user.clone()
}

#[test]
fn single_undo_and_reset() {
    let f = Fake::new();
    let mut c = Controller::default();
    assert_eq!(apply(&mut c, &f, "B"), Status::Observed);
    assert_eq!(apply(&mut c, &f, "C"), Status::Observed);
    c.begin_undo(&f);
    assert_eq!(c.poll(&f, false), Status::Observed);
    assert_eq!(effective(&f, Key::Theme), Value::Text("B".into()));
    assert!(c.undo.is_none());
    assert!(f.writes.borrow().iter().all(|k| *k == Key::Theme));
    let f = Fake::new();
    apply(&mut c, &f, "B");
    c.begin_undo(&f);
    c.poll(&f, false);
    assert!(user(&f, Key::Theme).is_none());
}

#[test]
fn noop_preserves_history_and_external_conflicts() {
    let f = Fake::new();
    let mut c = Controller::default();
    apply(&mut c, &f, "B");
    assert_eq!(apply(&mut c, &f, "B"), Status::NoOp);
    assert!(c.undo.is_some());
    f.write(Key::Size, Some(&Value::Int(32))).unwrap();
    assert_eq!(c.begin_undo(&f), Status::Conflict);
}

#[test]
fn plan_conflict() {
    let f = Fake::new();
    let mut c = Controller::default();
    let p = c.prepare(&f, intent("B", None)).unwrap();
    f.write(Key::Theme, Some(&Value::Text("D".into()))).unwrap();
    assert_eq!(c.begin(&f, p, false), Status::Conflict);
}

#[test]
fn partial_failure_compensates() {
    let f = Fake::new();
    f.fail.set(Some(Key::Size));
    let mut c = Controller::default();
    let p = c.prepare(&f, intent("B", Some(32))).unwrap();
    assert_eq!(c.begin(&f, p, false), Status::VerificationPending);
    assert_eq!(c.poll(&f, false), Status::WriteFailed);
    assert!(user(&f, Key::Theme).is_none());
    assert!(c.undo.is_none());
}

#[test]
fn delayed_and_serialized() {
    let f = Fake::new();
    f.silent.set(true);
    let mut c = Controller::default();
    assert_eq!(apply(&mut c, &f, "B"), Status::VerificationPending);
    assert!(c.busy());
    assert_eq!(c.poll(&f, true), Status::Indeterminate);
    assert!(c.undo.is_none());
}

#[test]
fn setter_failure_and_failed_compensation_visible() {
    let f = Fake::new();
    let mut c = Controller::default();
    f.fail.set(Some(Key::Theme));
    assert_eq!(apply(&mut c, &f, "B"), Status::WriteFailed);
    assert!(c.undo.is_none());
    f.fail.set(Some(Key::Size));
    f.fail_reset.set(true);
    let p = c.prepare(&f, intent("B", Some(32))).unwrap();
    assert_eq!(c.begin(&f, p, false), Status::WriteFailed);
    assert!(c.messages.iter().any(|s| s.contains("Write")));
    assert!(c.messages.iter().any(|s| s.contains("Compensation")));
    assert_eq!(effective(&f, Key::Theme), Value::Text("B".into()));
}

#[test]
fn external_change_during_partial_failure_is_not_overwritten() {
    let f = Fake::new();
    let mut c = Controller::default();
    f.fail.set(Some(Key::Size));
    f.external_on_failure.set(true);
    let p = c.prepare(&f, intent("B", Some(32))).unwrap();
    assert_eq!(c.begin(&f, p, false), Status::WriteFailed);
    assert_eq!(effective(&f, Key::Theme), Value::Text("external".into()));
}

#[test]
fn delayed_observation_and_read_failure() {
    let f = Fake::new();
    let mut c = Controller::default();
    f.silent.set(true);
    assert_eq!(apply(&mut c, &f, "B"), Status::VerificationPending);
    f.silent.set(false);
    f.write(Key::Theme, Some(&Value::Text("B".into()))).unwrap();
    assert_eq!(c.poll(&f, false), Status::Observed);
    f.silent.set(true);
    assert_eq!(apply(&mut c, &f, "C"), Status::VerificationPending);
    f.read_error.set(true);
    assert_eq!(c.poll(&f, true), Status::Indeterminate);
}

#[test]
fn read_only_work_has_no_writes_and_no_restart_history() {
    let f = Fake::new();
    let c = Controller::default();
    f.read().unwrap();
    f.capability();
    c.prepare(&f, intent("B", None)).unwrap();
    assert!(f.writes.borrow().is_empty());
    assert!(c.undo.is_none());
}

#[test]
fn observe_without_pending_work_is_idle_and_snapshot_counts_keys() {
    let mut c = Controller::default();
    let mut s = Snapshot::new();
    assert_eq!(s.len(), 0);
    s.insert(Key::Size, Setting { effective: Value::Int(24), user: None });
    assert_eq!(s.len(), 1);
    assert!(!c.busy());
    let _ = c.observe(Ok(s), false);
    assert!(!c.busy());
}

#[test]
fn snapshot_values_and_outcome_texts() {
    let f = Fake::new();
    let s = f.read().unwrap();
    assert_eq!(current_theme(&s), Some("A"));
    assert_eq!(cursor_size(&s), 24);
    assert_eq!(cursor_size(&Snapshot::new()), 24);
    assert_eq!(current_theme(&Snapshot::new()), None);
    assert_eq!(outcome_text(Status::Observed, &vec![]), "Settings updated. Please check your actual pointer.");
    assert_eq!(outcome_text(Status::NoOp, &vec![]), "Already in use. No settings were changed.");
    assert_eq!(
        outcome_text(Status::WriteFailed, &vec!["a".into(), "b".into()]),
        "WriteFailed: a; b"
    );
}
