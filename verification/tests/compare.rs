use mitame::compare::{
    compare, compare_step, is_failure, DiffFacts, Dimensions, Need, PairFacts, Step,
};
use mitame::config::{Policy, Severity};
use mitame::identity::Identity;
use mitame::layout::Layout;
use mitame::result::{DiffBounds, Entry, Ratio, Status};
use mitame::sidecar::{SidecarFields, SidecarRaw};

fn layout() -> Layout {
    Layout::new(".mitame".to_string(), "default".to_string())
}

fn id(text: &str) -> Identity {
    Identity::parse(text).unwrap()
}

fn need(layout: &Layout, id: &Identity, facts: &PairFacts) -> Need {
    match compare_step(layout, id, facts, "0.2.0") {
        Step::Need(n) => n,
        Step::Done(e) => panic!("finished early: {:?}", e),
    }
}

fn done(layout: &Layout, id: &Identity, facts: &PairFacts) -> Entry {
    match compare_step(layout, id, facts, "0.2.0") {
        Step::Done(e) => e,
        Step::Need(n) => panic!("still needs {:?}", n),
    }
}

fn sidecar(id: &str) -> SidecarRaw {
    SidecarRaw::Versioned(
        1,
        Ok(SidecarFields {
            id: id.to_string(),
            captured_at: Some("2026-01-01T00:00:00Z".to_string()),
        }),
    )
}

#[test]
fn identical_bytes_are_unchanged() {
    let l = layout();
    let x = id("flutter/a/x");
    let mut facts = PairFacts::new(true, true);
    assert_eq!(need(&l, &x, &facts), Need::CurrentSidecar);
    facts.current_sidecar = Some(SidecarRaw::Absent);
    assert_eq!(need(&l, &x, &facts), Need::BaselineSidecar);
    facts.baseline_sidecar = Some(SidecarRaw::Absent);
    assert_eq!(need(&l, &x, &facts), Need::Bytes);
    facts.bytes_equal = Some(Ok(true));
    let e = done(&l, &x, &facts);
    assert_eq!(e.status, Status::Unchanged);
    assert_eq!(e.id, "flutter/a/x");
    assert_eq!(e.diff_pixels, Some(0));
    assert_eq!(e.baseline.as_deref(), Some("baseline/default/flutter/a/x.png"));
    assert_eq!(e.current.as_deref(), Some("current/default/flutter/a/x.png"));
    assert_eq!(e.diff, None);
    assert_eq!(e.message, None);
}

#[test]
fn differing_pixels_over_the_allowance_are_changed() {
    let l = layout();
    let x = id("flutter/a/big");
    let mut facts = PairFacts::new(true, true);
    facts.current_sidecar = Some(sidecar("flutter/a/big"));
    facts.baseline_sidecar = Some(sidecar("flutter/a/big"));
    facts.bytes_equal = Some(Ok(false));
    assert_eq!(need(&l, &x, &facts), Need::Dimensions);
    facts.dimensions = Some(Ok(Dimensions {
        baseline_width: 20,
        baseline_height: 20,
        current_width: 20,
        current_height: 20,
    }));
    assert_eq!(need(&l, &x, &facts), Need::Scale);
    facts.scale = Some(None);
    assert_eq!(need(&l, &x, &facts), Need::Diff);
    let bounds = DiffBounds { x: 2, y: 3, width: 4, height: 5 };
    facts.diff = Some(Ok(DiffFacts { diff_pixels: 20, diff_bounds: Some(bounds), changed: true }));
    let e = done(&l, &x, &facts);
    assert_eq!(e.status, Status::Changed);
    assert_eq!(e.diff_pixels, Some(20));
    assert_eq!(e.diff_ratio, Some(Ratio { num: 20, den: 400 }));
    assert_eq!(e.diff_bounds, Some(bounds));
    assert_eq!(e.diff.as_deref(), Some("report/diff/flutter/a/big.png"));
    assert_eq!(e.captured_at.as_deref(), Some("2026-01-01T00:00:00Z"));
}

#[test]
fn differing_pixels_within_the_allowance_are_unchanged() {
    let l = layout();
    let x = id("ios/a/same");
    let mut facts = PairFacts::new(true, true);
    facts.current_sidecar = Some(SidecarRaw::Absent);
    facts.baseline_sidecar = Some(SidecarRaw::Absent);
    facts.bytes_equal = Some(Ok(false));
    facts.dimensions = Some(Ok(Dimensions {
        baseline_width: 10,
        baseline_height: 10,
        current_width: 10,
        current_height: 10,
    }));
    facts.diff = Some(Ok(DiffFacts { diff_pixels: 0, diff_bounds: None, changed: false }));
    let e = done(&l, &x, &facts);
    assert_eq!(e.status, Status::Unchanged);
    assert_eq!(e.diff, None);
    assert_eq!(e.diff_ratio, Some(Ratio { num: 0, den: 100 }));
}

#[test]
fn other_dimensions_are_a_mismatch() {
    let l = layout();
    let x = id("flutter/a/resized");
    let mut facts = PairFacts::new(true, true);
    facts.current_sidecar = Some(SidecarRaw::Absent);
    facts.baseline_sidecar = Some(SidecarRaw::Absent);
    facts.bytes_equal = Some(Ok(false));
    facts.dimensions = Some(Ok(Dimensions {
        baseline_width: 20,
        baseline_height: 20,
        current_width: 30,
        current_height: 20,
    }));
    let e = done(&l, &x, &facts);
    assert_eq!(e.status, Status::Mismatch);
    assert_eq!(
        e.message.as_deref(),
        Some("dimensions differ: baseline 20x20, current 30x20")
    );
}

#[test]
fn one_side_missing_is_added_or_removed() {
    let l = layout();
    let x = id("flutter/a/new");
    let mut facts = PairFacts::new(false, true);
    facts.current_sidecar = Some(SidecarRaw::Absent);
    let e = done(&l, &x, &facts);
    assert_eq!(e.status, Status::Added);
    assert_eq!(e.baseline, None);
    let facts = PairFacts::new(true, false);
    assert_eq!(need(&l, &x, &facts), Need::BaselineSidecar);
    let mut facts = PairFacts::new(true, false);
    facts.baseline_sidecar = Some(SidecarRaw::Absent);
    let e = done(&l, &x, &facts);
    assert_eq!(e.status, Status::Removed);
    assert_eq!(e.current, None);
}

#[test]
fn bad_sidecars_are_errors_before_any_pixel_check() {
    let l = layout();
    let x = id("ios/x");
    let mut facts = PairFacts::new(true, true);
    facts.current_sidecar = Some(SidecarRaw::NoVersion);
    let e = done(&l, &x, &facts);
    assert_eq!(e.status, Status::Error);
    let m = e.message.unwrap();
    assert!(m.contains("current sidecar is invalid"), "{m}");

    let mut facts = PairFacts::new(true, true);
    facts.current_sidecar = Some(SidecarRaw::Absent);
    facts.baseline_sidecar = Some(SidecarRaw::Versioned(99, Err("missing field".to_string())));
    let e = done(&l, &x, &facts);
    assert_eq!(e.status, Status::Error);
    let m = e.message.unwrap();
    assert!(m.contains("baseline sidecar has schema_version 99"), "{m}");
    assert!(m.contains("0.2.0"), "{m}");

    let mut facts = PairFacts::new(true, true);
    facts.current_sidecar = Some(sidecar("ios/other"));
    let e = done(&l, &x, &facts);
    assert_eq!(e.status, Status::Error);
    assert_eq!(
        e.message.as_deref(),
        Some("current sidecar id `ios/other` does not match path identity `ios/x`")
    );
}

#[test]
fn a_failed_read_is_an_error_entry() {
    let l = layout();
    let x = id("flutter/a/x");
    let mut facts = PairFacts::new(true, true);
    facts.current_sidecar = Some(SidecarRaw::Absent);
    facts.baseline_sidecar = Some(SidecarRaw::Absent);
    facts.bytes_equal = Some(Ok(false));
    facts.dimensions = Some(Err("could not decode current: not a png".to_string()));
    let e = done(&l, &x, &facts);
    assert_eq!(e.status, Status::Error);
    assert_eq!(e.message.as_deref(), Some("could not decode current: not a png"));
}

#[test]
fn neither_side_is_an_error() {
    let l = layout();
    let x = id("flutter/a/x");
    let facts = PairFacts::new(false, false);
    let e = done(&l, &x, &facts);
    assert_eq!(e.status, Status::Error);
    assert_eq!(e.message.as_deref(), Some("neither baseline nor current exists"));
}

fn entry(id: &str, status: Status) -> Entry {
    Entry {
        id: id.to_string(),
        status,
        diff_ratio: None,
        diff_pixels: None,
        diff_bounds: None,
        baseline: None,
        current: None,
        diff: None,
        message: None,
        captured_at: None,
    }
}

#[test]
fn the_policy_decides_what_fails() {
    let p = Policy::default();
    assert!(is_failure(&p, Status::Changed));
    assert!(is_failure(&p, Status::Mismatch));
    assert!(!is_failure(&p, Status::Added));
    assert!(!is_failure(&p, Status::Removed));
    assert!(!is_failure(&p, Status::Unchanged));
    assert!(!is_failure(&p, Status::Error));
    let strict = Policy { added: Severity::Fail, removed: Severity::Fail, mismatch: Severity::Warn };
    assert!(is_failure(&strict, Status::Added));
    assert!(is_failure(&strict, Status::Removed));
    assert!(!is_failure(&strict, Status::Mismatch));
}

#[test]
fn summary_counts_each_status() {
    let entries = vec![
        entry("a/b", Status::Unchanged),
        entry("a/c", Status::Changed),
        entry("a/d", Status::Unchanged),
        entry("a/e", Status::Added),
        entry("a/f", Status::Error),
    ];
    let out = compare(&Policy::default(), "linux".to_string(), "0.2.0".to_string(), entries);
    let s = out.result.summary;
    assert_eq!(s.unchanged, 2);
    assert_eq!(s.changed, 1);
    assert_eq!(s.added, 1);
    assert_eq!(s.removed, 0);
    assert_eq!(s.mismatch, 0);
    assert_eq!(s.error, 1);
    assert!(out.failed);
    assert!(out.errored);
    assert_eq!(out.result.profile, "linux");
    assert_eq!(out.result.mitame_version.as_deref(), Some("0.2.0"));
    assert_eq!(out.result.schema_version, 1);
    assert_eq!(out.result.results.len(), 5);
}

#[test]
fn a_quiet_run_neither_fails_nor_errs() {
    let entries = vec![entry("a/b", Status::Unchanged), entry("a/e", Status::Added)];
    let out = compare(&Policy::default(), "default".to_string(), "0.2.0".to_string(), entries);
    assert!(!out.failed);
    assert!(!out.errored);
}
