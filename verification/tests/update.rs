use mitame::files::{remove_if_exists, FileOp};
use mitame::identity::Identity;
use mitame::layout::Layout;
use mitame::result::Status;
use mitame::update::{update_baseline, UpdateFacts, UpdateKind, UpdateOutcome};

fn layout() -> Layout {
    Layout::new(".mitame".to_string(), "linux".to_string())
}

fn describe(ops: &[FileOp]) -> Vec<String> {
    ops.iter()
        .map(|op| match op {
            FileOp::Copy(a, b) => format!("copy {a} -> {b}"),
            FileOp::CopySidecar(a, b) => format!("sidecar {a} -> {b}"),
            FileOp::Remove(a) => format!("remove {a}"),
        })
        .collect()
}

fn facts(cs: bool, bp: bool, bs: bool) -> UpdateFacts {
    UpdateFacts { current_sidecar: cs, baseline_png: bp, baseline_sidecar: bs }
}

#[test]
fn added_entries_are_copied_with_their_sidecars() {
    let x = Identity::parse("ios/x").unwrap();
    let step = update_baseline(&layout(), &x, Status::Added, false, &facts(true, false, false));
    assert_eq!(step.kind, UpdateKind::Added);
    assert_eq!(
        describe(&step.ops),
        vec![
            "copy .mitame/current/linux/ios/x.png -> .mitame/baseline/linux/ios/x.png",
            "sidecar .mitame/current/linux/ios/x.json -> .mitame/baseline/linux/ios/x.json",
        ]
    );
    let y = Identity::parse("ios/y").unwrap();
    let step = update_baseline(&layout(), &y, Status::Added, false, &facts(false, false, false));
    assert_eq!(
        describe(&step.ops),
        vec!["copy .mitame/current/linux/ios/y.png -> .mitame/baseline/linux/ios/y.png"]
    );
}

#[test]
fn changed_and_mismatched_entries_replace_the_baseline() {
    let x = Identity::parse("ios/x").unwrap();
    for status in [Status::Changed, Status::Mismatch] {
        let step = update_baseline(&layout(), &x, status, false, &facts(false, true, true));
        assert_eq!(step.kind, UpdateKind::Updated);
        assert_eq!(
            describe(&step.ops),
            vec![
                "copy .mitame/current/linux/ios/x.png -> .mitame/baseline/linux/ios/x.png",
                "remove .mitame/baseline/linux/ios/x.json",
            ]
        );
    }
}

#[test]
fn removed_entries_go_only_when_pruning() {
    let g = Identity::parse("flutter/a/gone").unwrap();
    let step = update_baseline(&layout(), &g, Status::Removed, false, &facts(false, true, true));
    assert_eq!(step.kind, UpdateKind::Untouched);
    assert!(step.ops.is_empty());
    let step = update_baseline(&layout(), &g, Status::Removed, true, &facts(false, true, false));
    assert_eq!(step.kind, UpdateKind::Deleted);
    assert_eq!(
        describe(&step.ops),
        vec!["remove .mitame/baseline/linux/flutter/a/gone.png"]
    );
}

#[test]
fn unchanged_and_error_entries_are_left_alone() {
    let x = Identity::parse("flutter/a/x").unwrap();
    for status in [Status::Unchanged, Status::Error] {
        let step = update_baseline(&layout(), &x, status, true, &facts(true, true, true));
        assert_eq!(step.kind, UpdateKind::Untouched);
        assert!(step.ops.is_empty());
    }
}

#[test]
fn the_outcome_keeps_the_result_id_text() {
    let mut out = UpdateOutcome::new();
    out.record("ios/x", UpdateKind::Added);
    out.record("ios/y", UpdateKind::Added);
    out.record("flutter/a/b__theme=dark,locale=ja", UpdateKind::Updated);
    out.record("flutter/a/gone", UpdateKind::Deleted);
    out.record("flutter/a/same", UpdateKind::Untouched);
    assert_eq!(out.added, vec!["ios/x", "ios/y"]);
    assert_eq!(out.updated, vec!["flutter/a/b__theme=dark,locale=ja"]);
    assert_eq!(out.deleted, vec!["flutter/a/gone"]);
}

#[test]
fn removal_happens_only_for_existing_files() {
    assert_eq!(describe(&remove_if_exists("a/b.json".to_string(), true)), vec!["remove a/b.json"]);
    assert!(remove_if_exists("a/b.json".to_string(), false).is_empty());
}
