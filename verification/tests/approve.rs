use mitame::approve::{approve, select_for_approval, ApproveFacts, ApproveOutcome, Approval};
use mitame::files::FileOp;
use mitame::identity::{Identity, IdentityError};
use mitame::layout::Layout;

fn layout() -> Layout {
    Layout::new(".mitame".to_string(), "default".to_string())
}

fn facts(cp: bool, bp: bool, same: bool, cs: bool, bs: bool) -> ApproveFacts {
    ApproveFacts {
        current_png: cp,
        baseline_png: bp,
        same_png: same,
        current_sidecar: cs,
        baseline_sidecar: bs,
    }
}

fn describe(ops: &[FileOp]) -> Vec<String> {
    ops.iter()
        .map(|op| match op {
            FileOp::Copy(a, b) => format!("copy {a} -> {b}"),
            FileOp::CopySidecar(a, b) => format!("sidecar {a} -> {b}"),
            FileOp::Remove(a) => format!("remove {a}"),
        })
        .collect()
}

#[test]
fn a_new_screenshot_is_copied_with_its_sidecar() {
    let id = Identity::parse("flutter/a/x").unwrap();
    let step = approve(&layout(), &id, &facts(true, false, false, true, false));
    assert_eq!(step.approval, Approval::Copied);
    assert_eq!(
        describe(&step.ops),
        vec![
            "copy .mitame/current/default/flutter/a/x.png -> .mitame/baseline/default/flutter/a/x.png",
            "copy .mitame/current/default/flutter/a/x.json -> .mitame/baseline/default/flutter/a/x.json",
        ]
    );
}

#[test]
fn a_stale_baseline_sidecar_is_deleted() {
    let id = Identity::parse("flutter/a/x").unwrap();
    let step = approve(&layout(), &id, &facts(true, true, false, false, true));
    assert_eq!(step.approval, Approval::Copied);
    assert_eq!(
        describe(&step.ops),
        vec![
            "copy .mitame/current/default/flutter/a/x.png -> .mitame/baseline/default/flutter/a/x.png",
            "remove .mitame/baseline/default/flutter/a/x.json",
        ]
    );
}

#[test]
fn an_identical_screenshot_is_left_alone() {
    let id = Identity::parse("flutter/a/x").unwrap();
    let step = approve(&layout(), &id, &facts(true, true, true, true, true));
    assert_eq!(step.approval, Approval::Unchanged);
    assert!(step.ops.is_empty());
}

#[test]
fn a_vanished_screenshot_leaves_the_baseline() {
    let id = Identity::parse("ios/b").unwrap();
    let step = approve(&layout(), &id, &facts(false, true, false, false, true));
    assert_eq!(step.approval, Approval::Deleted);
    assert_eq!(
        describe(&step.ops),
        vec![
            "remove .mitame/baseline/default/ios/b.png",
            "remove .mitame/baseline/default/ios/b.json",
        ]
    );
    let step = approve(&layout(), &id, &facts(false, false, false, false, false));
    assert_eq!(step.approval, Approval::Skipped);
    assert!(step.ops.is_empty());
}

#[test]
fn the_outcome_lists_each_kind() {
    let a = Identity::parse("flutter/a/x__theme=dark").unwrap();
    let b = Identity::parse("ios/b").unwrap();
    let mut out = ApproveOutcome::new();
    out.record(&a, Approval::Copied);
    out.record(&b, Approval::Deleted);
    out.record(&b, Approval::Unchanged);
    out.record(&a, Approval::Skipped);
    assert_eq!(out.copied, vec!["flutter/a/x__theme=dark"]);
    assert_eq!(out.deleted, vec!["ios/b"]);
    assert_eq!(out.unchanged, vec!["ios/b"]);
}

#[test]
fn named_identities_are_parsed_in_order() {
    let l = layout();
    let ids = vec!["ios/b".to_string(), "flutter/a/x__theme=dark,locale=en".to_string()];
    let sel = select_for_approval(&l, &ids, &vec![], &vec![]).unwrap();
    let texts: Vec<String> = sel.iter().map(|i| i.id()).collect();
    assert_eq!(texts, vec!["ios/b", "flutter/a/x__locale=en,theme=dark"]);
    let bad = vec!["ios/b".to_string(), "Bad/x".to_string(), "y".to_string()];
    assert_eq!(
        select_for_approval(&l, &bad, &vec![], &vec![]).unwrap_err(),
        IdentityError::UnsafeComponent("Bad".to_string())
    );
}

#[test]
fn no_names_means_every_identity_found() {
    let l = layout();
    let base = vec!["ios/b.png".to_string()];
    let cur = vec!["flutter/a/x.png".to_string(), "ios/b.png".to_string()];
    let sel = select_for_approval(&l, &vec![], &base, &cur).unwrap();
    let texts: Vec<String> = sel.iter().map(|i| i.id()).collect();
    assert_eq!(texts, vec!["flutter/a/x", "ios/b"]);
}

#[test]
fn approving_every_identity_lists_each_once_in_order() {
    let l = layout();
    let base = vec!["ios/b.png".to_string(), "flutter/c.png".to_string()];
    let cur = vec!["flutter/a/x.png".to_string(), "ios/b.png".to_string(), "flutter/a/w.png".to_string()];
    let sel = select_for_approval(&l, &vec![], &base, &cur).unwrap();
    let texts: Vec<String> = sel.iter().map(|i| i.id()).collect();
    assert_eq!(texts, vec!["flutter/c", "flutter/a/w", "flutter/a/x", "ios/b"]);
    let approvals = [Approval::Deleted, Approval::Copied, Approval::Copied, Approval::Unchanged];
    let mut out = ApproveOutcome::new();
    for (id, a) in sel.iter().zip(approvals.iter()) {
        out.record(id, *a);
    }
    assert_eq!(out.copied, vec!["flutter/a/w", "flutter/a/x"]);
    assert_eq!(out.deleted, vec!["flutter/c"]);
    assert_eq!(out.unchanged, vec!["ios/b"]);
}

#[test]
fn an_absolute_profile_shares_the_current_and_baseline_files() {
    let l = Layout::new(".mitame".to_string(), "/tmp/shots".to_string());
    let id = Identity::parse("flutter/a/x").unwrap();
    assert_eq!(l.current_png(&id), l.baseline_png(&id));
    assert_eq!(l.current_png(&id), "/tmp/shots/flutter/a/x.png");
    let step = approve(&l, &id, &facts(true, true, true, true, true));
    assert_eq!(step.approval, Approval::Unchanged);
    assert!(step.ops.is_empty());
}
