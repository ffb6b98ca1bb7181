use mitame::identity::{Identity, IdentityError};
use mitame::layout::{collect_identities, join_path, Layout};

fn strings(v: &[&str]) -> Vec<String> {
    v.iter().map(|s| s.to_string()).collect()
}

#[test]
fn paths_of_an_identity() {
    let l = Layout::new(".mitame".to_string(), "linux".to_string());
    let id = Identity::parse("ios/a/x__theme=dark").unwrap();
    assert_eq!(l.baseline_dir(), ".mitame/baseline/linux");
    assert_eq!(l.current_dir(), ".mitame/current/linux");
    assert_eq!(l.report_dir(), ".mitame/report");
    assert_eq!(l.diff_dir(), ".mitame/report/diff");
    assert_eq!(l.result_path(), ".mitame/report/result.json");
    assert_eq!(l.baseline_png(&id), ".mitame/baseline/linux/ios/a/x__theme=dark.png");
    assert_eq!(l.baseline_sidecar(&id), ".mitame/baseline/linux/ios/a/x__theme=dark.json");
    assert_eq!(l.current_png(&id), ".mitame/current/linux/ios/a/x__theme=dark.png");
    assert_eq!(l.current_sidecar(&id), ".mitame/current/linux/ios/a/x__theme=dark.json");
    assert_eq!(l.diff_png(&id), ".mitame/report/diff/ios/a/x__theme=dark.png");
}

#[test]
fn joining_follows_path_push() {
    assert_eq!(join_path("a", "b"), "a/b");
    assert_eq!(join_path("a/", "b"), "a/b");
    assert_eq!(join_path("", "b"), "b");
    assert_eq!(join_path("a", "/abs"), "/abs");
}

#[test]
fn relative_strips_the_root() {
    let l = Layout::new("/p/.mitame".to_string(), "default".to_string());
    assert_eq!(l.relative("/p/.mitame/baseline/default/a/b.png"), "baseline/default/a/b.png");
    assert_eq!(l.relative("/elsewhere/a.png"), "/elsewhere/a.png");
    assert_eq!(l.relative("/p/.mitamex/a.png"), "/p/.mitamex/a.png");
    assert_eq!(l.relative("c:\\x\\y.png"), "c:/x/y.png");
}

#[test]
fn collecting_keeps_png_files_only() {
    let files = strings(&["flutter/a/x.png", "flutter/a/x.json", "ios/b.png", "notes.txt"]);
    let ids = collect_identities(&files).unwrap();
    let texts: Vec<String> = ids.iter().map(|i| i.id()).collect();
    assert_eq!(texts, vec!["flutter/a/x", "ios/b"]);
}

#[test]
fn collecting_stops_at_a_bad_name() {
    let files = strings(&["flutter/a/x.png", "flutter/A/y.png", "z.png"]);
    assert_eq!(
        collect_identities(&files).unwrap_err(),
        IdentityError::UnsafeComponent("A".to_string())
    );
    let files = strings(&["lonely.png"]);
    assert_eq!(
        collect_identities(&files).unwrap_err(),
        IdentityError::Empty("lonely".to_string())
    );
}

#[test]
fn identities_are_a_sorted_set_of_both_sides() {
    let l = Layout::new(".mitame".to_string(), "default".to_string());
    let base = strings(&["ios/b.png", "flutter/a/x.png"]);
    let cur = strings(&["flutter/a/x.png", "android/c.png", "ios/b.png"]);
    let ids = l.identities(&base, &cur).unwrap();
    let texts: Vec<String> = ids.iter().map(|i| i.id()).collect();
    assert_eq!(texts, vec!["android/c", "flutter/a/x", "ios/b"]);
}

#[test]
fn relative_undoes_joining_to_the_root() {
    for root in ["/p/.mitame", "/p/.mitame/", "", "rel"] {
        let l = Layout::new(root.to_string(), "default".to_string());
        let joined = join_path(root, "report/diff/ios/a.png");
        assert_eq!(l.relative(&joined), "report/diff/ios/a.png");
    }
}
