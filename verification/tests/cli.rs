use mitame::cli::{
    capture_env, capture_exit, exit_code, fvm_cache_dir, fvm_flutter, fvm_link_flutter,
    listing_line, listing_order, resolve_flutter, resolve_profile, resolve_root, run_id,
    summary_line, test_command, EXIT_DIFF, EXIT_ERROR, EXIT_OK,
};
use mitame::result::{Entry, Ratio, Status, Summary};

fn entry(id: &str, status: Status, px: Option<u64>) -> Entry {
    Entry {
        id: id.to_string(),
        status,
        diff_ratio: None,
        diff_pixels: px,
        diff_bounds: None,
        baseline: None,
        current: None,
        diff: None,
        message: None,
        captured_at: None,
    }
}

#[test]
fn errors_outrank_failures() {
    assert_eq!(exit_code(true, true), EXIT_ERROR);
    assert_eq!(exit_code(true, false), 2);
    assert_eq!(exit_code(false, true), EXIT_DIFF);
    assert_eq!(exit_code(false, false), EXIT_OK);
    assert_eq!(capture_exit(false, EXIT_OK), EXIT_ERROR);
    assert_eq!(capture_exit(true, EXIT_DIFF), EXIT_DIFF);
}

#[test]
fn flags_win_over_configuration() {
    assert_eq!(resolve_root(Some("x".to_string()), ".mitame".to_string()), "x");
    assert_eq!(resolve_root(None, ".mitame".to_string()), ".mitame");
    assert_eq!(resolve_profile(Some("linux".to_string()), Some("mac".to_string())), "linux");
    assert_eq!(resolve_profile(None, Some("mac".to_string())), "mac");
    assert_eq!(resolve_profile(None, None), "default");
}

#[test]
fn summary_line_counts_every_status() {
    let mut s = Summary::new();
    s.unchanged = 5;
    s.changed = 2;
    s.error = 1;
    assert_eq!(
        summary_line("default", &s),
        "profile default: unchanged 5, changed 2, added 0, removed 0, mismatch 0, error 1"
    );
}

#[test]
fn listing_puts_the_largest_differences_first() {
    let es = vec![
        entry("flutter/a/same", Status::Unchanged, Some(0)),
        entry("flutter/a/tiny", Status::Changed, Some(20)),
        entry("flutter/a/new", Status::Added, None),
        entry("flutter/a/big", Status::Changed, Some(144)),
        entry("flutter/a/gone", Status::Removed, None),
        entry("flutter/a/also", Status::Changed, Some(20)),
    ];
    assert_eq!(listing_order(&es), vec![3, 5, 1, 4, 2]);
    assert!(listing_order(&vec![entry("a/b", Status::Unchanged, None)]).is_empty());
}

#[test]
fn listing_keeps_result_order_for_equal_entries() {
    let es = vec![
        entry("a/b", Status::Error, None),
        entry("a/b", Status::Added, None),
        entry("a/a", Status::Added, Some(0)),
    ];
    assert_eq!(listing_order(&es), vec![2, 0, 1]);
}

#[test]
fn listing_lines_show_status_id_and_detail() {
    let mut e = entry("flutter/a/tiny", Status::Changed, Some(20));
    e.diff_ratio = Some(Ratio { num: 20, den: 10000 });
    assert_eq!(listing_line(&e), "  changed   flutter/a/tiny 20 px (0.200%)");
    let mut m = entry("flutter/a/resized", Status::Mismatch, None);
    m.message = Some("dimensions differ: baseline 20x20, current 30x20".to_string());
    assert_eq!(
        listing_line(&m),
        "  mismatch  flutter/a/resized dimensions differ: baseline 20x20, current 30x20"
    );
    let a = entry("flutter/a/new", Status::Added, None);
    assert_eq!(listing_line(&a), "  added     flutter/a/new ");
    let u = entry("x/y", Status::Unchanged, None);
    assert_eq!(listing_line(&u), "  unchanged x/y ");
}

#[test]
fn percentages_round_to_three_places() {
    let mut e = entry("a/b", Status::Changed, Some(1));
    e.diff_ratio = Some(Ratio { num: 1, den: 3 });
    assert_eq!(listing_line(&e), "  changed   a/b 1 px (33.333%)");
    e.diff_ratio = Some(Ratio { num: 2, den: 3 });
    assert_eq!(listing_line(&e), "  changed   a/b 1 px (66.667%)");
}

#[test]
fn fvm_locations() {
    assert_eq!(
        fvm_cache_dir(Some("/c".to_string()), Some("/home/u".to_string())),
        Some("/c".to_string())
    );
    assert_eq!(fvm_cache_dir(None, Some("/home/u".to_string())), Some("/home/u/fvm".to_string()));
    assert_eq!(fvm_cache_dir(None, None), None);
    assert_eq!(fvm_flutter("cache", "3.35.2"), "cache/versions/3.35.2/bin/flutter");
    assert_eq!(fvm_link_flutter("."), "./.fvm/flutter_sdk/bin/flutter");
}

#[test]
fn flutter_resolution_prefers_the_flag_then_fvm() {
    let link = "./.fvm/flutter_sdk/bin/flutter".to_string();
    let pinned = Some("cache/versions/3.35.2/bin/flutter".to_string());
    assert_eq!(
        resolve_flutter(Some("/opt/flutter".to_string()), pinned.clone(), true, link.clone(), true),
        "/opt/flutter"
    );
    assert_eq!(
        resolve_flutter(None, pinned.clone(), true, link.clone(), true),
        "cache/versions/3.35.2/bin/flutter"
    );
    assert_eq!(resolve_flutter(None, pinned.clone(), false, link.clone(), true), link);
    assert_eq!(resolve_flutter(None, None, false, link.clone(), false), "flutter");
}

#[test]
fn test_command_runs_flutter_test_with_the_extra_arguments() {
    assert_eq!(
        test_command("flutter".to_string(), vec!["-j".to_string(), "4".to_string()]),
        vec!["flutter", "test", "-j", "4"]
    );
}

#[test]
fn capture_environment_is_set_twice() {
    let env = capture_env("/p/.mitame/current", "linux", "17-42", "real");
    let pairs: Vec<(&str, &str)> = env.iter().map(|(k, v)| (k.as_str(), v.as_str())).collect();
    assert_eq!(
        pairs,
        vec![
            ("MITAME_OUTPUT_DIR", "/p/.mitame/current"),
            ("TEST_RUNNER_MITAME_OUTPUT_DIR", "/p/.mitame/current"),
            ("MITAME_PROFILE", "linux"),
            ("TEST_RUNNER_MITAME_PROFILE", "linux"),
            ("MITAME_RUN_ID", "17-42"),
            ("TEST_RUNNER_MITAME_RUN_ID", "17-42"),
        ]
    );
    let env = capture_env("o", "p", "r", "ahem");
    assert_eq!(env.len(), 8);
    assert_eq!(env[6], ("MITAME_FONTS".to_string(), "ahem".to_string()));
    assert_eq!(env[7], ("TEST_RUNNER_MITAME_FONTS".to_string(), "ahem".to_string()));
}

#[test]
fn run_ids_join_time_and_process() {
    assert_eq!(run_id(1_700_000_000_123, 4242), "1700000000123-4242");
    assert_eq!(run_id(0, 0), "0-0");
}
