use mitame::files::FileOp;
use mitame::layout::Layout;
use mitame::report::{escape, render, report_relative, status_name, write_html};
use mitame::result::{Entry, Ratio, ResultFile, Status, Summary, SCHEMA_VERSION};

fn sample() -> ResultFile {
    let mut summary = Summary::new();
    summary.changed = 1;
    summary.unchanged = 1;
    ResultFile {
        schema_version: SCHEMA_VERSION,
        mitame_version: None,
        profile: "default".into(),
        summary,
        results: vec![
            Entry {
                id: "flutter/a/x__theme=dark".into(),
                status: Status::Changed,
                diff_ratio: Some(Ratio { num: 1, den: 4 }),
                diff_pixels: Some(4),
                diff_bounds: None,
                baseline: Some("baseline/default/flutter/a/x__theme=dark.png".into()),
                current: Some("current/default/flutter/a/x__theme=dark.png".into()),
                diff: Some("report/diff/flutter/a/x__theme=dark.png".into()),
                message: None,
                captured_at: None,
            },
            Entry {
                id: "flutter/a/<y>".into(),
                status: Status::Unchanged,
                diff_ratio: Some(Ratio { num: 0, den: 1 }),
                diff_pixels: Some(0),
                diff_bounds: None,
                baseline: None,
                current: None,
                diff: None,
                message: None,
                captured_at: None,
            },
        ],
    }
}

#[test]
fn renders_entries_with_paths_relative_to_report_dir() {
    let result = sample();
    let html = render(&result);
    assert!(html.contains("src=\"baseline/flutter/a/x__theme=dark.png\""));
    assert!(html.contains("src=\"current/flutter/a/x__theme=dark.png\""));
    assert!(!html.contains("../"));
    assert!(html.contains("src=\"diff/flutter/a/x__theme=dark.png\""));
    assert!(html.contains("25.00% · 4 px"));
    assert!(html.contains("flutter/a/&lt;y&gt;"));
    assert!(!html.contains("<y>"));
}

#[test]
fn page_names_the_profile_and_count() {
    let html = render(&sample());
    assert!(html.starts_with("<!doctype html>"));
    assert!(html.ends_with("</script></body></html>"));
    assert!(html.contains("profile <code>default</code> · 2 screenshots"));
}

#[test]
fn escape_makes_text_inert() {
    assert_eq!(
        escape("<a href=\"x\">Tom & 'Jerry'</a>"),
        "&lt;a href=&quot;x&quot;&gt;Tom &amp; &#39;Jerry&#39;&lt;/a&gt;"
    );
    let e = escape("<>\"'&");
    assert!(!e.contains('<') && !e.contains('>') && !e.contains('"') && !e.contains('\''));
    assert_eq!(escape("plain text"), "plain text");
}

#[test]
fn report_paths_drop_the_report_prefix() {
    assert_eq!(report_relative("report/diff/a.png"), "diff/a.png");
    assert_eq!(report_relative("baseline/default/a.png"), "baseline/default/a.png");
    assert_eq!(report_relative("report"), "report");
}

#[test]
fn status_names_are_lowercase() {
    assert_eq!(status_name(Status::Changed), "changed");
    assert_eq!(status_name(Status::Mismatch), "mismatch");
    assert_eq!(status_name(Status::Unchanged), "unchanged");
}

#[test]
fn writing_copies_the_shown_screenshots() {
    let layout = Layout::new("/p/.mitame".to_string(), "default".to_string());
    let plan = write_html(&layout, &sample());
    assert_eq!(plan.index_path, "/p/.mitame/report/index.html");
    assert_eq!(plan.html, render(&sample()));
    let pairs: Vec<(String, String)> = plan
        .copies
        .iter()
        .map(|op| match op {
            FileOp::Copy(a, b) => (a.clone(), b.clone()),
            other => panic!("unexpected {:?}", other),
        })
        .collect();
    assert_eq!(
        pairs,
        vec![
            (
                "/p/.mitame/baseline/default/flutter/a/x__theme=dark.png".to_string(),
                "/p/.mitame/report/baseline/flutter/a/x__theme=dark.png".to_string()
            ),
            (
                "/p/.mitame/current/default/flutter/a/x__theme=dark.png".to_string(),
                "/p/.mitame/report/current/flutter/a/x__theme=dark.png".to_string()
            ),
        ]
    );
}

#[test]
fn unchanged_entries_with_differing_pixels_show_their_images() {
    let layout = Layout::new("/p/.mitame".to_string(), "default".to_string());
    let mut result = sample();
    result.results[1] = Entry {
        id: "flutter/a/tiny__theme=dark".into(),
        status: Status::Unchanged,
        diff_ratio: Some(Ratio { num: 20, den: 10000 }),
        diff_pixels: Some(20),
        diff_bounds: None,
        baseline: Some("baseline/default/flutter/a/tiny__theme=dark.png".into()),
        current: Some("current/default/flutter/a/tiny__theme=dark.png".into()),
        diff: Some("report/diff/flutter/a/tiny__theme=dark.png".into()),
        message: None,
        captured_at: None,
    };
    let html = render(&result);
    assert!(html.contains("0.200% · 20 px"));
    assert!(html.contains("src=\"current/flutter/a/tiny__theme=dark.png\""));
    let plan = write_html(&layout, &result);
    let targets: Vec<String> = plan
        .copies
        .iter()
        .map(|op| match op {
            FileOp::Copy(_, b) => b.clone(),
            other => panic!("unexpected {:?}", other),
        })
        .collect();
    assert!(targets.contains(&"/p/.mitame/report/current/flutter/a/tiny__theme=dark.png".to_string()));
    assert!(targets.contains(&"/p/.mitame/report/baseline/flutter/a/tiny__theme=dark.png".to_string()));
    assert_eq!(targets.len(), 4);
}

#[test]
fn unchanged_entries_without_differences_are_not_copied() {
    let layout = Layout::new("/p/.mitame".to_string(), "default".to_string());
    let mut result = sample();
    result.results[1].baseline = Some("baseline/default/flutter/a/same.png".into());
    result.results[1].current = Some("current/default/flutter/a/same.png".into());
    let plan = write_html(&layout, &result);
    assert_eq!(plan.copies.len(), 2);
}

#[test]
fn shares_of_one_percent_and_more_have_two_decimals() {
    let mut result = sample();
    result.results[0].diff_ratio = Some(Ratio { num: 1, den: 100 });
    result.results[0].diff_pixels = Some(1);
    assert!(render(&result).contains("1.00% · 1 px"));
    result.results[0].diff_ratio = Some(Ratio { num: 99, den: 10000 });
    result.results[0].diff_pixels = Some(99);
    assert!(render(&result).contains("0.990% · 99 px"));
}

#[test]
fn entries_show_their_capture_time() {
    let mut result = sample();
    result.results[0].captured_at = Some("2026-01-01T00:00:00Z".into());
    assert!(render(&result).contains("<span class=\"detail\">captured 2026-01-01T00:00:00Z</span>"));
}

#[test]
fn each_entry_lands_in_the_section_of_its_status() {
    let mut result = sample();
    let mut extra = result.results[0].clone();
    extra.id = "ios/b".into();
    extra.status = Status::Removed;
    result.results.push(extra);
    let html = render(&result);
    assert_eq!(html.matches("<section id=").count(), 3);
    assert_eq!(html.matches("<article class=\"entry").count(), 3);
    assert!(!html.contains("<section id=\"added\""));
    let changed = html.find("<section id=\"changed\"><h2>changed (1)</h2>").unwrap();
    let removed = html.find("<section id=\"removed\"><h2>removed (1)</h2>").unwrap();
    let unchanged = html.find("<section id=\"unchanged\"><h2>unchanged (1)</h2>").unwrap();
    assert!(changed < removed && removed < unchanged);
    let ios = html.find("data-status=\"removed\"><header><span class=\"status removed\">removed</span><code>ios/b</code>").unwrap();
    assert!(removed < ios && ios < unchanged);
}
