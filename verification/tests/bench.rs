use mitame::bench::{generate, parse_size, replace_all, repo_root, FixtureTemplates};

#[test]
fn sizes_read_as_width_and_height() {
    assert_eq!(parse_size("390x844"), Ok((390, 844)));
    assert_eq!(parse_size("+1x+2"), Ok((1, 2)));
    assert_eq!(parse_size("4294967295x0"), Ok((4294967295, 0)));
}

#[test]
fn bad_sizes_say_why() {
    assert_eq!(parse_size("390"), Err("size must be WxH, got 390".to_string()));
    assert_eq!(parse_size("x844"), Err("cannot parse integer from empty string".to_string()));
    assert_eq!(parse_size("390x"), Err("cannot parse integer from empty string".to_string()));
    assert_eq!(parse_size("39ax844"), Err("invalid digit found in string".to_string()));
    assert_eq!(parse_size("1x2x3"), Err("invalid digit found in string".to_string()));
    assert_eq!(parse_size("+x1"), Err("invalid digit found in string".to_string()));
    assert_eq!(parse_size("-1x1"), Err("invalid digit found in string".to_string()));
    assert_eq!(
        parse_size("4294967296x1"),
        Err("number too large to fit in target type".to_string())
    );
    assert_eq!(
        parse_size("99999999999ax1"),
        Err("number too large to fit in target type".to_string())
    );
}

#[test]
fn sizes_agree_with_std_parsing() {
    for text in ["0", "07", "+5", "", "+", "-0", "4294967295", "4294967296", "1a", "a1", " 1"] {
        let ours = parse_size(&format!("{text}x1"));
        let std = text.parse::<u32>().map(|w| (w, 1)).map_err(|e| e.to_string());
        assert_eq!(ours, std, "{text:?}");
    }
}

#[test]
fn repo_root_is_the_parent_directory() {
    assert_eq!(repo_root("/work/mitame/bench"), "/work/mitame");
    assert_eq!(repo_root("/work/mitame/bench/"), "/work/mitame");
    assert_eq!(repo_root("/bench"), "/");
    assert_eq!(repo_root("bench"), "");
    assert_eq!(repo_root("/a//bench"), "/a");
}

#[test]
fn replacing_is_left_to_right_without_overlap() {
    assert_eq!(replace_all("a__X__b__X__", "__X__", "1"), "a1b1");
    assert_eq!(replace_all("aaa", "aa", "b"), "ba");
    assert_eq!(replace_all("none here", "zz", "y"), "none here");
    assert_eq!(replace_all("aaa", "aa", "b"), "aaa".replace("aa", "b"));
}

fn templates() -> FixtureTemplates {
    FixtureTemplates {
        pubspec: "path: __ADAPTER_PATH__\n".to_string(),
        widget: "widget\n".to_string(),
        test_config: "config\n".to_string(),
        test_header: "void main() {\n".to_string(),
        test_case: "  t(__INDEX__, __GOLDEN__, __WIDTH__, __HEIGHT__);\n".to_string(),
    }
}

#[test]
fn fixture_has_ten_goldens_per_test_file() {
    let files = generate("/f", "/repo", 12, 390, 844, &templates());
    let paths: Vec<&str> = files.iter().map(|(p, _)| p.as_str()).collect();
    assert_eq!(
        paths,
        vec![
            "/f/pubspec.yaml",
            "/f/mitame.toml",
            "/f/lib/bench_widget.dart",
            "/f/test/flutter_test_config.dart",
            "/f/test/g0/bench_test.dart",
            "/f/test/g1/bench_test.dart",
        ]
    );
    assert_eq!(files[0].1, "path: /repo/adapters/flutter\n");
    assert_eq!(files[1].1, "[compare]\nthreshold = 0.0\n");
    assert_eq!(files[2].1, "widget\n");
    assert_eq!(files[3].1, "config\n");
    assert_eq!(
        files[5].1,
        "void main() {\n  t(10, 0, 390, 844);\n  t(11, 1, 390, 844);\n}\n"
    );
    assert_eq!(files[4].1.matches("  t(").count(), 10);
    assert!(files[4].1.contains("  t(9, 9, 390, 844);\n"));
}

#[test]
fn no_goldens_means_no_test_files() {
    let files = generate("/f", "/repo", 0, 1, 1, &templates());
    assert_eq!(files.len(), 4);
    let files = generate("/f", "/repo", 10, 1, 1, &templates());
    assert_eq!(files.len(), 5);
}
