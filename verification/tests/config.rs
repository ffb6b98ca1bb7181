use mitame::config::{
    effective, matchers, pixel_tolerance, CaptureConfig, ConfigError, EffectiveCompare, Paths,
    Policy, Rule, Severity,
};

fn rule(pattern: &str, threshold: Option<f64>) -> Rule<f64> {
    Rule {
        pattern: pattern.to_string(),
        threshold,
        max_diff_pixels: None,
        pixel_tolerance: None,
        anti_aliasing: None,
    }
}

fn base() -> EffectiveCompare<f64> {
    EffectiveCompare {
        threshold: 0.001,
        max_diff_pixels: 0,
        pixel_tolerance: 0.1,
        anti_aliasing: true,
    }
}

#[test]
fn last_matching_rule_wins() {
    let rules = vec![
        rule("flutter/**", Some(0.005)),
        rule("flutter/**/*__*theme=dark*", Some(0.01)),
    ];
    let ms = matchers(&rules).unwrap();
    assert_eq!(effective(base(), &rules, &ms, "ios/a/b").threshold, 0.001);
    assert_eq!(effective(base(), &rules, &ms, "flutter/a/b").threshold, 0.005);
    assert_eq!(
        effective(base(), &rules, &ms, "flutter/a/b__locale=ja,theme=dark").threshold,
        0.01
    );
}

#[test]
fn ahem_widens_the_pixel_tolerance_unless_set_explicitly() {
    let mut capture = CaptureConfig::default();
    assert_eq!(pixel_tolerance(None, &capture, 0.2, 0.1), 0.1);
    capture.fonts = "ahem".to_string();
    assert_eq!(pixel_tolerance(None, &capture, 0.2, 0.1), 0.2);
    assert_eq!(pixel_tolerance(Some(0.05), &capture, 0.2, 0.1), 0.05);
}

#[test]
fn defaults_of_the_sections() {
    assert_eq!(Paths::default().root, ".mitame");
    let policy = Policy::default();
    assert_eq!(policy.added, Severity::Warn);
    assert_eq!(policy.removed, Severity::Warn);
    assert_eq!(policy.mismatch, Severity::Fail);
    let capture = CaptureConfig::default();
    assert!(capture.command.is_empty());
    assert_eq!(capture.fonts, "real");
}

#[test]
fn a_rule_sets_only_what_it_names() {
    let rules = vec![
        Rule {
            pattern: "ios/**".to_string(),
            threshold: None,
            max_diff_pixels: Some(20),
            pixel_tolerance: None,
            anti_aliasing: Some(false),
        },
        Rule {
            pattern: "ios/a/*".to_string(),
            threshold: Some(0.5),
            max_diff_pixels: None,
            pixel_tolerance: Some(0.3),
            anti_aliasing: None,
        },
    ];
    let ms = matchers(&rules).unwrap();
    let e = effective(base(), &rules, &ms, "ios/a/b");
    assert_eq!(e.threshold, 0.5);
    assert_eq!(e.max_diff_pixels, 20);
    assert_eq!(e.pixel_tolerance, 0.3);
    assert!(!e.anti_aliasing);
    let e = effective(base(), &rules, &ms, "ios/b/c");
    assert_eq!(e.threshold, 0.001);
    assert_eq!(e.max_diff_pixels, 20);
    assert_eq!(e.pixel_tolerance, 0.1);
    assert!(!e.anti_aliasing);
    let e = effective(base(), &rules, &ms, "android/a/b");
    assert_eq!(e.max_diff_pixels, 0);
    assert!(e.anti_aliasing);
}

#[test]
fn a_bad_pattern_is_reported_with_its_rule() {
    let rules = vec![rule("ios/**", None), rule("ios/[a", None), rule("x/{", None)];
    match matchers(&rules) {
        Err(ConfigError::Rule(p, msg)) => {
            assert_eq!(p, "ios/[a");
            assert!(!msg.is_empty());
            let full = ConfigError::Rule(p, msg.clone()).message();
            assert!(full.contains("ios/[a"));
            assert!(full.contains(&msg));
        }
        Ok(_) => panic!("pattern accepted"),
    }
}
