use mitame::cli::fvmrc_version;
use mitame::sidecar::{baseline_sidecar_text, classify_sidecar, SidecarRaw};

#[test]
fn fvmrc_names_the_pinned_version() {
    assert_eq!(fvmrc_version(r#"{"flutter": "3.35.2"}"#), Some("3.35.2".to_string()));
    assert_eq!(fvmrc_version(r#"{"flutter": 3}"#), None);
    assert_eq!(fvmrc_version(r#"{"other": "x"}"#), None);
    assert_eq!(fvmrc_version("not json"), None);
    assert_eq!(fvmrc_version(r#"["flutter"]"#), None);
}

const SIDECAR: &str = r#"{"schema_version":1,"id":"ios/x","captured_at":"2026-01-01T00:00:00Z","ext":{"ios":{"run_id":"17-42","device":"iPhone"},"web":3},"image":{"width":4,"height":4,"scale":2.0}}"#;

#[test]
fn sidecars_are_classified() {
    match classify_sidecar(SIDECAR) {
        (SidecarRaw::Versioned(1, Ok(f)), Some(scale)) => {
            assert_eq!(f.id, "ios/x");
            assert_eq!(f.captured_at.as_deref(), Some("2026-01-01T00:00:00Z"));
            assert_eq!(scale, "2.0");
        }
        other => panic!("unexpected {:?}", other),
    }
    assert!(matches!(classify_sidecar("{"), (SidecarRaw::NotJson(_), None)));
    assert!(matches!(classify_sidecar("{}"), (SidecarRaw::NoVersion, None)));
    assert!(matches!(
        classify_sidecar(r#"{"schema_version":"1"}"#),
        (SidecarRaw::NoVersion, None)
    ));
    assert!(matches!(
        classify_sidecar(r#"{"schema_version":-1}"#),
        (SidecarRaw::NoVersion, None)
    ));
    match classify_sidecar(r#"{"schema_version":99,"id":"ios/x"}"#) {
        (SidecarRaw::Versioned(99, Err(e)), None) => assert_eq!(e, "missing field `image`"),
        other => panic!("unexpected {:?}", other),
    }
    match classify_sidecar(r#"{"schema_version":1,"id":5,"image":{"scale":1}}"#) {
        (SidecarRaw::Versioned(1, Err(e)), None) => {
            assert_eq!(e, "invalid type for field `id`: expected a string")
        }
        other => panic!("unexpected {:?}", other),
    }
    match classify_sidecar(r#"{"schema_version":0,"id":"a/b","image":{"scale":1},"captured_at":null}"#) {
        (SidecarRaw::Versioned(0, Ok(f)), Some(s)) => {
            assert_eq!(f.captured_at, None);
            assert_eq!(s, "1");
        }
        other => panic!("unexpected {:?}", other),
    }
}

#[test]
fn baseline_sidecars_drop_what_changes_per_capture() {
    let out = baseline_sidecar_text(SIDECAR).unwrap();
    assert_eq!(
        out,
        "{\n  \"schema_version\": 1,\n  \"id\": \"ios/x\",\n  \"ext\": {\n    \"ios\": {\n      \"device\": \"iPhone\"\n    },\n    \"web\": 3\n  },\n  \"image\": {\n    \"width\": 4,\n    \"height\": 4,\n    \"scale\": 2.0\n  }\n}\n"
    );
    assert_eq!(baseline_sidecar_text("[1]").unwrap(), "[\n  1\n]\n");
    assert!(baseline_sidecar_text("nope").is_err());
}
