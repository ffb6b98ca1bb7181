use mitame::diff::diff_summary;
use mitame::identity::Identity;
use mitame::result::{DiffBounds, Status, Summary};
use mitame::sidecar::{check_sidecar, SidecarFields, SidecarRaw};

#[test]
fn no_differing_pixel_has_no_box() {
    assert_eq!(diff_summary(&vec![]), (0, None));
}

#[test]
fn the_box_is_the_smallest_holding_every_pixel() {
    let points = vec![(12, 25), (21, 16), (15, 20)];
    assert_eq!(
        diff_summary(&points),
        (3, Some(DiffBounds { x: 12, y: 16, width: 10, height: 10 }))
    );
    assert_eq!(
        diff_summary(&vec![(0, 0)]),
        (1, Some(DiffBounds { x: 0, y: 0, width: 1, height: 1 }))
    );
}

#[test]
fn counting_touches_one_status() {
    let mut s = Summary::new();
    s.count(Status::Changed);
    s.count(Status::Changed);
    s.count(Status::Error);
    assert_eq!(s.get(Status::Changed), 2);
    assert_eq!(s.get(Status::Error), 1);
    assert_eq!(s.get(Status::Unchanged), 0);
    assert_eq!(s.changed, 2);
}

fn id() -> Identity {
    Identity::parse("ios/x").unwrap()
}

#[test]
fn sidecar_checks() {
    let path = ".mitame/current/default/ios/x.json";
    assert!(matches!(check_sidecar("current", path, &SidecarRaw::Absent, &id(), "0.2.0"), Ok(None)));
    assert_eq!(
        check_sidecar("current", path, &SidecarRaw::NotJson("EOF".to_string()), &id(), "0.2.0")
            .unwrap_err(),
        "current sidecar is invalid at .mitame/current/default/ios/x.json: not valid JSON: EOF"
    );
    assert_eq!(
        check_sidecar("current", path, &SidecarRaw::Unreadable("denied".to_string()), &id(), "0.2.0")
            .unwrap_err(),
        "current sidecar is invalid at .mitame/current/default/ios/x.json: could not be read: denied"
    );
    assert_eq!(
        check_sidecar("baseline", path, &SidecarRaw::NoVersion, &id(), "0.2.0").unwrap_err(),
        "baseline sidecar is invalid at .mitame/current/default/ios/x.json: no integer schema_version"
    );
    assert_eq!(
        check_sidecar("baseline", path, &SidecarRaw::Versioned(2, Err("x".to_string())), &id(), "0.2.0")
            .unwrap_err(),
        "baseline sidecar has schema_version 2 but this mitame 0.2.0 reads schema_version 1 and older; update the binary"
    );
    assert_eq!(
        check_sidecar("current", path, &SidecarRaw::Versioned(1, Err("missing field `id`".to_string())), &id(), "0.2.0")
            .unwrap_err(),
        "current sidecar is invalid at .mitame/current/default/ios/x.json: missing a field mitame reads: missing field `id`"
    );
    let older = SidecarRaw::Versioned(
        0,
        Ok(SidecarFields { id: "ios/x".to_string(), captured_at: Some("t".to_string()) }),
    );
    let f = check_sidecar("current", path, &older, &id(), "0.2.0").unwrap().unwrap();
    assert_eq!(f.id, "ios/x");
    assert_eq!(f.captured_at.as_deref(), Some("t"));
}
