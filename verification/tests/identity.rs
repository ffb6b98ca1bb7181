use mitame::identity::{Identity, IdentityError};

#[test]
fn parses_full_identity() {
    let id = Identity::parse("flutter/login/form/login_form__locale=ja,theme=dark").unwrap();
    assert_eq!(id.platform, "flutter");
    assert_eq!(id.group, vec!["login", "form"]);
    assert_eq!(id.name, "login_form");
    assert_eq!(id.variant.get("theme").map(String::as_str), Some("dark"));
    assert_eq!(
        id.id(),
        "flutter/login/form/login_form__locale=ja,theme=dark"
    );
}

#[test]
fn empty_group_is_allowed() {
    let id = Identity::parse("ios/button").unwrap();
    assert!(id.group.is_empty());
    assert_eq!(id.png_path(), "ios/button.png");
}

#[test]
fn variant_is_canonicalized_on_output() {
    let id = Identity::parse("android/card__theme=dark,locale=en").unwrap();
    assert_eq!(id.id(), "android/card__locale=en,theme=dark");
}

#[test]
fn single_underscore_in_name_is_not_a_separator() {
    let id = Identity::parse("flutter/a/b_c").unwrap();
    assert_eq!(id.name, "b_c");
    assert!(id.variant.is_empty());
}

#[test]
fn rejects_unsafe_components() {
    assert!(matches!(
        Identity::parse("flutter/Login/form"),
        Err(IdentityError::UnsafeComponent(_))
    ));
    assert!(matches!(
        Identity::parse("flutter/../form"),
        Err(IdentityError::UnsafeComponent(_))
    ));
    assert!(matches!(
        Identity::parse("flutter/a/b__theme"),
        Err(IdentityError::BadVariant(_))
    ));
}

#[test]
fn from_relative_png_strips_extension_and_normalizes_separators() {
    let id = Identity::from_relative_png("flutter\\login\\form.png").unwrap();
    assert_eq!(id.id(), "flutter/login/form");
}

#[test]
fn empty_identity_is_refused() {
    assert_eq!(Identity::parse(""), Err(IdentityError::Empty(String::new())));
    assert_eq!(Identity::parse("///"), Err(IdentityError::Empty("///".to_string())));
    assert_eq!(
        Identity::parse("flutter"),
        Err(IdentityError::Empty("flutter".to_string()))
    );
}

#[test]
fn error_messages_name_the_component() {
    let e = Identity::parse("flutter/Login/form").unwrap_err();
    assert_eq!(
        e.message(),
        "identity component is not in [a-z0-9_.-] or is reserved: Login"
    );
    let e = Identity::parse("flutter/a/b__theme").unwrap_err();
    assert_eq!(e.message(), "variant pair is not key=value: theme");
    let e = Identity::parse("x").unwrap_err();
    assert_eq!(e.message(), "identity has no platform segment: x");
    let e = Identity::parse("flutter/a/b__k=V").unwrap_err();
    assert_eq!(e, IdentityError::UnsafeComponent("V".to_string()));
}

#[test]
fn repeated_slashes_are_ignored() {
    let id = Identity::parse("/flutter//a///b/").unwrap();
    assert_eq!(id.id(), "flutter/a/b");
    assert_eq!(id.group_string(), "a");
}

#[test]
fn paths_stem_and_variant_text() {
    let id = Identity::parse("flutter/login/form/login_form__theme=dark,locale=ja").unwrap();
    assert_eq!(id.encoded_variant(), "locale=ja,theme=dark");
    assert_eq!(id.stem(), "login_form__locale=ja,theme=dark");
    assert_eq!(id.group_string(), "login/form");
    assert_eq!(
        id.png_path(),
        "flutter/login/form/login_form__locale=ja,theme=dark.png"
    );
    assert_eq!(
        id.sidecar_path(),
        "flutter/login/form/login_form__locale=ja,theme=dark.json"
    );
}

#[test]
fn text_of_a_parsed_identity_reads_back_to_it() {
    for text in [
        "ios/button",
        "flutter/login/form/login_form__locale=ja,theme=dark",
        "android/card__theme=dark,locale=en",
        "flutter/a/b_c",
    ] {
        let id = Identity::parse(text).unwrap();
        let again = Identity::parse(&id.id()).unwrap();
        assert_eq!(again, id);
        assert_eq!(again.id(), id.id());
    }
}

#[test]
fn from_relative_png_rejects_unsafe_names() {
    assert!(matches!(
        Identity::from_relative_png("flutter/Bad.png"),
        Err(IdentityError::UnsafeComponent(_))
    ));
}

#[test]
fn later_variant_pair_overrides_an_earlier_one() {
    let id = Identity::parse("ios/b__theme=dark,theme=light").unwrap();
    assert_eq!(id.variant.get("theme").map(String::as_str), Some("light"));
    assert_eq!(id.variant.len(), 1);
    assert_eq!(id.encoded_variant(), "theme=light");
}

#[test]
fn png_paths_read_back_with_either_separator() {
    let id = Identity::parse("flutter/login/form/login_form__locale=ja,theme=dark").unwrap();
    let path = id.png_path();
    assert_eq!(Identity::from_relative_png(&path).unwrap(), id);
    assert_eq!(Identity::from_relative_png(&path.replace('/', "\\")).unwrap(), id);
}
