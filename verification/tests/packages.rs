//! Overriding versions in package manifests.
use std::path::{Path, PathBuf};

use replayfs::packages::{
    LockFiles, ManifestError, ManifestUpdate, apply_pkg_overrides, detect_package_manager,
    extend_overrides, extend_with, install_dir, override_document, parse_pkg_overrides,
};
use replayfs::text_map::TextMap;
use serde_json::Value;

fn overrides(entries: &[&str]) -> TextMap<String> {
    let raw: Vec<String> = entries.iter().map(|s| s.to_string()).collect();
    match parse_pkg_overrides(&raw) {
        Ok(map) => map,
        Err(error) => panic!("{}", error.message()),
    }
}

fn pairs(map: &TextMap<String>) -> Vec<(String, String)> {
    (0..map.len()).map(|i| (map.key(i).clone(), map.value(i).clone())).collect()
}

fn pair(key: &str, value: &str) -> (String, String) {
    (key.to_string(), value.to_string())
}

fn update(content: &str, map: &TextMap<String>) -> ManifestUpdate {
    match apply_pkg_overrides(content, map) {
        Ok(Some(update)) => update,
        _ => panic!("expected an update"),
    }
}

#[test]
fn overrides_are_split_at_the_first_equals_sign() {
    let map = overrides(&["react=18.2.0", "a==b", "=x", "y="]);
    assert_eq!(
        pairs(&map),
        vec![pair("", "x"), pair("a", "=b"), pair("react", "18.2.0"), pair("y", "")]
    );
}

#[test]
fn the_last_override_counts() {
    let map = overrides(&["a=1", "b=2", "a=3"]);
    assert_eq!(pairs(&map), vec![pair("a", "3"), pair("b", "2")]);
}

#[test]
fn the_first_bad_override_is_named() {
    let raw = vec!["a=1".to_string(), "react".to_string(), "vue".to_string()];
    match parse_pkg_overrides(&raw) {
        Err(error) => {
            assert_eq!(error.entry, "react");
            assert_eq!(
                error.message(),
                "invalid --pkg-override format: 'react' (expected PKG=VERSION)"
            );
        }
        Ok(_) => panic!("expected an error"),
    }
}

#[test]
fn overrides_from_a_file_take_precedence() {
    let mut map = overrides(&["a=1", "b=2"]);
    assert!(extend_overrides(&mut map, r#"{"b": "20", "c": "30"}"#).is_ok());
    assert_eq!(pairs(&map), vec![pair("a", "1"), pair("b", "20"), pair("c", "30")]);
}

#[test]
fn a_bad_override_file_changes_nothing() {
    for content in ["", "[]", r#"{"a": 1}"#, r#"{"a": "1""#] {
        let mut map = overrides(&["a=1"]);
        assert!(extend_overrides(&mut map, content).is_err());
        assert_eq!(pairs(&map), vec![pair("a", "1")]);
    }
}

#[test]
fn more_overrides() {
    let mut map = overrides(&["a=1"]);
    extend_with(&mut map, &vec![pair("b", "2"), pair("a", "3"), pair("b", "4")]);
    assert_eq!(pairs(&map), vec![pair("a", "3"), pair("b", "4")]);
}

#[test]
fn versions_are_overridden() {
    let content = r#"{
  "name": "app",
  "dependencies": { "react": "^17.0.0", "vue": "3.0.0" },
  "devDependencies": { "react": "17.0.1", "jest": "29" }
}"#;
    let update = update(content, &overrides(&["react=18.2.0", "zod=3"]));
    let expected = "{
  \"dependencies\": {
    \"react\": \"18.2.0\",
    \"vue\": \"3.0.0\"
  },
  \"devDependencies\": {
    \"jest\": \"29\",
    \"react\": \"18.2.0\"
  },
  \"name\": \"app\",
  \"overrides\": {
    \"react\": \"18.2.0\",
    \"zod\": \"3\"
  }
}
";
    assert_eq!(update.text, expected);
    assert_eq!(
        update.notes,
        vec![
            "  overriding dependencies.react: \"^17.0.0\" -> 18.2.0",
            "  overriding devDependencies.react: \"17.0.1\" -> 18.2.0",
            "  overrides.react: 18.2.0",
            "  overrides.zod: 3",
        ]
    );
}

#[test]
fn overrides_that_were_there_stay() {
    let update = update(
        r#"{"overrides": {"a": "1", "b": {"c": "2"}}}"#,
        &overrides(&["a=9"]),
    );
    assert_eq!(
        update.text,
        "{\n  \"overrides\": {\n    \"a\": \"9\",\n    \"b\": {\n      \"c\": \"2\"\n    }\n  }\n}\n"
    );
    assert_eq!(update.notes, vec!["  overrides.a: 9"]);
}

#[test]
fn sections_that_are_no_objects_are_left_alone() {
    let content = r#"{"dependencies": ["a"], "overrides": "none"}"#;
    assert!(matches!(apply_pkg_overrides(content, &overrides(&["a=1"])), Ok(None)));

    let content = r#"{"dependencies": {"a": 7}, "overrides": null}"#;
    let update = update(content, &overrides(&["a=1"]));
    assert_eq!(
        update.text,
        "{\n  \"dependencies\": {\n    \"a\": \"1\"\n  },\n  \"overrides\": null\n}\n"
    );
    assert_eq!(update.notes, vec!["  overriding dependencies.a: 7 -> 1"]);
}

#[test]
fn without_overrides_nothing_is_read() {
    assert!(matches!(apply_pkg_overrides("not json", &overrides(&[])), Ok(None)));
}

#[test]
fn manifests_that_cannot_be_changed() {
    let map = overrides(&["a=1"]);
    assert!(matches!(apply_pkg_overrides("not json", &map), Err(ManifestError::Malformed(_))));
    assert!(matches!(apply_pkg_overrides("[]", &map), Err(ManifestError::NotAnObject)));
    assert!(matches!(apply_pkg_overrides("\"x\"", &map), Err(ManifestError::NotAnObject)));
}

#[test]
fn overriding_twice_is_overriding_once() {
    let map = overrides(&["react=18.2.0", "zod=3"]);
    let once = update(r#"{"dependencies": {"react": "17"}}"#, &map).text;
    let twice = update(&once, &map).text;
    assert_eq!(once, twice);
}

#[test]
fn documents() {
    let map = overrides(&["a=1"]);
    let mut document: Value = serde_json::from_str(r#"{"dependencies":{"a":"0"}}"#).unwrap();
    let change = override_document(&mut document, &map).unwrap();
    assert!(change.changed);
    assert_eq!(document.to_string(), r#"{"dependencies":{"a":"1"},"overrides":{"a":"1"}}"#);

    let mut document = Value::Null;
    assert!(override_document(&mut document, &map).is_none());
    assert_eq!(document, Value::Null);
}

#[test]
fn package_managers() {
    let locks = |pnpm_lock_yaml, bun_lockb, bun_lock| LockFiles {
        pnpm_lock_yaml,
        bun_lockb,
        bun_lock,
    };
    assert_eq!(detect_package_manager(locks(true, true, true)), "pnpm");
    assert_eq!(detect_package_manager(locks(false, true, false)), "bun");
    assert_eq!(detect_package_manager(locks(false, false, true)), "bun");
    assert_eq!(detect_package_manager(locks(false, false, false)), "npm");
}

#[test]
fn dependencies_are_installed_beside_the_manifest() {
    let out = Path::new("/tmp/out");
    assert_eq!(install_dir(out, "package.json"), PathBuf::from("/tmp/out"));
    assert_eq!(install_dir(out, "web/package.json"), PathBuf::from("/tmp/out/web"));
    assert_eq!(install_dir(Path::new("/"), ""), PathBuf::from("/"));
}
