use preserve::errors::InstallError;
use preserve::models::{DownloadPlan, Game, GameManifest};
use preserve::record::{index_with, marker, write_index, write_marker};
use serde_json::Value;

fn plan(id: &str, version: &str) -> DownloadPlan {
    DownloadPlan {
        game: Game {
            id: id.to_string(),
            title: format!("The \"{id}\""),
            short_title: "D".to_string(),
            year: "1993".to_string(),
            edition: "First".to_string(),
            size: "2 MB".to_string(),
            status: "available".to_string(),
            version: None,
            accent: "red".to_string(),
            cover_url: None,
        },
        manifest: GameManifest {
            version: version.to_string(),
            entry_exe: "run.exe".to_string(),
            total_size_bytes: 100,
            files: Vec::new(),
            prerequisites: Vec::new(),
        },
        file_base_url: "https://cdn.test/files".to_string(),
        prerequisite_base_url: "https://cdn.test/tools".to_string(),
        content_addressed: false,
    }
}

fn parse(text: &[u8]) -> Value {
    serde_json::from_slice(text).unwrap()
}

fn record(id: &str, version: &str, file: Option<&[u8]>) -> Vec<u8> {
    write_index(&plan(id, version), "C:\\Games", file).unwrap()
}

#[test]
fn marker_holds_the_installation() {
    let value = marker(&plan("doom", "1.9"), "C:\\Games");
    let expected = r#"{
        "schema": 1, "id": "doom", "title": "The \"doom\"", "version": "1.9",
        "path": "C:\\Games", "executable": "C:\\Games\\run.exe", "verified": true
    }"#;
    assert_eq!(value, parse(expected.as_bytes()));
    let (name, bytes) = write_marker(&plan("doom", "1.9"), "C:\\Games").unwrap();
    assert_eq!(name, "doom.json");
    assert_eq!(parse(&bytes), value);
    assert_eq!(bytes, serde_json::to_vec_pretty(&value).unwrap());
    assert!(bytes.starts_with(b"{\n  \""));
}

#[test]
fn executable_is_joined_to_the_folder() {
    for (folder, executable, expected) in [
        ("C:\\Games\\", "bin/run.exe", "C:\\Games\\bin/run.exe"),
        ("C:\\Games", "D:\\run.exe", "D:\\run.exe"),
        ("C:\\Games", "\\run.exe", "C:\\run.exe"),
        ("\\\\?\\C:\\Games", "bin/../run.exe", "\\\\?\\C:\\Games\\run.exe"),
    ] {
        let mut plan = plan("doom", "1.9");
        plan.manifest.entry_exe = executable.to_string();
        let (_, bytes) = write_marker(&plan, folder).unwrap();
        assert_eq!(parse(&bytes)["executable"], Value::from(expected));
        assert_eq!(parse(&bytes)["path"], Value::from(folder));
        let index = parse(&write_index(&plan, folder, None).unwrap());
        assert_eq!(index["games"]["doom"], parse(&bytes));
    }
}

#[test]
fn first_game_makes_the_index() {
    let index = parse(&record("doom", "1.9", None));
    assert_eq!(index["schema"], Value::from(1));
    assert_eq!(index["games"].as_object().unwrap().len(), 1);
    assert_eq!(index["games"]["doom"]["version"], Value::from("1.9"));
    assert_eq!(index["games"]["doom"]["path"], Value::from("C:\\Games"));
}

#[test]
fn unreadable_index_is_made_anew() {
    for text in ["", "{", "not json", "{\"games\": {}} trailing"] {
        assert_eq!(record("doom", "1.9", Some(text.as_bytes())), record("doom", "1.9", None));
    }
}

#[test]
fn other_games_and_fields_stay() {
    let before = br#"{"schema": 7, "note": [1.5, null], "games": {"quake": {"x": 1}}}"#;
    let index = parse(&record("doom", "1.9", Some(before)));
    assert_eq!(index["schema"], Value::from(1));
    assert_eq!(index["note"], parse(b"[1.5, null]"));
    assert_eq!(index["games"]["quake"], parse(br#"{"x": 1}"#));
    assert_eq!(index["games"]["doom"]["id"], Value::from("doom"));
    assert_eq!(index.as_object().unwrap().len(), 3);
}

#[test]
fn games_that_are_no_object_are_replaced() {
    for text in ["{}", "{\"games\": []}", "{\"games\": null}", "{\"games\": \"x\"}", "null"] {
        assert_eq!(record("doom", "1.9", Some(text.as_bytes())), record("doom", "1.9", None));
    }
}

#[test]
fn index_has_to_be_an_object() {
    for text in ["[]", "5", "\"x\"", "true"] {
        let result = write_index(&plan("doom", "1.9"), "C:\\Games", Some(text.as_bytes()));
        let error = result.unwrap_err();
        assert!(matches!(error, InstallError::IndexNotAnObject));
        assert_eq!(error.message(), "The installation index is not a JSON object");
    }
}

#[test]
fn newer_installation_takes_the_place_of_the_older() {
    let first = record("doom", "1.9", None);
    let second = record("doom", "2.0", Some(&first));
    let index = parse(&second);
    assert_eq!(index["games"].as_object().unwrap().len(), 1);
    assert_eq!(index["games"]["doom"]["version"], Value::from("2.0"));
}

#[test]
fn recording_twice_is_recording_once() {
    let once = record("doom", "1.9", Some(b"{\"note\": 3}"));
    assert_eq!(record("doom", "1.9", Some(&once)), once);
}

#[test]
fn order_of_recording_does_not_matter() {
    let doom_first = record("quake", "1", Some(&record("doom", "1.9", None)));
    let quake_first = record("doom", "1.9", Some(&record("quake", "1", None)));
    assert_eq!(doom_first, quake_first);
    let before = br#"{"note": [1.5, -0.25], "games": {"hexen": {"x": 2.5}}}"#;
    let doom_first = record("quake", "1", Some(&record("doom", "1.9", Some(before))));
    let quake_first = record("doom", "1.9", Some(&record("quake", "1", Some(before))));
    assert_eq!(doom_first, quake_first);
    let index = parse(&doom_first);
    assert_eq!(index["games"].as_object().unwrap().len(), 3);
    assert_eq!(index["games"]["hexen"], parse(br#"{"x": 2.5}"#));
}

#[test]
fn values_are_put_into_an_index() {
    let index = index_with(None, "doom", Value::from(3)).unwrap();
    assert_eq!(index, parse(br#"{"schema": 1, "games": {"doom": 3}}"#));
    let index = index_with(Some(index), "quake", Value::from("x")).unwrap();
    assert_eq!(index, parse(br#"{"schema": 1, "games": {"doom": 3, "quake": "x"}}"#));
    let index = index_with(Some(Value::Null), "", Value::Null).unwrap();
    assert_eq!(index, parse(br#"{"schema": 1, "games": {"": null}}"#));
    assert!(index_with(Some(Value::from(1)), "doom", Value::Null).is_err());
}

#[test]
fn deeply_nested_index_is_made_anew() {
    let shallow = format!("{{\"x\": {}{}}}", "[".repeat(126), "]".repeat(126));
    assert!(parse(&record("doom", "1.9", Some(shallow.as_bytes())))["x"].is_array());
    let deep = format!("{{\"x\": {}{}}}", "[".repeat(127), "]".repeat(127));
    assert_eq!(record("doom", "1.9", Some(deep.as_bytes())), record("doom", "1.9", None));
}
