use std::collections::BTreeMap;

use stack_outputs::outputs::Error;
use stack_outputs::outputs::Output;
use stack_outputs::outputs::OutputSet;
use stack_outputs::outputs::select_stack_outputs;
use stack_outputs::writer::json_artifact;
use stack_outputs::writer::typings_artifact;

fn out(key: &str, value: &str) -> Output {
    Output { key: String::from(key), value: String::from(value) }
}

#[test]
fn end_to_end_artifacts_for_one_output() {
    let outputs: OutputSet = vec![out("Bucket", "my-bucket")];

    assert_eq!(json_artifact(&outputs), "{\"Bucket\":\"my-bucket\"}");
    assert_eq!(
        typings_artifact(&outputs),
        "declare module NodeJs { interface ProcessEnv { Bucket: string,\n } }"
    );
}

#[test]
fn duplicate_keys_collapse_in_json_but_not_in_typings() {
    let outputs: OutputSet = vec![out("A", "1"), out("A", "2")];

    // Last write wins in the JSON artifact...
    assert_eq!(json_artifact(&outputs), "{\"A\":\"2\"}");
    // ...while the type-binding artifact keeps every occurrence.
    assert_eq!(
        typings_artifact(&outputs),
        "declare module NodeJs { interface ProcessEnv { A: string,\nA: string,\n } }"
    );
}

#[test]
fn empty_output_set_yields_empty_artifacts() {
    let outputs: OutputSet = vec![];

    assert_eq!(json_artifact(&outputs), "{}");
    assert_eq!(
        typings_artifact(&outputs),
        "declare module NodeJs { interface ProcessEnv {  } }"
    );
}

#[test]
fn json_artifact_escapes_what_json_requires() {
    let outputs: OutputSet = vec![out("quo\"te", "back\\slash"), out("line", "a\nb\tc\rd")];

    assert_eq!(
        json_artifact(&outputs),
        "{\"quo\\\"te\":\"back\\\\slash\",\"line\":\"a\\nb\\tc\\rd\"}"
    );
}

#[test]
fn json_artifact_escapes_every_control_character() {
    let outputs: OutputSet = vec![out("ctl", "a\u{1}b\u{1f}c")];

    assert_eq!(json_artifact(&outputs), "{\"ctl\":\"a\\u0001b\\u001fc\"}");
}

#[test]
fn json_artifact_with_control_characters_round_trips() {
    let outputs: OutputSet = vec![out("bell", "ding\u{7}"), out("nul", "a\u{0}b")];

    let text = json_artifact(&outputs);
    let decoded: BTreeMap<String, String> = serde_json::from_str(&text).unwrap();

    let mut expected: BTreeMap<String, String> = BTreeMap::new();
    expected.insert(String::from("bell"), String::from("ding\u{7}"));
    expected.insert(String::from("nul"), String::from("a\u{0}b"));
    assert_eq!(decoded, expected);
}

#[test]
fn json_artifact_round_trips_through_a_json_parser() {
    let outputs: OutputSet = vec![
        out("Bucket", "my-bucket"),
        out("quo\"te", "back\\slash"),
        out("lines", "a\nb"),
        out("Arn", "arn:aws:s3:::my-bucket"),
    ];

    let text = json_artifact(&outputs);
    let decoded: BTreeMap<String, String> = serde_json::from_str(&text).unwrap();

    let mut expected: BTreeMap<String, String> = BTreeMap::new();
    for o in &outputs {
        expected.insert(o.key.clone(), o.value.clone());
    }
    assert_eq!(decoded, expected);
}

#[test]
fn json_artifact_round_trips_last_write_for_duplicates() {
    let outputs: OutputSet = vec![out("A", "1"), out("B", "x"), out("A", "2")];

    let text = json_artifact(&outputs);
    let decoded: BTreeMap<String, String> = serde_json::from_str(&text).unwrap();

    let mut expected: BTreeMap<String, String> = BTreeMap::new();
    expected.insert(String::from("A"), String::from("2"));
    expected.insert(String::from("B"), String::from("x"));
    assert_eq!(decoded, expected);
}

#[test]
fn typings_artifact_keeps_original_order() {
    let outputs: OutputSet = vec![out("Zeta", "1"), out("Alpha", "2"), out("Mid", "3")];

    assert_eq!(
        typings_artifact(&outputs),
        "declare module NodeJs { interface ProcessEnv { Zeta: string,\nAlpha: string,\nMid: string,\n } }"
    );
}

#[test]
fn output_from_parts_requires_both_fields() {
    let ok = Output::from_parts(Some(String::from("k")), Some(String::from("v"))).unwrap();
    assert_eq!(ok.key, "k");
    assert_eq!(ok.value, "v");

    let no_key = Output::from_parts(None, Some(String::from("v")));
    assert!(matches!(no_key, Err(Error::MissingOutputField(_))));

    let no_value = Output::from_parts(Some(String::from("k")), None);
    assert!(matches!(no_value, Err(Error::MissingOutputField(_))));
}

#[test]
fn select_stack_outputs_takes_the_first_stack() {
    let first: OutputSet = vec![out("A", "1")];
    let second: OutputSet = vec![out("B", "2")];
    let picked = select_stack_outputs(vec![first, second], "my-stack").unwrap();
    assert_eq!(picked.len(), 1);
    assert_eq!(picked[0].key, "A");
}

#[test]
fn select_stack_outputs_reports_a_missing_stack() {
    let result = select_stack_outputs(vec![], "my-stack");
    match result {
        Err(Error::NotFoundError(name)) => assert_eq!(name, "my-stack"),
        _ => panic!("expected NotFoundError"),
    }
}
