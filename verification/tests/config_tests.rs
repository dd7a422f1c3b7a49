use stack_outputs::config::parse;
use stack_outputs::config::validate_document;
use stack_outputs::config::validate_json_file;
use stack_outputs::config::validate_typescript_file;
use stack_outputs::config::extension_of;
use stack_outputs::config::ConfigEntry;
use stack_outputs::config::ConfigFile;
use stack_outputs::config::Error;

#[test]
fn parsing_error() {
    // Fails when used with non-utf-8 characters
    let input = String::from("Côte d'Ivoire");

    let result = parse(input.as_bytes());
    assert_eq!(true, result.is_err());
    match result.err().unwrap() {
        Error::ParsingError(_) => {}
        _ => panic!("Expected `ValidationError` error"),
    }
}

#[test]
fn file_missing_stack_name() {
    let config_contents = "- stack_name: null\n  region: null\n  json:\n    location: foo.json\n  typescript:\n    location: something.ts\n";

    let result = parse(config_contents.as_bytes());
    assert_eq!(true, result.is_err());
    match result.err().unwrap() {
        Error::ValidationError(_) => {}
        _ => panic!("Expected `ValidationError` error"),
    }
}

#[test]
fn parses_the_config() {
    let config_contents = "- stack_name: stack_name\n  region: null\n  json:\n    location: foo.json\n  typescript:\n    location: something.ts\n";

    let result = parse(config_contents.as_bytes());
    assert_eq!(false, result.is_err());
}

#[test]
fn parsed_entries_carry_the_fields() {
    let config_contents = "- stack_name: s1\n  region: eu-west-1\n  json:\n    location: out/a.json\n  typescript:\n    location: out/a.ts\n";

    let entries = parse(config_contents.as_bytes()).unwrap();
    assert_eq!(entries.len(), 1);
    assert_eq!(entries[0].stack_name.as_deref(), Some("s1"));
    assert_eq!(entries[0].region.as_deref(), Some("eu-west-1"));
    assert_eq!(entries[0].json.location, "out/a.json");
    assert_eq!(entries[0].typescript.location, "out/a.ts");
}

#[test]
fn invalid_utf8_is_a_parsing_error() {
    let input: [u8; 3] = [0xff, 0xfe, 0x41];

    let result = parse(&input);
    assert!(matches!(result, Err(Error::ParsingError(_))));
}

#[test]
fn one_bad_entry_rejects_the_whole_document() {
    // The second entry is well-formed; the first lacks stack_name, so the
    // whole document must be rejected.
    let config_contents = "- json:\n    location: a.json\n  typescript:\n    location: a.ts\n- stack_name: ok\n  json:\n    location: b.json\n  typescript:\n    location: b.ts\n";

    let result = parse(config_contents.as_bytes());
    assert!(matches!(result, Err(Error::ValidationError(_))));
}

#[test]
fn empty_document_parses_to_no_entries() {
    let entries = parse("[]".as_bytes()).unwrap();
    assert!(entries.is_empty());
}

#[test]
fn entries_of_the_wrong_shape_are_a_parsing_error() {
    // A sequence of scalars is not a sequence of entry-shaped mappings.
    let result = parse("- 42\n".as_bytes());
    assert!(matches!(result, Err(Error::ParsingError(_))));

    // A top-level mapping is not a sequence at all.
    let mapping = parse("stack_name: s1\n".as_bytes());
    assert!(matches!(mapping, Err(Error::ParsingError(_))));
}

#[test]
fn json_location_must_end_in_json() {
    let bad = ConfigFile { location: String::from("foo.txt") };
    assert!(matches!(validate_json_file(&bad), Err(Error::ValidationError(_))));

    let none = ConfigFile { location: String::from("foo") };
    assert!(matches!(validate_json_file(&none), Err(Error::ValidationError(_))));

    let good = ConfigFile { location: String::from("dir/foo.json") };
    assert!(validate_json_file(&good).is_ok());
}

#[test]
fn typescript_location_must_end_in_ts() {
    let bad = ConfigFile { location: String::from("foo.tsx") };
    assert!(matches!(validate_typescript_file(&bad), Err(Error::ValidationError(_))));

    let none = ConfigFile { location: String::from("foo") };
    assert!(matches!(validate_typescript_file(&none), Err(Error::ValidationError(_))));

    let good = ConfigFile { location: String::from("a/b/c.ts") };
    assert!(validate_typescript_file(&good).is_ok());
}

#[test]
fn extension_of_behaves_like_a_path_extension() {
    assert_eq!(extension_of("foo.json"), Some(String::from("json")));
    assert_eq!(extension_of("a/b/c.ts"), Some(String::from("ts")));
    assert_eq!(extension_of("archive.tar.gz"), Some(String::from("gz")));
    assert_eq!(extension_of("noext"), None);
    assert_eq!(extension_of(".gitignore"), None);
    assert_eq!(extension_of("dir.d/file"), None);
    assert_eq!(extension_of("trailing."), Some(String::from("")));
    assert_eq!(extension_of(""), None);
    assert_eq!(extension_of("dir/"), None);
    assert_eq!(extension_of("a.json/"), Some(String::from("json")));
    assert_eq!(extension_of("a/b.ts//"), Some(String::from("ts")));
    assert_eq!(extension_of("."), None);
    assert_eq!(extension_of(".."), None);
    assert_eq!(extension_of("a/.."), None);
    assert_eq!(extension_of("..."), Some(String::from("")));
}

#[test]
fn validate_accepts_only_well_formed_entries() {
    let good = ConfigEntry {
        stack_name: Some(String::from("s1")),
        region: None,
        json: ConfigFile { location: String::from("a.json") },
        typescript: ConfigFile { location: String::from("a.ts") },
    };
    assert!(good.validate().is_ok());

    let missing_name = ConfigEntry {
        stack_name: None,
        region: None,
        json: ConfigFile { location: String::from("a.json") },
        typescript: ConfigFile { location: String::from("a.ts") },
    };
    assert!(matches!(missing_name.validate(), Err(Error::ValidationError(_))));
}

#[test]
fn validate_document_checks_every_entry() {
    let good = ConfigEntry {
        stack_name: Some(String::from("s1")),
        region: None,
        json: ConfigFile { location: String::from("a.json") },
        typescript: ConfigFile { location: String::from("a.ts") },
    };
    let bad = ConfigEntry {
        stack_name: Some(String::from("s2")),
        region: None,
        json: ConfigFile { location: String::from("a.yaml") },
        typescript: ConfigFile { location: String::from("a.ts") },
    };
    let all_good = vec![good];
    assert!(validate_document(&all_good).is_ok());

    let mut with_bad = all_good;
    with_bad.push(bad);
    assert!(matches!(validate_document(&with_bad), Err(Error::ValidationError(_))));
}
