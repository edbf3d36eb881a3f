use typespec::documents::{
    registry_of, validate, validate_documents, walk, Fault, Report, Site, ValidateError, WalkError,
};
use typespec::json::{parse_document, Definition, Document, Entry, Member};
use typespec::validate::Registry;

fn site(object: &str, key: &str, typ: &str) -> Site {
    Site { object: object.to_string(), key: key.to_string(), typ: typ.to_string() }
}

fn member(key: &str, entry: Entry) -> Member {
    Member { key: key.to_string(), entry }
}

fn typed(key: &str, typ: &str) -> Member {
    member(key, Entry::Object(Some(typ.to_string())))
}

fn definition(name: &str, members: Vec<Member>) -> Definition {
    Definition { name: name.to_string(), members: Some(members) }
}

fn sources(texts: &[&str]) -> Vec<String> {
    texts.iter().map(|t| t.to_string()).collect()
}

const USER: &str = r#"{
    "User": {
        "id": { "type": "snowflake", "required": true },
        "guild": { "type": "Guild" },
        "roles": { "type": "array[Role]" },
        "kind": { "type": "enum[Kind; integer]" },
        "owner": { "type": "union[Ghost, null]" }
    },
    "Kind": { "type": "integer", "doc": "Ghost" }
}"#;

const GUILD: &str = r#"{ "Guild": { "members": { "type": "array[User]" }, "type": "Team" } }"#;

#[test]
fn document_holds_keys_and_type_texts() {
    let d = parse_document(r#"{"B": {"x": {"type": "string", "n": 1}, "type": "T", "y": 3, "z": {"n": 1}, "w": {"type": 5}}, "A": [1]}"#).unwrap();
    let expected = Document {
        definitions: vec![
            Definition { name: "A".to_string(), members: None },
            definition(
                "B",
                vec![
                    member("type", Entry::Text("T".to_string())),
                    member("w", Entry::Object(None)),
                    typed("x", "string"),
                    member("y", Entry::Other),
                    member("z", Entry::Object(None)),
                ],
            ),
        ],
    };
    assert_eq!(d, expected);
}

#[test]
fn document_that_is_no_object_has_no_definitions() {
    for text in ["[1, 2]", "\"text\"", "3", "null", "true", " {} "] {
        assert_eq!(parse_document(text), Ok(Document { definitions: vec![] }));
    }
}

#[test]
fn text_that_is_no_json_is_an_error() {
    for text in ["", "{", "{\"a\": }", "{'a': 1}", "{\"a\": 1} x", "nul"] {
        let r = parse_document(text);
        assert!(r.is_err(), "for {:?}", text);
        assert!(!r.unwrap_err().message.is_empty());
    }
}

#[test]
fn later_of_two_equal_keys_stays() {
    let d = parse_document(r#"{"A": {"x": "1"}, "A": {"y": "2"}}"#).unwrap();
    assert_eq!(d.definitions, vec![definition("A", vec![member("y", Entry::Text("2".to_string()))])]);
}

#[test]
fn escapes_in_strings_are_read() {
    let d = parse_document(r#"{"A\n": {"type": "string"}}"#).unwrap();
    assert_eq!(d.definitions, vec![definition("A\n", vec![member("type", Entry::Text("string".to_string()))])]);
}

#[test]
fn registry_holds_every_top_level_key() {
    let docs = vec![parse_document(USER).unwrap(), parse_document(GUILD).unwrap(), parse_document("[]").unwrap()];
    let r: Registry = registry_of(&docs);
    for n in ["User", "Kind", "Guild"] {
        assert!(r.contains(n));
    }
    for n in ["id", "Role", "Team", "type", ""] {
        assert!(!r.contains(n));
    }
}

#[test]
fn unresolved_types_are_reported_in_order() {
    let docs = vec![parse_document(USER).unwrap(), parse_document(GUILD).unwrap()];
    let report = validate_documents(&docs).unwrap();
    assert_eq!(
        report,
        Report {
            warnings: vec![site("User", "roles", "array[Role]"), site("Guild", "type", "Team")],
            failed: vec!["array[Role]".to_string(), "Team".to_string()],
        }
    );
}

#[test]
fn array_of_unknown_is_added_to_the_failed() {
    let docs = vec![Document {
        definitions: vec![
            definition("User", vec![typed("a", "array[User]"), typed("b", "array[Unknown]")]),
            definition("Guild", vec![]),
        ],
    }];
    let report = validate_documents(&docs).unwrap();
    assert_eq!(report.warnings, vec![site("User", "b", "array[Unknown]")]);
    assert_eq!(report.failed, vec!["array[Unknown]".to_string()]);
}

#[test]
fn failed_types_are_distinct() {
    let docs = vec![
        Document {
            definitions: vec![definition(
                "A",
                vec![typed("x", "Ghost"), typed("y", "Spirit"), typed("z", "Ghost")],
            )],
        },
        Document {
            definitions: vec![definition(
                "B",
                vec![member("type", Entry::Text("Spirit".to_string())), typed("w", "Wraith")],
            )],
        },
    ];
    let report = validate_documents(&docs).unwrap();
    assert_eq!(
        report.warnings,
        vec![
            site("A", "x", "Ghost"),
            site("A", "y", "Spirit"),
            site("A", "z", "Ghost"),
            site("B", "type", "Spirit"),
            site("B", "w", "Wraith"),
        ]
    );
    assert_eq!(report.failed, vec!["Ghost".to_string(), "Spirit".to_string(), "Wraith".to_string()]);
}

#[test]
fn names_of_later_documents_count() {
    let docs = vec![
        Document { definitions: vec![definition("A", vec![typed("b", "B"), typed("c", "array[C]")])] },
        Document { definitions: vec![definition("B", vec![])] },
        Document { definitions: vec![Definition { name: "C".to_string(), members: Some(vec![]) }] },
    ];
    assert_eq!(validate_documents(&docs), Ok(Report { warnings: vec![], failed: vec![] }));
}

#[test]
fn string_counts_only_under_the_key_type() {
    let docs = vec![Document {
        definitions: vec![definition(
            "A",
            vec![
                member("doc", Entry::Text("Ghost".to_string())),
                member("type", Entry::Text("Ghost".to_string())),
                member("Type", Entry::Text("Spirit".to_string())),
                member("n", Entry::Other),
            ],
        )],
    }];
    let report = validate_documents(&docs).unwrap();
    assert_eq!(report.warnings, vec![site("A", "type", "Ghost")]);
}

#[test]
fn definition_that_is_no_object_stops_the_walk() {
    let docs = vec![Document {
        definitions: vec![
            definition("A", vec![typed("x", "Ghost")]),
            Definition { name: "B".to_string(), members: None },
            definition("C", vec![member("y", Entry::Object(None))]),
        ],
    }];
    assert_eq!(
        validate_documents(&docs),
        Err(WalkError { fault: Fault::NotAnObject, site: site("B", "", "") })
    );
}

#[test]
fn object_without_a_type_stops_the_walk() {
    let docs = vec![Document {
        definitions: vec![definition("A", vec![typed("x", "string"), member("y", Entry::Object(None)), typed("z", "enum")])],
    }];
    assert_eq!(
        validate_documents(&docs),
        Err(WalkError { fault: Fault::MissingType, site: site("A", "y", "") })
    );
}

#[test]
fn malformed_types_stop_the_walk() {
    let docs = vec![Document { definitions: vec![definition("A", vec![typed("x", "enum[K]"), typed("y", "array[")])] }];
    assert_eq!(
        validate_documents(&docs),
        Err(WalkError { fault: Fault::MalformedEnum, site: site("A", "x", "enum[K]") })
    );
    let docs = vec![Document {
        definitions: vec![definition("A", vec![member("type", Entry::Text("array[".to_string())), typed("y", "enum")])],
    }];
    assert_eq!(
        validate_documents(&docs),
        Err(WalkError { fault: Fault::MalformedArray, site: site("A", "type", "array[") })
    );
}

#[test]
fn walk_goes_against_the_given_registry() {
    let docs = vec![Document { definitions: vec![definition("A", vec![typed("x", "A"), typed("y", "B")])] }];
    let mut r = Registry::new();
    r.insert("B".to_string());
    assert_eq!(walk(&r, &docs), Ok(vec![site("A", "x", "A")]));
    assert_eq!(walk(&Registry::new(), &docs), Ok(vec![site("A", "x", "A"), site("A", "y", "B")]));
}

#[test]
fn validation_reads_its_sources() {
    let report = validate(&sources(&[USER, "[]", GUILD])).unwrap();
    assert_eq!(
        report,
        Report {
            warnings: vec![site("User", "roles", "array[Role]"), site("Guild", "type", "Team")],
            failed: vec!["array[Role]".to_string(), "Team".to_string()],
        }
    );
    assert_eq!(validate(&sources(&[])), Ok(Report { warnings: vec![], failed: vec![] }));
}

#[test]
fn first_source_that_is_no_json_is_reported() {
    match validate(&sources(&[GUILD, "{", "}", USER])) {
        Err(ValidateError::Json { source, error }) => {
            assert_eq!(source, 1);
            assert!(!error.message.is_empty());
        },
        other => panic!("{:?}", other),
    }
}

#[test]
fn bad_json_counts_before_any_fault_of_the_walk() {
    assert!(matches!(
        validate(&sources(&[r#"{"A": 1}"#, "{"])),
        Err(ValidateError::Json { source: 1, .. })
    ));
    assert_eq!(
        validate(&sources(&[r#"{"A": 1}"#])),
        Err(ValidateError::Walk(WalkError { fault: Fault::NotAnObject, site: site("A", "", "") }))
    );
    assert_eq!(
        validate(&sources(&[r#"{"A": {"x": {}}}"#])),
        Err(ValidateError::Walk(WalkError { fault: Fault::MissingType, site: site("A", "x", "") }))
    );
    assert_eq!(
        validate(&sources(&[r#"{"A": {"x": {"type": "enum[A]"}}}"#])),
        Err(ValidateError::Walk(WalkError {
            fault: Fault::MalformedEnum,
            site: site("A", "x", "enum[A]")
        }))
    );
}
