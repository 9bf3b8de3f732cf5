use streamstats::json_stream_parser::{JsonEvent, JsonStreamParser};

#[derive(Debug, PartialEq, Clone)]
pub enum OwningJsonEvent {
    Null,
    Bool(bool),
    Number(f64),
    String(String),
    StartObject,
    EndObject,
    StartArray,
    EndArray,
    Key(String),
}

fn convert(ev: &JsonEvent) -> OwningJsonEvent {
    match ev {
        JsonEvent::Null => OwningJsonEvent::Null,
        JsonEvent::Bool(b) => OwningJsonEvent::Bool(*b),
        JsonEvent::Number(text) => OwningJsonEvent::Number(text.parse().unwrap()),
        JsonEvent::String(s) => OwningJsonEvent::String(s.clone()),
        JsonEvent::StartObject => OwningJsonEvent::StartObject,
        JsonEvent::EndObject => OwningJsonEvent::EndObject,
        JsonEvent::StartArray => OwningJsonEvent::StartArray,
        JsonEvent::EndArray => OwningJsonEvent::EndArray,
        JsonEvent::Key(s) => OwningJsonEvent::Key(s.clone()),
    }
}

fn events_of(parser: &JsonStreamParser) -> Vec<OwningJsonEvent> {
    parser.events().iter().map(convert).collect()
}

fn parse_whole(json: &str) -> Vec<OwningJsonEvent> {
    let mut parser = JsonStreamParser::new();
    assert!(parser.parse(json.as_bytes()).is_ok());
    events_of(&parser)
}

fn parse_split(json: &str, split_at: usize) -> Vec<OwningJsonEvent> {
    let bytes = json.as_bytes();
    let mut parser = JsonStreamParser::new();
    assert!(parser.parse(&bytes[0..split_at]).is_ok());
    assert!(parser.parse(&bytes[split_at..]).is_ok());
    events_of(&parser)
}

fn test_json_parser_element(element: &str, expected: OwningJsonEvent, chunked: bool) {
    let json = element;

    if chunked {
        for split_at in 1..json.len() {
            let events = parse_split(json, split_at);
            assert_eq!(&events[0], &expected, "split at {}", split_at);
        }
    }

    let events = parse_whole(json);
    assert_eq!(&events[0], &expected);
}

#[test]
fn test_json_parser_null() {
    let literal = "null";
    let expected = OwningJsonEvent::Null;
    test_json_parser_element(literal, expected, true);
}

#[test]
fn test_json_parser_true() {
    let literal = "true";
    let expected = OwningJsonEvent::Bool(true);
    test_json_parser_element(literal, expected, true);
}

#[test]
fn test_json_parser_false() {
    let literal = "false";
    let expected = OwningJsonEvent::Bool(false);
    test_json_parser_element(literal, expected, true);
}

#[test]
fn test_json_parser_string() {
    let literal = "\"test string\"";
    let expected = OwningJsonEvent::String("test string".into());
    test_json_parser_element(literal, expected, true);
}

#[test]
fn test_json_parser_number() {
    let literal = "56";
    let expected = OwningJsonEvent::Number(56.0);
    test_json_parser_element(literal, expected, false);
}

fn check_array_events(events: &[OwningJsonEvent]) {
    assert_eq!(&events[0], &OwningJsonEvent::StartArray);
    assert_eq!(&events[1], &OwningJsonEvent::Number(56.3));
    assert_eq!(&events[2], &OwningJsonEvent::String("Rust".into()));
    assert_eq!(&events[3], &OwningJsonEvent::Bool(true));
    assert_eq!(&events[4], &OwningJsonEvent::Bool(false));
    assert_eq!(&events[5], &OwningJsonEvent::Null);
    assert_eq!(&events[6], &OwningJsonEvent::EndArray);
}

#[test]
fn test_json_parser_array() {
    let json = r#"
            [ 56.3, "Rust" , true, false , null ]
        "#;

    for split_at in 1..json.len() {
        let events = parse_split(json, split_at);
        check_array_events(&events);
    }

    let events = parse_whole(json);
    check_array_events(&events);
}

fn check_object_events(events: &[OwningJsonEvent]) {
    assert_eq!(&events[0], &OwningJsonEvent::StartObject);

    assert_eq!(&events[1], &OwningJsonEvent::Key("name".to_string()));
    assert_eq!(&events[2], &OwningJsonEvent::String("Alice".to_string()));

    assert_eq!(&events[3], &OwningJsonEvent::Key("age".to_string()));
    assert_eq!(&events[4], &OwningJsonEvent::Number(30.0));

    assert_eq!(&events[5], &OwningJsonEvent::Key("is_active".to_string()));
    assert_eq!(&events[6], &OwningJsonEvent::Bool(true));

    assert_eq!(&events[7], &OwningJsonEvent::Key("married".to_string()));
    assert_eq!(&events[8], &OwningJsonEvent::Bool(false));

    assert_eq!(&events[9], &OwningJsonEvent::Key("skills".to_string()));

    assert_eq!(&events[10], &OwningJsonEvent::StartArray);
    {
        assert_eq!(&events[11], &OwningJsonEvent::String("Rust".to_string()));
        assert_eq!(&events[12], &OwningJsonEvent::String("C++".to_string()));
    }
    assert_eq!(&events[13], &OwningJsonEvent::EndArray);

    assert_eq!(&events[14], &OwningJsonEvent::EndObject);
}

#[test]
fn test_json_parser_object() {
    let json = r#"
            {
                "name": "Alice",
                "age": 30,
                "is_active": true,
                "married": false,
                "skills": ["Rust", "C++"]
            }
        "#;

    for split_at in 1..json.len() {
        let events = parse_split(json, split_at);
        check_object_events(&events);
    }

    let events = parse_whole(json);
    check_object_events(&events);
}

fn check_two_records(events: &[OwningJsonEvent]) {
    assert_eq!(&events[0], &OwningJsonEvent::StartArray);

    // Alice
    {
        assert_eq!(&events[1], &OwningJsonEvent::StartObject);

        assert_eq!(&events[2], &OwningJsonEvent::Key("name".to_string()));
        assert_eq!(&events[3], &OwningJsonEvent::String("Alice".to_string()));

        assert_eq!(&events[4], &OwningJsonEvent::Key("age".to_string()));
        assert_eq!(&events[5], &OwningJsonEvent::Number(30.0));

        assert_eq!(&events[6], &OwningJsonEvent::Key("is_active".to_string()));
        assert_eq!(&events[7], &OwningJsonEvent::Bool(true));

        assert_eq!(&events[8], &OwningJsonEvent::Key("married".to_string()));
        assert_eq!(&events[9], &OwningJsonEvent::Bool(false));

        assert_eq!(&events[10], &OwningJsonEvent::Key("skills".to_string()));

        assert_eq!(&events[11], &OwningJsonEvent::StartArray);
        {
            assert_eq!(&events[12], &OwningJsonEvent::String("Rust".to_string()));
            assert_eq!(&events[13], &OwningJsonEvent::String("C++".to_string()));
        }
        assert_eq!(&events[14], &OwningJsonEvent::EndArray);

        assert_eq!(&events[15], &OwningJsonEvent::EndObject);
    }

    // Vova
    {
        assert_eq!(&events[16], &OwningJsonEvent::StartObject);

        assert_eq!(&events[17], &OwningJsonEvent::Key("name".to_string()));
        assert_eq!(&events[18], &OwningJsonEvent::String("Vova".to_string()));

        assert_eq!(&events[19], &OwningJsonEvent::Key("age".to_string()));
        assert_eq!(&events[20], &OwningJsonEvent::Number(40.0));

        assert_eq!(&events[21], &OwningJsonEvent::Key("is_active".to_string()));
        assert_eq!(&events[22], &OwningJsonEvent::Bool(false));

        assert_eq!(&events[23], &OwningJsonEvent::Key("married".to_string()));
        assert_eq!(&events[24], &OwningJsonEvent::Bool(true));

        assert_eq!(&events[25], &OwningJsonEvent::Key("skills".to_string()));

        assert_eq!(&events[26], &OwningJsonEvent::StartArray);
        {
            assert_eq!(&events[27], &OwningJsonEvent::String("Rust".to_string()));
            assert_eq!(&events[28], &OwningJsonEvent::String("C++".to_string()));
            assert_eq!(&events[29], &OwningJsonEvent::String("Scala".to_string()));
        }
        assert_eq!(&events[30], &OwningJsonEvent::EndArray);

        assert_eq!(&events[31], &OwningJsonEvent::EndObject);
    }

    assert_eq!(&events[32], &OwningJsonEvent::EndArray);
}

#[test]
fn test_json_parser_array_of_object_with_array() {
    let json = r#"
            [
                {
                    "name": "Alice",
                    "age": 30,
                    "is_active": true,
                    "married": false,
                    "skills": ["Rust", "C++"]
                },
                {
                    "name": "Vova",
                    "age": 40,
                    "is_active": false,
                    "married": true,
                    "skills": ["Rust", "C++", "Scala"]
                }
            ]
        "#;

    for split_at in 1..json.len() {
        let events = parse_split(json, split_at);
        check_two_records(&events);
    }

    let events = parse_whole(json);
    check_two_records(&events);
}

#[test]
fn test_split_invariance_event_sequences_match() {
    // feeding doc[0..i] then doc[i..] must give exactly the one-call events
    let docs = [
        r#"[ 56.3, "Rust" , true, false , null ]"#,
        r#"{"a": [1, 2.5, {"b": "c"}], "d": null}"#,
        r#""plain string with spaces""#,
        r#"[[],[[]],{"k":[]}]"#,
    ];
    for doc in docs.iter() {
        let whole = parse_whole(doc);
        for i in 1..doc.len() {
            let split = parse_split(doc, i);
            assert_eq!(split, whole, "doc {} split at {}", doc, i);
        }
    }
}

#[test]
fn test_payloads_byte_equal_to_source() {
    let json = r#"{"key one": "value one", "key\ttwo": "back\\slash"}"#;
    let events = parse_whole(json);
    // payloads are exactly the bytes between the quotes, escapes untouched
    assert_eq!(events[1], OwningJsonEvent::Key("key one".to_string()));
    assert_eq!(events[2], OwningJsonEvent::String("value one".to_string()));
    assert_eq!(events[3], OwningJsonEvent::Key("key\\ttwo".to_string()));
    assert_eq!(events[4], OwningJsonEvent::String("back\\\\slash".to_string()));
}

#[test]
fn test_number_text_is_source_text() {
    let mut parser = JsonStreamParser::new();
    assert!(parser.parse(b"[ -12.5e-3, 7 ]").is_ok());
    let texts: Vec<String> = parser
        .events()
        .iter()
        .filter_map(|e| match e {
            JsonEvent::Number(t) => Some(t.clone()),
            _ => None,
        })
        .collect();
    assert_eq!(texts, vec!["-12.5e-3".to_string(), "7".to_string()]);
}

#[test]
fn test_incomplete_returns_false_then_true() {
    let mut parser = JsonStreamParser::new();
    assert_eq!(parser.parse(b"[1, 2").unwrap(), false);
    assert_eq!(parser.parse(b", 3]").unwrap(), true);
    let events = events_of(&parser);
    assert_eq!(
        events,
        vec![
            OwningJsonEvent::StartArray,
            OwningJsonEvent::Number(1.0),
            OwningJsonEvent::Number(2.0),
            OwningJsonEvent::Number(3.0),
            OwningJsonEvent::EndArray,
        ]
    );
}

#[test]
fn test_take_events_drains() {
    let mut parser = JsonStreamParser::new();
    assert_eq!(parser.parse(b"[1").unwrap(), false);
    let first = parser.take_events();
    // only StartArray so far: the number is still pending
    assert_eq!(first.len(), 1);
    assert!(parser.events().is_empty());
    assert_eq!(parser.parse(b"]").unwrap(), true);
    let rest = parser.take_events();
    assert_eq!(rest.len(), 2); // Number(1), EndArray
}

#[test]
fn test_error_unexpected_char() {
    let mut parser = JsonStreamParser::new();
    let r = parser.parse(b"@");
    assert!(matches!(r, Err(streamstats::json_stream_parser::JsonStreamParseError::UnexpectedChar('@'))));
}

#[test]
fn test_error_invalid_literal() {
    let mut parser = JsonStreamParser::new();
    let r = parser.parse(b"nuLl");
    assert!(matches!(
        r,
        Err(streamstats::json_stream_parser::JsonStreamParseError::InvalidLiteral(_))
    ));
}

#[test]
fn test_error_invalid_boolean() {
    let mut parser = JsonStreamParser::new();
    let r = parser.parse(b"trua");
    assert!(matches!(
        r,
        Err(streamstats::json_stream_parser::JsonStreamParseError::InvalidBoolean)
    ));
    let mut parser2 = JsonStreamParser::new();
    let r2 = parser2.parse(b"folse");
    assert!(matches!(
        r2,
        Err(streamstats::json_stream_parser::JsonStreamParseError::InvalidBoolean)
    ));
}

#[test]
fn test_error_invalid_number() {
    // nested numbers are validated against the float grammar when they end
    let mut parser = JsonStreamParser::new();
    let r = parser.parse(b"[1..2]");
    assert!(matches!(
        r,
        Err(streamstats::json_stream_parser::JsonStreamParseError::InvalidNumber)
    ));
    // a top-level number may only end at end of input
    let mut parser2 = JsonStreamParser::new();
    let r2 = parser2.parse(b"56 ");
    assert!(matches!(
        r2,
        Err(streamstats::json_stream_parser::JsonStreamParseError::InvalidNumber)
    ));
}

#[test]
fn test_error_invalid_array_separator() {
    let mut parser = JsonStreamParser::new();
    let r = parser.parse(b"[1 2]");
    assert!(matches!(
        r,
        Err(streamstats::json_stream_parser::JsonStreamParseError::InvalidArray(_))
    ));
}

#[test]
fn test_error_invalid_object_missing_colon() {
    let mut parser = JsonStreamParser::new();
    let r = parser.parse(b"{\"a\" 1}");
    assert!(matches!(
        r,
        Err(streamstats::json_stream_parser::JsonStreamParseError::InvalidObject(_))
    ));
}

#[test]
fn test_empty_chunks_are_accepted() {
    let mut parser = JsonStreamParser::new();
    assert_eq!(parser.parse(b"").unwrap(), false);
    assert_eq!(parser.parse(b"tr").unwrap(), false);
    assert_eq!(parser.parse(b"").unwrap(), false);
    assert_eq!(parser.parse(b"ue").unwrap(), true);
    let events = events_of(&parser);
    assert_eq!(events, vec![OwningJsonEvent::Bool(true)]);
}

#[test]
fn test_event_equality_on_library_type() {
    let mut parser = JsonStreamParser::new();
    assert!(parser.parse(b"null").is_ok());
    assert_eq!(parser.events()[0], JsonEvent::Null);
    assert_ne!(parser.events()[0], JsonEvent::StartArray);
}

#[test]
fn test_error_unexpected_char_after_whitespace() {
    let mut parser = JsonStreamParser::new();
    let r = parser.parse(b"   @rest");
    assert!(matches!(
        r,
        Err(streamstats::json_stream_parser::JsonStreamParseError::UnexpectedChar('@'))
    ));
}

#[test]
fn test_error_invalid_number_bad_grammar() {
    // a top-level numeric run to the end of input with an invalid body
    let mut parser = JsonStreamParser::new();
    let r = parser.parse(b"5..5");
    assert!(matches!(
        r,
        Err(streamstats::json_stream_parser::JsonStreamParseError::InvalidNumber)
    ));
    let mut parser2 = JsonStreamParser::new();
    let r2 = parser2.parse(b"-");
    assert!(matches!(
        r2,
        Err(streamstats::json_stream_parser::JsonStreamParseError::InvalidNumber)
    ));
}

#[test]
fn test_number_with_leading_whitespace_and_sign() {
    let mut parser = JsonStreamParser::new();
    assert_eq!(parser.parse(b"  -7.25e2").unwrap(), true);
    let events = events_of(&parser);
    assert_eq!(events, vec![OwningJsonEvent::Number(-725.0)]);
}
