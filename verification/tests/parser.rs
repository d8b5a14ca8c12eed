use rustaska::model::{Field, FieldVal, Record};
use rustaska::parser::{parse_record, ParseError, ParseErrorKind};

#[test]
fn test_parse_record() -> Result<(), ParseError> {
    let input = "\
Record: 12
P01: 321
P02: \"sample text\"
P03:  -66
P04:  \"sth\"
%\n";

    let fields = vec![
        Field {
            id: 1,
            value: FieldVal::Num(321),
        },
        Field {
            id: 2,
            value: FieldVal::Str("sample text".to_owned()),
        },
        Field {
            id: 3,
            value: FieldVal::Num(-66),
        },
        Field {
            id: 4,
            value: FieldVal::Str("sth".to_owned()),
        },
    ];
    let expected = Record { id: 12, fields };

    let result = parse_record(input)?;
    assert_eq!(result, expected);
    Ok(())
}

#[test]
fn test_parse_error_display() {
    let err = ParseError::new("Record 1".to_owned(), "whatever".to_owned());
    let obtained = err.to_string();
    let expected = "\
Error when parsing \"Record 1...\":
whatever"
        .to_owned();

    assert_eq!(obtained, expected)
}

#[test]
fn test_reject_trailing() {
    let input = "\
Record: 12
P01: 321
%\nP02";

    let obtained = parse_record(input);

    assert!(obtained.is_err())
}

fn fails_with(input: &str, kind: ParseErrorKind) {
    assert_eq!(parse_record(input), Err(ParseError::of(kind)), "{:?}", input);
}

#[test]
fn trailing_content_has_context_fields() {
    let e = parse_record("Record: 12\nP01: 321\n%\nP02").unwrap_err();
    assert_eq!(e.context(), "fields");
    assert_eq!(e.message(), "Unexpected content after RecordEnd");
    fails_with("Record: 1\n%\n\n", ParseErrorKind::TrailingContent);
    fails_with("Record: 1\n%\n%\n", ParseErrorKind::TrailingContent);
    fails_with("Record: 1\n% \n", ParseErrorKind::TrailingContent);
    fails_with("Record: 1\n%", ParseErrorKind::TrailingContent);
    fails_with("Record: 1\n%\n ", ParseErrorKind::TrailingContent);
}

#[test]
fn negative_number_field() {
    let record = parse_record("Record: 7\nP01: -321\n%\n").unwrap();
    assert_eq!(
        record.fields,
        vec![Field {
            id: 1,
            value: FieldVal::Num(-321)
        }]
    );
}

#[test]
fn record_without_fields() {
    assert_eq!(
        parse_record("Record: -5\n%\n"),
        Ok(Record {
            id: -5,
            fields: vec![]
        })
    );
}

#[test]
fn fields_keep_source_order_and_duplicates() {
    let record = parse_record("Record: 1\nP9: 1\nP2: \"b\"\nP9: 3\nP2: \"b\"\n%\n").unwrap();
    let ids: Vec<i32> = record.fields.iter().map(|f| f.id).collect();
    assert_eq!(ids, vec![9, 2, 9, 2]);
    assert_eq!(record.fields[2].value, FieldVal::Num(3));
    assert_eq!(record.fields[3].value, FieldVal::Str("b".to_owned()));
}

#[test]
fn parsing_twice_gives_equal_records() {
    let input = "Record: 3\nP1: \"x y\"\nP2: 0\n%\n";
    assert_eq!(parse_record(input), parse_record(input));
    let broken = "Record: 3\nP1 \"x y\"\n%\n";
    assert_eq!(parse_record(broken), parse_record(broken));
}

#[test]
fn header_errors() {
    fails_with("", ParseErrorKind::MissingRecordStart);
    fails_with("\nRecord: 1\n%\n", ParseErrorKind::MissingRecordStart);
    fails_with("Record 1\n%\n", ParseErrorKind::MissingRecordStart);
    fails_with("12\n%\n", ParseErrorKind::MissingRecordStart);
    fails_with("Record:\n%\n", ParseErrorKind::MissingRecordId);
    fails_with("Record: \"one\"\n%\n", ParseErrorKind::MissingRecordId);
    fails_with("Record: x\n%\n", ParseErrorKind::MissingRecordId);
    fails_with("Record: 99999999999\n%\n", ParseErrorKind::MissingRecordId);
    fails_with("Record:", ParseErrorKind::MissingRecordId);
    fails_with("Record: 1 2\n%\n", ParseErrorKind::MissingHeaderNewLine);
    fails_with("Record: 1", ParseErrorKind::MissingHeaderNewLine);
    fails_with("Record: 1 junk\n%\n", ParseErrorKind::MissingHeaderNewLine);
    let e = parse_record("oops").unwrap_err();
    assert_eq!(e.context(), "header");
    assert_eq!(e.message(), "Expected string: \"Record:\"");
    let e = parse_record("Record: x").unwrap_err();
    assert_eq!(e.context(), "header");
    assert_eq!(e.message(), "Expected a record id (a number)");
    let e = parse_record("Record: 1 1").unwrap_err();
    assert_eq!(e.context(), "header");
    assert_eq!(e.message(), "Expected a new line");
}

#[test]
fn fields_errors() {
    fails_with("Record: 1\n12\n%\n", ParseErrorKind::MissingFieldId);
    fails_with("Record: 1\n\n%\n", ParseErrorKind::MissingFieldId);
    fails_with("Record: 1\n\"text\"\n%\n", ParseErrorKind::MissingFieldId);
    fails_with("Record: 1\nRecord: 2\n%\n", ParseErrorKind::MissingFieldId);
    let e = parse_record("Record: 1\n12\n%\n").unwrap_err();
    assert_eq!(e.context(), "fields");
    assert_eq!(e.message(), "Expected field id (eg. \"P12:\")");
}

#[test]
fn record_that_does_not_end_is_an_error() {
    fails_with("Record: 1\n", ParseErrorKind::TrailingContent);
    fails_with("Record: 1\nP1: 2\n", ParseErrorKind::TrailingContent);
    fails_with("Record: 1\nP1: 2\ng4rb4ge\n%\n", ParseErrorKind::TrailingContent);
    fails_with("Record: 1\nP1: 2\n@\n", ParseErrorKind::TrailingContent);
}

#[test]
fn field_errors() {
    fails_with("Record: 1\nP1: \n%\n", ParseErrorKind::MissingFieldValue);
    fails_with("Record: 1\nP1: P2:\n%\n", ParseErrorKind::MissingFieldValue);
    fails_with("Record: 1\nP1: %\n", ParseErrorKind::MissingFieldValue);
    fails_with("Record: 1\nP1:", ParseErrorKind::UnreadableFieldValue);
    fails_with("Record: 1\nP1: abc\n%\n", ParseErrorKind::UnreadableFieldValue);
    fails_with("Record: 1\nP1: \"\"\n%\n", ParseErrorKind::UnreadableFieldValue);
    fails_with("Record: 1\nP1: 1 2\n%\n", ParseErrorKind::MissingFieldNewLine);
    fails_with("Record: 1\nP1: 1", ParseErrorKind::MissingFieldNewLine);
    fails_with("Record: 1\nP1: \"a\" x\n%\n", ParseErrorKind::MissingFieldNewLine);
    let e = parse_record("Record: 1\nP1: \n%\n").unwrap_err();
    assert_eq!(e.context(), "field");
    assert_eq!(e.message(), "Expected field value (number or quoted string)");
    let e = parse_record("Record: 1\nP1:").unwrap_err();
    assert_eq!(e.context(), "field");
    assert_eq!(e.message(), "Found unexpected... something");
    let e = parse_record("Record: 1\nP1: 1 2\n%\n").unwrap_err();
    assert_eq!(e.context(), "field");
    assert_eq!(e.message(), "Expected new line");
}

#[test]
fn error_text_of_each_kind() {
    assert_eq!(
        ParseError::of(ParseErrorKind::TrailingContent).to_string(),
        "Error when parsing \"fields...\":\nUnexpected content after RecordEnd"
    );
    assert_eq!(
        ParseError::of(ParseErrorKind::MissingRecordStart).to_string(),
        "Error when parsing \"header...\":\nExpected string: \"Record:\""
    );
    assert_eq!(ParseErrorKind::MissingFieldNewLine.context(), "field");
    assert_eq!(ParseErrorKind::MissingFieldNewLine.message(), "Expected new line");
}

#[test]
fn string_value_may_hold_any_character_but_a_quote() {
    let record = parse_record("Record: 1\nP1: \"łódź\n% P2: 5\"\n%\n").unwrap();
    assert_eq!(
        record.fields,
        vec![Field {
            id: 1,
            value: FieldVal::Str("łódź\n% P2: 5".to_owned())
        }]
    );
}
