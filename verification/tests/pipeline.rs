use rustaska::convert;
use rustaska::parser::{parse_record, ParseError, ParseErrorKind};
use rustaska::source_reader::SourceReader;

const SOURCE: &str = "\
Something to filter out at the beginning
Record: 1
P02: \"another sample text\"
P01: -321
%
Record: 2
P01: 321
P02: \"sample text\"
P03:  \"sth\"
%
Record: 3
P02: \"another sample text\"
g4rb4ge
P01: -123
%
Something to filter out at the end
";

#[test]
fn converts_a_source_text() {
    let out = convert(SOURCE);
    assert_eq!(out.numbers, "rec,field,val\n1;1;-321\n2;1;321\n");
    assert_eq!(
        out.strings,
        "rec,field,val\n1;2;\"another sample text\"\n2;2;\"sample text\"\n2;3;\"sth\"\n"
    );
    assert_eq!(
        out.errors,
        ParseError::of(ParseErrorKind::TrailingContent).to_string()
    );
}

#[test]
fn counts_rows_and_errors() {
    let mut source = String::new();
    for id in 0..5 {
        source.push_str(&format!("Record: {}\nP1: {}\nP2: \"t\"\nP3: 7\n%\n", id, -id));
        source.push_str("between\n");
        source.push_str(&format!("Record: {}\n12\n%\n", id));
    }
    let out = convert(&source);
    assert_eq!(out.numbers.lines().count(), 1 + 10);
    assert_eq!(out.strings.lines().count(), 1 + 5);
    let message = ParseError::of(ParseErrorKind::MissingFieldId).to_string();
    assert_eq!(out.errors, message.repeat(5));
}

#[test]
fn empty_source_gives_the_headers_alone() {
    let out = convert("");
    assert_eq!(out.numbers, "rec,field,val\n");
    assert_eq!(out.strings, "rec,field,val\n");
    assert_eq!(out.errors, "");
}

#[test]
fn scanned_chunk_parses_as_if_the_noise_were_absent() {
    let mut reader = SourceReader::new(SOURCE);
    let first = reader.read_record().unwrap();
    assert_eq!(
        parse_record(&first),
        parse_record("Record: 1\nP02: \"another sample text\"\nP01: -321\n%\n")
    );
    assert!(parse_record(&first).is_ok());
}

#[test]
fn text_with_a_line_feed_takes_two_lines() {
    let out = convert("Record: 1\nP01: \"two\nlines\"\nP02: 5\n%\n");
    assert_eq!(out.strings, "rec,field,val\n1;1;\"two\nlines\"\n");
    assert_eq!(out.strings.lines().count(), 3);
    assert_eq!(out.numbers, "rec,field,val\n1;2;5\n");
    assert_eq!(out.errors, "");
}

#[test]
fn errors_do_not_stop_the_conversion() {
    let out = convert("Record: x\n%\nRecord: 2\nP01: 1\n%\nRecord: 3\nP01: 1 1\n%\n");
    assert_eq!(out.numbers, "rec,field,val\n2;1;1\n");
    assert_eq!(out.strings, "rec,field,val\n");
    assert_eq!(
        out.errors,
        "Error when parsing \"header...\":\nExpected a record id (a number)\
         Error when parsing \"field...\":\nExpected new line"
    );
}
