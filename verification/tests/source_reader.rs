use rustaska::source_reader::{Scanner, SourceReader};

const EXAMPLE_INPUT: &str = "\
Something to filter out at the beginning
Record: 1
P02: \"another sample text\"
P01: -321
%
Record: 2
P01: 321
P02: \"sample text\"
P03:  \"sth\"
%
Record: 3
P02: \"another sample text\"
g4rb4ge
P01: -123
%
Something to filter out at the end
";

const REC1: &str = "\
Record: 1
P02: \"another sample text\"
P01: -321
%
";

const REC2: &str = "\
Record: 2
P01: 321
P02: \"sample text\"
P03:  \"sth\"
%
";

const REC3: &str = "\
Record: 3
P02: \"another sample text\"
g4rb4ge
P01: -123
%
";

#[test]
fn test_read_record() {
    let mut src_reader = SourceReader::new(EXAMPLE_INPUT);

    let results: Vec<_> = (0..4).map(|_| src_reader.read_record()).collect();

    assert_eq!(results[0], Some(REC1.to_owned()));
    assert_eq!(results[1], Some(REC2.to_owned()));
    assert_eq!(results[2], Some(REC3.to_owned()));
    assert_eq!(results[3], None);
}

fn chunks(input: &str) -> Vec<String> {
    let mut reader = SourceReader::new(input);
    let mut found = Vec::new();
    while let Some(chunk) = reader.read_record() {
        found.push(chunk);
    }
    assert_eq!(reader.read_record(), None);
    found
}

#[test]
fn noise_before_the_first_record_is_dropped() {
    let record = "Record: 1\nP1: 2\n%\n";
    let noisy = format!("noise\n\n  Record: 0\n%\nP1: 2\n{}", record);
    assert_eq!(chunks(&noisy), chunks(record));
    assert_eq!(chunks(&noisy), vec![record.to_owned()]);
}

#[test]
fn text_without_records_has_no_chunks() {
    assert_eq!(chunks(""), Vec::<String>::new());
    assert_eq!(chunks("\n\n"), Vec::<String>::new());
    assert_eq!(chunks("nothing here\nat all"), Vec::<String>::new());
    assert_eq!(chunks("%\n%\n"), Vec::<String>::new());
}

#[test]
fn record_that_is_not_closed_is_dropped() {
    assert_eq!(chunks("Record: 1\nP1: 2\n"), Vec::<String>::new());
    assert_eq!(chunks("Record: 1\nP1: 2\n%"), Vec::<String>::new());
    assert_eq!(
        chunks("Record: 1\n%\nRecord: 2\nP1: 2\n"),
        vec!["Record: 1\n%\n".to_owned()]
    );
}

#[test]
fn only_a_bare_percent_line_closes_a_chunk() {
    assert_eq!(
        chunks("Record: 1\n %\n% \n%%\n%\nafter\n"),
        vec!["Record: 1\n %\n% \n%%\n%\n".to_owned()]
    );
}

#[test]
fn a_record_line_inside_a_record_is_kept() {
    assert_eq!(
        chunks("Record: 1\nRecord: 2\n%\n"),
        vec!["Record: 1\nRecord: 2\n%\n".to_owned()]
    );
}

#[test]
fn any_line_that_starts_with_the_marker_opens_a_chunk() {
    assert_eq!(chunks("Records\n%\n"), vec!["Records\n%\n".to_owned()]);
    assert_eq!(chunks("Record"), Vec::<String>::new());
    assert_eq!(chunks(" Record: 1\n%\n"), Vec::<String>::new());
    assert_eq!(chunks("record: 1\n%\n"), Vec::<String>::new());
}

#[test]
fn chunks_keep_their_text_as_it_is() {
    let input = "Record: 1\nP1: \"zażółć\"\n\tżółw\n%\n";
    assert_eq!(chunks(input), vec![input.to_owned()]);
}

#[test]
fn scanner_fed_line_by_line_finds_the_same_chunks() {
    let mut scanner = Scanner::new();
    let mut found = Vec::new();
    for line in EXAMPLE_INPUT.split_inclusive('\n') {
        if let Some(chunk) = scanner.push_line(line) {
            found.push(chunk);
        }
    }
    assert_eq!(found, vec![REC1.to_owned(), REC2.to_owned(), REC3.to_owned()]);
    assert_eq!(found, chunks(EXAMPLE_INPUT));
}

#[test]
fn scanner_is_outside_a_record_after_a_chunk() {
    let mut scanner = Scanner::new();
    assert_eq!(scanner.push_line("%\n"), None);
    assert_eq!(scanner.push_line("Record: 1\n"), None);
    assert_eq!(scanner.push_line("%\n"), Some("Record: 1\n%\n".to_owned()));
    assert_eq!(scanner.push_line("P1: 2\n"), None);
    assert_eq!(scanner.push_line("%\n"), None);
    assert_eq!(scanner.push_line("Record: 2\n"), None);
    assert_eq!(scanner.push_line("%"), None);
    assert_eq!(scanner.push_line("%\n"), Some("Record: 2\n%%\n".to_owned()));
}

#[test]
fn chunk_is_a_part_of_the_text() {
    let input = "x\nRecord: 1\n\n  odd line\n%\ny\n";
    let found = chunks(input);
    assert_eq!(found.len(), 1);
    assert!(input.contains(&found[0]));
    assert!(found[0].starts_with("Record"));
    assert!(found[0].ends_with("%\n"));
}
