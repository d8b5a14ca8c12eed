use rustaska::model::{Field, FieldVal, Record};
use rustaska::parser::ParseError;
use rustaska::persistence::{CsvWriter, Flushed};

const HEADER: &str = "rec,field,val\n";

struct Results {
    str: String,
    num: String,
    err: String,
}

fn run_for_result(result: Result<Record, ParseError>) -> Results {
    let mut csv_writer = CsvWriter::new();

    csv_writer.write_result(result);

    let out = csv_writer.flush();

    Results {
        num: out.numbers,
        str: out.strings,
        err: out.errors,
    }
}

#[test]
fn test_writing_rec() {
    let id = 66;
    let fields = vec![
        Field {
            id: 1,
            value: FieldVal::Num(321),
        },
        Field {
            id: 2,
            value: FieldVal::Str("sample text".to_owned()),
        },
        Field {
            id: 3,
            value: FieldVal::Str("sth".to_owned()),
        },
    ];
    let rec = Record { id, fields };

    let results = run_for_result(Ok(rec));

    let expected_num = HEADER.to_owned() + "66;1;321\n";
    let expected_str = HEADER.to_owned() + "66;2;\"sample text\"\n66;3;\"sth\"\n";

    assert_eq!(results.num, expected_num);
    assert_eq!(results.str, expected_str);
    assert_eq!(results.err, "");
}

#[test]
fn test_writing_err() {
    let err = ParseError::new("Record 1".to_owned(), "Something is wrong".to_owned());
    let err_str = err.to_string();
    let results = run_for_result(Err(err));

    assert_eq!(results.num, HEADER);
    assert_eq!(results.str, HEADER);
    assert_eq!(results.err, err_str);
}

#[test]
fn new_writer_holds_the_two_headers() {
    let mut writer = CsvWriter::new();
    assert_eq!(
        writer.flush(),
        Flushed {
            numbers: HEADER.to_owned(),
            strings: HEADER.to_owned(),
            errors: String::new(),
        }
    );
}

#[test]
fn flush_hands_over_once() {
    let mut writer = CsvWriter::new();
    writer.flush();
    let empty = Flushed {
        numbers: String::new(),
        strings: String::new(),
        errors: String::new(),
    };
    assert_eq!(writer.flush(), empty);
    writer.write_result(Ok(Record {
        id: 1,
        fields: vec![Field {
            id: 2,
            value: FieldVal::Num(3),
        }],
    }));
    let out = writer.flush();
    assert_eq!(out.numbers, "1;2;3\n");
    assert_eq!(out.strings, "");
    assert_eq!(out.errors, "");
    assert_eq!(writer.flush(), empty);
}

#[test]
fn numbers_are_written_in_decimal() {
    let mut writer = CsvWriter::new();
    writer.flush();
    writer.write_result(Ok(Record {
        id: i32::MIN,
        fields: vec![
            Field {
                id: i32::MAX,
                value: FieldVal::Num(0),
            },
            Field {
                id: 0,
                value: FieldVal::Num(-1),
            },
            Field {
                id: 10,
                value: FieldVal::Num(1000000),
            },
            Field {
                id: 909,
                value: FieldVal::Num(-90),
            },
        ],
    }));
    let out = writer.flush();
    assert_eq!(
        out.numbers,
        "-2147483648;2147483647;0\n-2147483648;0;-1\n-2147483648;10;1000000\n-2147483648;909;-90\n"
    );
}

#[test]
fn texts_are_written_between_quotes_as_they_are() {
    let mut writer = CsvWriter::new();
    writer.flush();
    writer.write_result(Ok(Record {
        id: -3,
        fields: vec![
            Field {
                id: 1,
                value: FieldVal::Str("a;b,c".to_owned()),
            },
            Field {
                id: 2,
                value: FieldVal::Str("say \"hi\"\nśnieg".to_owned()),
            },
            Field {
                id: 3,
                value: FieldVal::Str(String::new()),
            },
        ],
    }));
    let out = writer.flush();
    assert_eq!(
        out.strings,
        "-3;1;\"a;b,c\"\n-3;2;\"say \"hi\"\nśnieg\"\n-3;3;\"\"\n"
    );
    assert_eq!(out.numbers, "");
}

#[test]
fn errors_are_written_without_separator() {
    let mut writer = CsvWriter::new();
    writer.write_result(Err(ParseError::new("a".to_owned(), "b".to_owned())));
    writer.write_result(Err(ParseError::new("c".to_owned(), "d".to_owned())));
    let out = writer.flush();
    assert_eq!(
        out.errors,
        "Error when parsing \"a...\":\nbError when parsing \"c...\":\nd"
    );
    assert_eq!(out.numbers, HEADER);
    assert_eq!(out.strings, HEADER);
}

#[test]
fn rows_of_several_records_follow_in_order() {
    let mut writer = CsvWriter::new();
    for id in 1..=3 {
        writer.write_result(Ok(Record {
            id,
            fields: vec![
                Field {
                    id: 1,
                    value: FieldVal::Num(id * 10),
                },
                Field {
                    id: 2,
                    value: FieldVal::Str(format!("r{}", id)),
                },
            ],
        }));
    }
    let out = writer.flush();
    assert_eq!(out.numbers, "rec,field,val\n1;1;10\n2;1;20\n3;1;30\n");
    assert_eq!(
        out.strings,
        "rec,field,val\n1;2;\"r1\"\n2;2;\"r2\"\n3;2;\"r3\"\n"
    );
}
