//! The whole conversion of a source text held in memory, and what holds of
//! the three sinks behind it.
use vstd::prelude::*;
use crate::decimal::{decimal, decimal_nat, digit_char};
use crate::model::{FieldValView, FieldView, RecordView};
use crate::parser::{parse_outcome, parse_record, parsed_view, rendered, ParseErrorView};
use crate::persistence::{
    fresh, header, number_row, row_start, string_row, with_fields, written, CsvWriter, Flushed,
    Sinks,
};
use crate::source_reader::{lemma_scan_consumed, scan, SourceReader};
use crate::text::bytes_of;

verus! {

/// The outcomes of reading the chunks of the source text `s`, in the order
/// of the text.
pub open spec fn outcomes(s: Seq<u8>) -> Seq<Result<RecordView, ParseErrorView>>
    decreases s.len(),
    via outcomes_decreases
{
    let found = scan(s, seq![]);
    match found.chunk {
        Some(chunk) => seq![parse_outcome(chunk)] + outcomes(s.skip(found.consumed)),
        None => seq![],
    }
}

#[via_fn]
proof fn outcomes_decreases(s: Seq<u8>) {
    lemma_scan_consumed(s, seq![]);
}

/// The sinks after each of `outcomes` is written, in their order.
pub open spec fn written_all(sinks: Sinks, outcomes: Seq<Result<RecordView, ParseErrorView>>)
    -> Sinks
    decreases outcomes.len(),
{
    if outcomes.len() == 0 {
        sinks
    } else {
        written(written_all(sinks, outcomes.drop_last()), outcomes.last())
    }
}

/// Converts a source text: each chunk is read as a record and written, the
/// non-records as errors, in the order of the text.
pub fn convert(source: &str) -> (out: Flushed)
    ensures
        out@ == written_all(fresh(), outcomes(bytes_of(source@))),
{
    let ghost s = bytes_of(source@);
    let mut reader = SourceReader::new(source);
    let mut writer = CsvWriter::new();
    let ghost mut done: Seq<Result<RecordView, ParseErrorView>> = seq![];
    loop
        invariant_except_break
            outcomes(s) == done + outcomes(reader.rest()),
        invariant
            writer@ == written_all(fresh(), done),
        ensures
            writer@ == written_all(fresh(), outcomes(s)),
        decreases reader.rest().len(),
    {
        let ghost rest = reader.rest();
        proof {
            lemma_scan_consumed(rest, seq![]);
        }
        match reader.read_record() {
            Some(chunk) => {
                let parsed = parse_record(chunk.as_str());
                let ghost outcome = parsed_view(parsed);
                writer.write_result(parsed);
                proof {
                    let before = done;
                    done = done.push(outcome);
                    assert(done.drop_last() =~= before);
                }
            },
            None => {
                break ;
            },
        }
    }
    writer.flush()
}

/// The number of line feeds in a text, which is the number of its lines
/// where each line ends with one.
pub open spec fn count_newlines(text: Seq<char>) -> nat
    decreases text.len(),
{
    if text.len() == 0 {
        0
    } else {
        count_newlines(text.drop_last()) + if text.last() == '\n' {
            1nat
        } else {
            0nat
        }
    }
}

/// The number of fields that hold a number.
pub open spec fn number_fields(fields: Seq<FieldView>) -> nat
    decreases fields.len(),
{
    if fields.len() == 0 {
        0
    } else {
        number_fields(fields.drop_last()) + if fields.last().value is Num {
            1nat
        } else {
            0nat
        }
    }
}

/// The number of fields that hold a text.
pub open spec fn string_fields(fields: Seq<FieldView>) -> nat
    decreases fields.len(),
{
    if fields.len() == 0 {
        0
    } else {
        string_fields(fields.drop_last()) + if fields.last().value is Str {
            1nat
        } else {
            0nat
        }
    }
}

/// Whether no text among the values of `fields` holds a line feed.
pub open spec fn single_line_fields(fields: Seq<FieldView>) -> bool {
    forall|i: int|
        0 <= i < fields.len() ==> (#[trigger] fields[i].value matches FieldValView::Str(t)
            ==> count_newlines(t) == 0)
}

/// The number of fields that hold a number, over all the records among
/// `outcomes`.
pub open spec fn total_numbers(outcomes: Seq<Result<RecordView, ParseErrorView>>) -> nat
    decreases outcomes.len(),
{
    if outcomes.len() == 0 {
        0
    } else {
        total_numbers(outcomes.drop_last()) + match outcomes.last() {
            Ok(record) => number_fields(record.fields),
            Err(_) => 0,
        }
    }
}

/// The number of fields that hold a text, over all the records among
/// `outcomes`.
pub open spec fn total_strings(outcomes: Seq<Result<RecordView, ParseErrorView>>) -> nat
    decreases outcomes.len(),
{
    if outcomes.len() == 0 {
        0
    } else {
        total_strings(outcomes.drop_last()) + match outcomes.last() {
            Ok(record) => string_fields(record.fields),
            Err(_) => 0,
        }
    }
}

/// Whether no text among the values of the records among `outcomes` holds a
/// line feed.
pub open spec fn single_line_texts(outcomes: Seq<Result<RecordView, ParseErrorView>>) -> bool {
    forall|i: int|
        0 <= i < outcomes.len() ==> (#[trigger] outcomes[i] matches Ok(record)
            ==> single_line_fields(record.fields))
}

/// The texts of the errors among `outcomes`, in their order.
pub open spec fn error_texts(outcomes: Seq<Result<RecordView, ParseErrorView>>) -> Seq<Seq<char>>
    decreases outcomes.len(),
{
    if outcomes.len() == 0 {
        seq![]
    } else {
        match outcomes.last() {
            Ok(_) => error_texts(outcomes.drop_last()),
            Err(e) => error_texts(outcomes.drop_last()).push(rendered(e)),
        }
    }
}

/// The number of errors among `outcomes`.
pub open spec fn total_errors(outcomes: Seq<Result<RecordView, ParseErrorView>>) -> nat
    decreases outcomes.len(),
{
    if outcomes.len() == 0 {
        0
    } else {
        total_errors(outcomes.drop_last()) + if outcomes.last() is Err {
            1nat
        } else {
            0nat
        }
    }
}

/// The texts one behind the other, with nothing between them.
pub open spec fn joined(texts: Seq<Seq<char>>) -> Seq<char>
    decreases texts.len(),
{
    if texts.len() == 0 {
        seq![]
    } else {
        joined(texts.drop_last()) + texts.last()
    }
}

/// The line feeds of two texts, one behind the other, are those of both.
pub proof fn lemma_newlines_concat(a: Seq<char>, b: Seq<char>)
    ensures
        count_newlines(a + b) == count_newlines(a) + count_newlines(b),
    decreases b.len(),
{
    if b.len() > 0 {
        lemma_newlines_concat(a, b.drop_last());
        assert((a + b).drop_last() =~= a + b.drop_last());
    }
}

/// A text of which no character is a line feed holds none.
pub proof fn lemma_no_newlines(text: Seq<char>)
    requires
        forall|i: int| 0 <= i < text.len() ==> text[i] != '\n',
    ensures
        count_newlines(text) == 0,
    decreases text.len(),
{
    if text.len() > 0 {
        lemma_no_newlines(text.drop_last());
    }
}

/// The text of a line feed alone holds one line feed.
pub proof fn lemma_newline_alone()
    ensures
        count_newlines("\n"@) == 1,
{
    reveal_strlit("\n");
    reveal_with_fuel(count_newlines, 2);
}

/// The digits of a number hold no line feed.
pub proof fn lemma_digits_hold_no_newline(n: nat)
    ensures
        count_newlines(decimal_nat(n)) == 0,
    decreases n,
{
    if n < 10 {
        lemma_no_newlines(decimal_nat(n));
    } else {
        lemma_digits_hold_no_newline(n / 10);
        lemma_no_newlines(seq![digit_char((n % 10) as int)]);
        lemma_newlines_concat(decimal_nat(n / 10), seq![digit_char((n % 10) as int)]);
    }
}

/// The decimal form of a number holds no line feed.
pub proof fn lemma_decimal_holds_no_newline(n: int)
    ensures
        count_newlines(decimal(n)) == 0,
{
    if n < 0 {
        lemma_digits_hold_no_newline((-n) as nat);
        lemma_no_newlines(seq!['-']);
        lemma_newlines_concat(seq!['-'], decimal_nat((-n) as nat));
    } else {
        lemma_digits_hold_no_newline(n as nat);
    }
}

/// The first two columns of a row hold no line feed.
pub proof fn lemma_row_start_holds_no_newline(record: i32, field: i32)
    ensures
        count_newlines(row_start(record, field)) == 0,
{
    reveal_strlit(";");
    lemma_decimal_holds_no_newline(record as int);
    lemma_decimal_holds_no_newline(field as int);
    lemma_no_newlines(";"@);
    lemma_newlines_concat(decimal(record as int), ";"@);
    lemma_newlines_concat(decimal(record as int) + ";"@, decimal(field as int));
}

/// The row of a number is one line.
pub proof fn lemma_number_row_is_one_line(record: i32, field: i32, value: i32)
    ensures
        count_newlines(number_row(record, field, value)) == 1,
{
    reveal_strlit(";");
    lemma_row_start_holds_no_newline(record, field);
    lemma_decimal_holds_no_newline(value as int);
    lemma_no_newlines(";"@);
    lemma_newline_alone();
    let a = row_start(record, field);
    lemma_newlines_concat(a, ";"@);
    lemma_newlines_concat(a + ";"@, decimal(value as int));
    lemma_newlines_concat(a + ";"@ + decimal(value as int), "\n"@);
}

/// The row of a text has one line more than the text has line feeds.
pub proof fn lemma_string_row_lines(record: i32, field: i32, value: Seq<char>)
    ensures
        count_newlines(string_row(record, field, value)) == 1 + count_newlines(value),
{
    reveal_strlit(";\"");
    reveal_strlit("\"\n");
    reveal_strlit("\"");
    reveal_strlit("\n");
    lemma_row_start_holds_no_newline(record, field);
    lemma_no_newlines(";\""@);
    lemma_no_newlines("\""@);
    lemma_newline_alone();
    assert("\"\n"@ =~= "\""@ + "\n"@);
    lemma_newlines_concat("\""@, "\n"@);
    let a = row_start(record, field);
    lemma_newlines_concat(a, ";\""@);
    lemma_newlines_concat(a + ";\""@, value);
    lemma_newlines_concat(a + ";\""@ + value, "\"\n"@);
}

/// The header is one line.
pub proof fn lemma_header_is_one_line()
    ensures
        count_newlines(header()) == 1,
{
    reveal_strlit("rec,field,val\n");
    reveal_strlit("rec,field,val");
    reveal_strlit("\n");
    assert(header() =~= "rec,field,val"@ + "\n"@);
    lemma_no_newlines("rec,field,val"@);
    lemma_newline_alone();
    lemma_newlines_concat("rec,field,val"@, "\n"@);
}

/// Writing the fields of a record adds one line to the table of numbers for
/// each field that holds a number, one line to the table of texts for each
/// field that holds a text, where no text holds a line feed, and nothing to
/// the errors.
pub proof fn lemma_fields_add_lines(sinks: Sinks, record: i32, fields: Seq<FieldView>)
    ensures
        count_newlines(with_fields(sinks, record, fields).numbers) == count_newlines(sinks.numbers)
            + number_fields(fields),
        single_line_fields(fields) ==> count_newlines(with_fields(sinks, record, fields).strings)
            == count_newlines(sinks.strings) + string_fields(fields),
        with_fields(sinks, record, fields).errors == sinks.errors,
    decreases fields.len(),
{
    if fields.len() > 0 {
        let before = with_fields(sinks, record, fields.drop_last());
        let field = fields.last();
        lemma_fields_add_lines(sinks, record, fields.drop_last());
        if single_line_fields(fields) {
            assert forall|i: int| 0 <= i < fields.drop_last().len() implies (
            #[trigger] fields.drop_last()[i].value matches FieldValView::Str(t) ==> count_newlines(
                t,
            ) == 0) by {
            }
        }
        match field.value {
            FieldValView::Num(n) => {
                lemma_number_row_is_one_line(record, field.id, n);
                lemma_newlines_concat(before.numbers, number_row(record, field.id, n));
            },
            FieldValView::Str(t) => {
                lemma_string_row_lines(record, field.id, t);
                lemma_newlines_concat(before.strings, string_row(record, field.id, t));
            },
        }
    }
}

/// The table of numbers holds the header and one line for each field that
/// holds a number, of each record that was read.
pub proof fn lemma_numbers_lines(outcomes: Seq<Result<RecordView, ParseErrorView>>)
    ensures
        count_newlines(written_all(fresh(), outcomes).numbers) == 1 + total_numbers(outcomes),
    decreases outcomes.len(),
{
    if outcomes.len() == 0 {
        lemma_header_is_one_line();
    } else {
        lemma_numbers_lines(outcomes.drop_last());
        let before = written_all(fresh(), outcomes.drop_last());
        match outcomes.last() {
            Ok(record) => {
                lemma_fields_add_lines(before, record.id, record.fields);
            },
            Err(_) => {},
        }
    }
}

/// The table of texts holds the header and one line for each field that
/// holds a text, of each record that was read, where no such text holds a
/// line feed.
pub proof fn lemma_strings_lines(outcomes: Seq<Result<RecordView, ParseErrorView>>)
    requires
        single_line_texts(outcomes),
    ensures
        count_newlines(written_all(fresh(), outcomes).strings) == 1 + total_strings(outcomes),
    decreases outcomes.len(),
{
    if outcomes.len() == 0 {
        lemma_header_is_one_line();
    } else {
        assert forall|i: int| 0 <= i < outcomes.drop_last().len() implies (
        #[trigger] outcomes.drop_last()[i] matches Ok(record) ==> single_line_fields(
            record.fields,
        )) by {
        }
        lemma_strings_lines(outcomes.drop_last());
        let before = written_all(fresh(), outcomes.drop_last());
        match outcomes.last() {
            Ok(record) => {
                lemma_fields_add_lines(before, record.id, record.fields);
            },
            Err(_) => {},
        }
    }
}

/// The errors hold the text of each chunk that is no record, in the order
/// of the chunks, with nothing between them; there are as many texts as
/// there are such chunks.
pub proof fn lemma_errors_text(outcomes: Seq<Result<RecordView, ParseErrorView>>)
    ensures
        written_all(fresh(), outcomes).errors == joined(error_texts(outcomes)),
        error_texts(outcomes).len() == total_errors(outcomes),
    decreases outcomes.len(),
{
    if outcomes.len() > 0 {
        lemma_errors_text(outcomes.drop_last());
        let before = written_all(fresh(), outcomes.drop_last());
        match outcomes.last() {
            Ok(record) => {
                lemma_fields_add_lines(before, record.id, record.fields);
            },
            Err(e) => {
                let texts = error_texts(outcomes.drop_last());
                assert(texts.push(rendered(e)).drop_last() =~= texts);
            },
        }
    }
}

/// What a conversion leaves in the three sinks, for every source text: in
/// the table of numbers the header and one line for each field that holds a
/// number; in the table of texts, where no text holds a line feed, the header
/// and one line for each field that holds a text; in the errors the texts of
/// the chunks that are no records, as many as there are.
pub proof fn lemma_conversion_counts(source: Seq<u8>)
    ensures
        count_newlines(written_all(fresh(), outcomes(source)).numbers) == 1 + total_numbers(
            outcomes(source),
        ),
        single_line_texts(outcomes(source)) ==> count_newlines(
            written_all(fresh(), outcomes(source)).strings,
        ) == 1 + total_strings(outcomes(source)),
        written_all(fresh(), outcomes(source)).errors == joined(error_texts(outcomes(source))),
        error_texts(outcomes(source)).len() == total_errors(outcomes(source)),
{
    lemma_numbers_lines(outcomes(source));
    if single_line_texts(outcomes(source)) {
        lemma_strings_lines(outcomes(source));
    }
    lemma_errors_text(outcomes(source));
}

} // verus!
