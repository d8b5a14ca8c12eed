//! The rows and messages that the outcome of reading a chunk is laid out as.
//!
//! There are three sinks: one for the fields that hold a number, one for
//! those that hold a text, and one for the errors. The two tables start with
//! a header row. A writer gathers what is written to each sink until it is
//! flushed, which hands the gathered text over.
use vstd::prelude::*;
use vstd::string::StringExecFns;
use crate::decimal::{decimal, push_decimal};
use crate::model::{fields_view, Field, FieldVal, FieldValView, FieldView, Record, RecordView};
use crate::parser::{parsed_view, rendered, ParseError, ParseErrorView};

verus! {

/// The text of the three sinks.
pub struct Sinks {
    pub numbers: Seq<char>,
    pub strings: Seq<char>,
    pub errors: Seq<char>,
}

/// The row that each of the two tables starts with.
pub open spec fn header() -> Seq<char> {
    "rec,field,val\n"@
}

/// The sinks before any outcome is written: a header in each table.
pub open spec fn fresh() -> Sinks {
    Sinks { numbers: header(), strings: header(), errors: seq![] }
}

/// The sinks with nothing left to hand over.
pub open spec fn drained() -> Sinks {
    Sinks { numbers: seq![], strings: seq![], errors: seq![] }
}

/// The first two columns of a row: the record and the field.
pub open spec fn row_start(record: i32, field: i32) -> Seq<char> {
    decimal(record as int) + ";"@ + decimal(field as int)
}

/// The row of a field that holds a number.
pub open spec fn number_row(record: i32, field: i32, value: i32) -> Seq<char> {
    row_start(record, field) + ";"@ + decimal(value as int) + "\n"@
}

/// The row of a field that holds a text: the text stands between quotes, as
/// it is.
pub open spec fn string_row(record: i32, field: i32, value: Seq<char>) -> Seq<char> {
    row_start(record, field) + ";\""@ + value + "\"\n"@
}

/// The sinks after the row of one field of the record `record`.
pub open spec fn with_field(sinks: Sinks, record: i32, field: FieldView) -> Sinks {
    match field.value {
        FieldValView::Num(n) => Sinks {
            numbers: sinks.numbers + number_row(record, field.id, n),
            ..sinks
        },
        FieldValView::Str(t) => Sinks {
            strings: sinks.strings + string_row(record, field.id, t),
            ..sinks
        },
    }
}

/// The sinks after the rows of `fields`, in their order.
pub open spec fn with_fields(sinks: Sinks, record: i32, fields: Seq<FieldView>) -> Sinks
    decreases fields.len(),
{
    if fields.len() == 0 {
        sinks
    } else {
        with_field(with_fields(sinks, record, fields.drop_last()), record, fields.last())
    }
}

/// The sinks after one outcome: the rows of a record, or the text of an error
/// with nothing added to it.
pub open spec fn written(sinks: Sinks, outcome: Result<RecordView, ParseErrorView>) -> Sinks {
    match outcome {
        Ok(record) => with_fields(sinks, record.id, record.fields),
        Err(e) => Sinks { errors: sinks.errors + rendered(e), ..sinks },
    }
}

/// What has been written to each sink since it was last flushed.
#[derive(Debug, PartialEq, Eq)]
pub struct Flushed {
    pub numbers: String,
    pub strings: String,
    pub errors: String,
}

impl View for Flushed {
    type V = Sinks;

    open spec fn view(&self) -> Sinks {
        Sinks { numbers: self.numbers@, strings: self.strings@, errors: self.errors@ }
    }
}

/// A writer of outcomes to the three sinks.
pub struct CsvWriter {
    numbers: String,
    strings: String,
    errors: String,
}

impl View for CsvWriter {
    type V = Sinks;

    closed spec fn view(&self) -> Sinks {
        Sinks { numbers: self.numbers@, strings: self.strings@, errors: self.errors@ }
    }
}

impl CsvWriter {
    /// A writer whose two tables hold their header row.
    pub fn new() -> (writer: Self)
        ensures
            writer@ == fresh(),
    {
        CsvWriter {
            numbers: "rec,field,val\n".to_owned(),
            strings: "rec,field,val\n".to_owned(),
            errors: String::new(),
        }
    }

    /// Writes the row of one field.
    fn write_field(&mut self, record: i32, field: &Field)
        ensures
            final(self)@ == with_field(old(self)@, record, field@),
    {
        match &field.value {
            FieldVal::Num(n) => {
                push_decimal(&mut self.numbers, record);
                self.numbers.append(";");
                push_decimal(&mut self.numbers, field.id);
                self.numbers.append(";");
                push_decimal(&mut self.numbers, *n);
                self.numbers.append("\n");
                proof {
                    assert(self.numbers@ =~= old(self).numbers@ + number_row(
                        record,
                        field.id,
                        *n,
                    ));
                }
            },
            FieldVal::Str(t) => {
                push_decimal(&mut self.strings, record);
                self.strings.append(";");
                push_decimal(&mut self.strings, field.id);
                self.strings.append(";\"");
                self.strings.append(t.as_str());
                self.strings.append("\"\n");
                proof {
                    assert(self.strings@ =~= old(self).strings@ + string_row(
                        record,
                        field.id,
                        t@,
                    ));
                }
            },
        }
    }

    /// Writes one outcome: a row for each field of a record, in the order of
    /// the fields, or the text of an error.
    pub fn write_result(&mut self, result: Result<Record, ParseError>)
        ensures
            final(self)@ == written(old(self)@, parsed_view(result)),
    {
        match result {
            Ok(record) => {
                let mut i: usize = 0;
                while i < record.fields.len()
                    invariant
                        i <= record.fields@.len(),
                        self@ == with_fields(
                            old(self)@,
                            record.id,
                            fields_view(record.fields@).take(i as int),
                        ),
                    decreases record.fields@.len() - i,
                {
                    self.write_field(record.id, &record.fields[i]);
                    proof {
                        let all = fields_view(record.fields@);
                        assert(all.take(i + 1).drop_last() =~= all.take(i as int));
                    }
                    i = i + 1;
                }
                proof {
                    let all = fields_view(record.fields@);
                    assert(all.take(i as int) =~= all);
                }
            },
            Err(e) => {
                let text = e.to_string();
                self.errors.append(text.as_str());
            },
        }
    }

    /// Hands over what has been written since the last flush, and starts
    /// anew with nothing gathered.
    pub fn flush(&mut self) -> (out: Flushed)
        ensures
            out@ == old(self)@,
            final(self)@ == drained(),
    {
        let mut out = Flushed {
            numbers: String::new(),
            strings: String::new(),
            errors: String::new(),
        };
        std::mem::swap(&mut self.numbers, &mut out.numbers);
        std::mem::swap(&mut self.strings, &mut out.strings);
        std::mem::swap(&mut self.errors, &mut out.errors);
        out
    }
}

} // verus!
