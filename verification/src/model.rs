//! The typed form of a record, and the mathematical values that contracts
//! speak of.
use vstd::prelude::*;

verus! {

/// Identifier of a record or of a field.
pub type Id = i32;

/// The value of a field: a number or a text.
#[derive(Debug, PartialEq, Eq)]
pub enum FieldVal {
    Num(i32),
    Str(String),
}

/// One field of a record.
#[derive(Debug, PartialEq, Eq)]
pub struct Field {
    pub id: Id,
    pub value: FieldVal,
}

/// A record: its identifier and its fields, in the order of the source.
#[derive(Debug, PartialEq, Eq)]
pub struct Record {
    pub id: Id,
    pub fields: Vec<Field>,
}

/// What a [`FieldVal`] stands for.
pub enum FieldValView {
    Num(i32),
    Str(Seq<char>),
}

/// What a [`Field`] stands for.
pub struct FieldView {
    pub id: Id,
    pub value: FieldValView,
}

/// What a [`Record`] stands for.
pub struct RecordView {
    pub id: Id,
    pub fields: Seq<FieldView>,
}

impl View for FieldVal {
    type V = FieldValView;

    open spec fn view(&self) -> FieldValView {
        match self {
            FieldVal::Num(n) => FieldValView::Num(*n),
            FieldVal::Str(s) => FieldValView::Str(s@),
        }
    }
}

impl View for Field {
    type V = FieldView;

    open spec fn view(&self) -> FieldView {
        FieldView { id: self.id, value: self.value@ }
    }
}

/// The fields that a sequence of [`Field`] stands for, in the same order.
pub open spec fn fields_view(fields: Seq<Field>) -> Seq<FieldView> {
    Seq::new(fields.len(), |i: int| fields[i]@)
}

impl View for Record {
    type V = RecordView;

    open spec fn view(&self) -> RecordView {
        RecordView { id: self.id, fields: fields_view(self.fields@) }
    }
}

} // verus!
