//! The grammar of a record, read from the tokens of one chunk with one token
//! of lookahead:
//!
//! ```text
//! record := RecordStart Number NewLine field* RecordEnd NewLine
//! field  := FieldId value NewLine
//! value  := Number | StringLit
//! ```
//!
//! Behind the token that ends the record the chunk holds one line feed and
//! nothing else. A chunk is read whole or not at all: the first token that
//! the grammar does not allow ends the reading with an error.
use vstd::prelude::*;
use vstd::string::StringExecFns;
use crate::lexer::{
    lemma_lex_advances, lemma_lex_at_end, lemma_lex_extend, lemma_tokens_head, lemma_tokens_step,
    lex, tokens_from,
    LexError, Lexed, Lexer, Token, TokenView,
};
use crate::model::{fields_view, Field, FieldVal, FieldValView, FieldView, Record, RecordView};
use crate::text::{
    bytes_of, ends_with_terminator, lemma_newline_bytes, lemma_run_end, same_text, ByteClass,
    NEWLINE, PERCENT,
};

verus! {

/// The ways in which a chunk can break the grammar.
#[derive(Debug, Clone, Copy, PartialEq, Eq)]
pub enum ParseErrorKind {
    /// The chunk does not start with the marker of a record.
    MissingRecordStart,
    /// No number follows the marker.
    MissingRecordId,
    /// The line of the marker goes on behind the number.
    MissingHeaderNewLine,
    /// A token stands where a field or the end of the record must start.
    MissingFieldId,
    /// The end of the record is missing, or something other than one line
    /// feed follows it.
    TrailingContent,
    /// A token that is no value follows a field identifier.
    MissingFieldValue,
    /// No token at all follows a field identifier.
    UnreadableFieldValue,
    /// The line of a field goes on behind its value.
    MissingFieldNewLine,
}

/// The part of the grammar in which a failure of `kind` arises.
pub open spec fn context_text(kind: ParseErrorKind) -> Seq<char> {
    match kind {
        ParseErrorKind::MissingRecordStart => "header"@,
        ParseErrorKind::MissingRecordId => "header"@,
        ParseErrorKind::MissingHeaderNewLine => "header"@,
        ParseErrorKind::MissingFieldId => "fields"@,
        ParseErrorKind::TrailingContent => "fields"@,
        ParseErrorKind::MissingFieldValue => "field"@,
        ParseErrorKind::UnreadableFieldValue => "field"@,
        ParseErrorKind::MissingFieldNewLine => "field"@,
    }
}

/// The diagnostic of a failure of `kind`.
pub open spec fn message_text(kind: ParseErrorKind) -> Seq<char> {
    match kind {
        ParseErrorKind::MissingRecordStart => "Expected string: \"Record:\""@,
        ParseErrorKind::MissingRecordId => "Expected a record id (a number)"@,
        ParseErrorKind::MissingHeaderNewLine => "Expected a new line"@,
        ParseErrorKind::MissingFieldId => "Expected field id (eg. \"P12:\")"@,
        ParseErrorKind::TrailingContent => "Unexpected content after RecordEnd"@,
        ParseErrorKind::MissingFieldValue => "Expected field value (number or quoted string)"@,
        ParseErrorKind::UnreadableFieldValue => "Found unexpected... something"@,
        ParseErrorKind::MissingFieldNewLine => "Expected new line"@,
    }
}

impl ParseErrorKind {
    /// The part of the grammar in which the failure arises.
    pub fn context(self) -> (r: &'static str)
        ensures
            r@ == context_text(self),
    {
        match self {
            ParseErrorKind::MissingRecordStart => "header",
            ParseErrorKind::MissingRecordId => "header",
            ParseErrorKind::MissingHeaderNewLine => "header",
            ParseErrorKind::MissingFieldId => "fields",
            ParseErrorKind::TrailingContent => "fields",
            ParseErrorKind::MissingFieldValue => "field",
            ParseErrorKind::UnreadableFieldValue => "field",
            ParseErrorKind::MissingFieldNewLine => "field",
        }
    }

    /// The diagnostic of the failure.
    pub fn message(self) -> (r: &'static str)
        ensures
            r@ == message_text(self),
    {
        match self {
            ParseErrorKind::MissingRecordStart => "Expected string: \"Record:\"",
            ParseErrorKind::MissingRecordId => "Expected a record id (a number)",
            ParseErrorKind::MissingHeaderNewLine => "Expected a new line",
            ParseErrorKind::MissingFieldId => "Expected field id (eg. \"P12:\")",
            ParseErrorKind::TrailingContent => "Unexpected content after RecordEnd",
            ParseErrorKind::MissingFieldValue => "Expected field value (number or quoted string)",
            ParseErrorKind::UnreadableFieldValue => "Found unexpected... something",
            ParseErrorKind::MissingFieldNewLine => "Expected new line",
        }
    }
}

/// Why a chunk is no record: where the reading failed, and on what.
#[derive(Debug, PartialEq, Eq)]
pub struct ParseError {
    ctx: String,
    msg: String,
}

/// What a [`ParseError`] stands for.
pub struct ParseErrorView {
    pub ctx: Seq<char>,
    pub msg: Seq<char>,
}

/// The error that reports a failure of `kind`.
pub open spec fn error_of(kind: ParseErrorKind) -> ParseErrorView {
    ParseErrorView { ctx: context_text(kind), msg: message_text(kind) }
}

/// The text that reports `e`.
pub open spec fn rendered(e: ParseErrorView) -> Seq<char> {
    "Error when parsing \""@ + e.ctx + "...\":\n"@ + e.msg
}

impl View for ParseError {
    type V = ParseErrorView;

    closed spec fn view(&self) -> ParseErrorView {
        ParseErrorView { ctx: self.ctx@, msg: self.msg@ }
    }
}

impl ParseError {
    /// An error with the given context and diagnostic.
    pub fn new(ctx: String, msg: String) -> (e: Self)
        ensures
            e@ == (ParseErrorView { ctx: ctx@, msg: msg@ }),
    {
        ParseError { ctx, msg }
    }

    /// The error that reports a failure of `kind`.
    pub fn of(kind: ParseErrorKind) -> (e: Self)
        ensures
            e@ == error_of(kind),
    {
        ParseError { ctx: kind.context().to_owned(), msg: kind.message().to_owned() }
    }

    /// The part of the grammar in which the reading failed.
    pub fn context(&self) -> (r: &str)
        ensures
            r@ == self@.ctx,
    {
        self.ctx.as_str()
    }

    /// The diagnostic.
    pub fn message(&self) -> (r: &str)
        ensures
            r@ == self@.msg,
    {
        self.msg.as_str()
    }

    /// The text that reports the error.
    pub fn to_string(&self) -> (r: String)
        ensures
            r@ == rendered(self@),
    {
        let mut r = "Error when parsing \"".to_owned();
        r.append(self.ctx.as_str());
        r.append("...\":\n");
        r.append(self.msg.as_str());
        r
    }
}

/// The value and the end of line that follow a field identifier at `pos`:
/// the field and the offset behind its line, or the failure.
pub open spec fn parse_field_spec(s: Seq<u8>, id: i32, pos: int) -> Result<
    (FieldView, int),
    ParseErrorKind,
> {
    match lex(s, pos) {
        Lexed::Token(TokenView::Number(n), p) => end_of_field(
            s,
            FieldView { id, value: FieldValView::Num(n) },
            p,
        ),
        Lexed::Token(TokenView::StringLit(t), p) => end_of_field(
            s,
            FieldView { id, value: FieldValView::Str(t) },
            p,
        ),
        Lexed::Token(_, _) => Err(ParseErrorKind::MissingFieldValue),
        _ => Err(ParseErrorKind::UnreadableFieldValue),
    }
}

/// The end of the line of `field`, whose value ends at `pos`.
pub open spec fn end_of_field(s: Seq<u8>, field: FieldView, pos: int) -> Result<
    (FieldView, int),
    ParseErrorKind,
> {
    match lex(s, pos) {
        Lexed::Token(TokenView::NewLine, p) => Ok((field, p)),
        _ => Err(ParseErrorKind::MissingFieldNewLine),
    }
}

/// `fields` in front of what `rest` holds, or the failure of `rest`.
pub open spec fn prepend(fields: Seq<FieldView>, rest: Result<Seq<FieldView>, ParseErrorKind>)
    -> Result<Seq<FieldView>, ParseErrorKind> {
    match rest {
        Ok(more) => Ok(fields + more),
        Err(kind) => Err(kind),
    }
}

/// The fields from `pos` up to the end of the record, in the order of the
/// chunk, or the first failure.
pub open spec fn parse_fields_spec(s: Seq<u8>, pos: int) -> Result<Seq<FieldView>, ParseErrorKind>
    decreases s.len() - pos,
    when 0 <= pos <= s.len()
    via parse_fields_decreases
{
    match lex(s, pos) {
        Lexed::Token(TokenView::FieldId(id), p) => match parse_field_spec(s, id, p) {
            Ok((field, next)) => prepend(seq![field], parse_fields_spec(s, next)),
            Err(kind) => Err(kind),
        },
        Lexed::Token(TokenView::RecordEnd, p) => if s.subrange(p, s.len() as int) == bytes_of(
            "\n"@,
        ) {
            Ok(seq![])
        } else {
            Err(ParseErrorKind::TrailingContent)
        },
        Lexed::Token(_, _) => Err(ParseErrorKind::MissingFieldId),
        _ => Err(ParseErrorKind::TrailingContent),
    }
}

#[via_fn]
proof fn parse_fields_decreases(s: Seq<u8>, pos: int) {
    lemma_lex_advances(s, pos);
    match lex(s, pos) {
        Lexed::Token(TokenView::FieldId(id), p) => {
            lemma_field_advances(s, id, p);
        },
        _ => {},
    }
}

/// The record that the chunk `s` holds, or the first failure.
pub open spec fn parse_record_spec(s: Seq<u8>) -> Result<RecordView, ParseErrorKind> {
    match lex(s, 0) {
        Lexed::Token(TokenView::RecordStart, after_start) => match lex(s, after_start) {
            Lexed::Token(TokenView::Number(id), after_id) => match lex(s, after_id) {
                Lexed::Token(TokenView::NewLine, body) => match parse_fields_spec(s, body) {
                    Ok(fields) => Ok(RecordView { id, fields }),
                    Err(kind) => Err(kind),
                },
                _ => Err(ParseErrorKind::MissingHeaderNewLine),
            },
            _ => Err(ParseErrorKind::MissingRecordId),
        },
        _ => Err(ParseErrorKind::MissingRecordStart),
    }
}

/// What the outcome of reading a chunk stands for.
pub open spec fn parsed_view(r: Result<Record, ParseError>) -> Result<RecordView, ParseErrorView> {
    match r {
        Ok(record) => Ok(record@),
        Err(e) => Err(e@),
    }
}

/// What reading the chunk `s` gives: its record, or the error that reports
/// the first failure.
pub open spec fn parse_outcome(s: Seq<u8>) -> Result<RecordView, ParseErrorView> {
    match parse_record_spec(s) {
        Ok(record) => Ok(record),
        Err(kind) => Err(error_of(kind)),
    }
}

/// Reads the value and the end of line of the field `id`.
fn parse_field(id: i32, lexer: &mut Lexer) -> (r: Result<Field, ParseError>)
    requires
        0 <= old(lexer).offset() <= old(lexer).source().len(),
    ensures
        final(lexer).source() == old(lexer).source(),
        0 <= final(lexer).offset() <= final(lexer).source().len(),
        match parse_field_spec(old(lexer).source(), id, old(lexer).offset()) {
            Ok((field, next)) => r matches Ok(f) && f@ == field && final(lexer).offset() == next,
            Err(kind) => r matches Err(e) && e@ == error_of(kind),
        },
{
    let value = match lexer.next_token() {
        Some(Ok(Token::Number(n))) => FieldVal::Num(n),
        Some(Ok(Token::StringLit(t))) => FieldVal::Str(t),
        Some(Ok(_)) => {
            return Err(ParseError::of(ParseErrorKind::MissingFieldValue));
        },
        _ => {
            return Err(ParseError::of(ParseErrorKind::UnreadableFieldValue));
        },
    };
    match lexer.next_token() {
        Some(Ok(Token::NewLine)) => Ok(Field { id, value }),
        _ => Err(ParseError::of(ParseErrorKind::MissingFieldNewLine)),
    }
}

/// Reads the fields up to the end of the record.
fn parse_fields(lexer: &mut Lexer) -> (r: Result<Vec<Field>, ParseError>)
    requires
        0 <= old(lexer).offset() <= old(lexer).source().len(),
    ensures
        match parse_fields_spec(old(lexer).source(), old(lexer).offset()) {
            Ok(fields) => r matches Ok(v) && fields_view(v@) == fields,
            Err(kind) => r matches Err(e) && e@ == error_of(kind),
        },
{
    let ghost s = lexer.source();
    let ghost start = lexer.offset();
    let mut fields: Vec<Field> = Vec::new();
    loop
        invariant
            s == old(lexer).source(),
            start == old(lexer).offset(),
            0 <= start <= s.len(),
            lexer.source() == s,
            0 <= lexer.offset() <= s.len(),
            parse_fields_spec(s, start) == prepend(
                fields_view(fields@),
                parse_fields_spec(s, lexer.offset()),
            ),
        decreases s.len() - lexer.offset(),
    {
        let ghost read = fields@;
        match lexer.next_token() {
            Some(Ok(Token::FieldId(id))) => {
                proof {
                    lemma_field_advances(s, id, lexer.offset());
                }
                match parse_field(id, lexer) {
                    Ok(field) => {
                        fields.push(field);
                        proof {
                            match parse_fields_spec(s, lexer.offset()) {
                                Ok(more) => {
                                    assert(fields_view(read) + (seq![field@] + more)
                                        =~= fields_view(fields@) + more);
                                },
                                Err(_) => {},
                            }
                        }
                    },
                    Err(e) => {
                        return Err(e);
                    },
                }
            },
            Some(Ok(Token::RecordEnd)) => {
                if same_text(lexer.remainder(), "\n") {
                    return Ok(fields);
                } else {
                    return Err(ParseError::of(ParseErrorKind::TrailingContent));
                }
            },
            Some(Ok(_)) => {
                return Err(ParseError::of(ParseErrorKind::MissingFieldId));
            },
            _ => {
                return Err(ParseError::of(ParseErrorKind::TrailingContent));
            },
        }
    }
}

/// Reads one chunk as a record.
///
/// The result is `Ok` exactly for a chunk that follows the grammar, and then
/// holds its fields in the order in which the chunk holds them; otherwise it
/// is the error of the first failure met.
pub fn parse_record(input: &str) -> (r: Result<Record, ParseError>)
    ensures
        parsed_view(r) == parse_outcome(bytes_of(input@)),
{
    let mut lexer = Lexer::new(input);
    match lexer.next_token() {
        Some(Ok(Token::RecordStart)) => match lexer.next_token() {
            Some(Ok(Token::Number(id))) => match lexer.next_token() {
                Some(Ok(Token::NewLine)) => match parse_fields(&mut lexer) {
                    Ok(fields) => Ok(Record { id, fields }),
                    Err(e) => Err(e),
                },
                _ => Err(ParseError::of(ParseErrorKind::MissingHeaderNewLine)),
            },
            _ => Err(ParseError::of(ParseErrorKind::MissingRecordId)),
        },
        _ => Err(ParseError::of(ParseErrorKind::MissingRecordStart)),
    }
}

/// A field ends inside the chunk, behind the offset at which its value starts.
pub proof fn lemma_field_advances(s: Seq<u8>, id: i32, pos: int)
    requires
        0 <= pos <= s.len(),
    ensures
        parse_field_spec(s, id, pos) matches Ok((_, next)) ==> pos < next <= s.len(),
{
    lemma_lex_advances(s, pos);
    match lex(s, pos) {
        Lexed::Token(_, p) => {
            lemma_lex_advances(s, p);
        },
        _ => {},
    }
}

/// Fields that are read to their end start with a token, inside the chunk.
pub proof fn lemma_fields_start_with_token(s: Seq<u8>, pos: int)
    requires
        0 <= pos <= s.len(),
        parse_fields_spec(s, pos) is Ok,
    ensures
        lex(s, pos) is Token,
        pos < s.len(),
{
    lemma_lex_advances(s, pos);
}

/// The fields of a chunk that follows the grammar are no longer read to
/// their end once something follows the chunk.
pub proof fn lemma_fields_with_trailing_content(s: Seq<u8>, extra: Seq<u8>, pos: int)
    requires
        0 <= pos <= s.len(),
        parse_fields_spec(s, pos) is Ok,
        extra.len() > 0,
    ensures
        parse_fields_spec(s + extra, pos) == Err::<Seq<FieldView>, ParseErrorKind>(
            ParseErrorKind::TrailingContent,
        ),
    decreases s.len() - pos,
{
    lemma_lex_advances(s, pos);
    match lex(s, pos) {
        Lexed::Token(TokenView::FieldId(id), after_id) => {
            lemma_lex_advances(s, after_id);
            let after_value = lex(s, after_id)->Token_1;
            lemma_lex_advances(s, after_value);
            let next = lex(s, after_value)->Token_1;
            lemma_fields_start_with_token(s, next);
            lemma_lex_extend(s, extra, pos);
            lemma_lex_extend(s, extra, after_id);
            lemma_lex_extend(s, extra, after_value);
            lemma_fields_with_trailing_content(s, extra, next);
        },
        Lexed::Token(TokenView::RecordEnd, after_id) => {
            lemma_newline_bytes();
            assert(s.subrange(after_id, s.len() as int).len() == 1);
            lemma_lex_extend(s, extra, pos);
        },
        _ => {},
    }
}

/// Content behind the line that ends a record is refused: whatever is added
/// behind a chunk that follows the grammar, the result no longer does, and
/// the failure is the one of trailing content, whose context is the fields.
pub proof fn lemma_trailing_content_is_refused(chunk: Seq<u8>, extra: Seq<u8>)
    requires
        parse_record_spec(chunk) is Ok,
        extra.len() > 0,
    ensures
        parse_record_spec(chunk + extra) == Err::<RecordView, ParseErrorKind>(
            ParseErrorKind::TrailingContent,
        ),
        parse_outcome(chunk + extra) == Err::<RecordView, ParseErrorView>(
            error_of(ParseErrorKind::TrailingContent),
        ),
        context_text(ParseErrorKind::TrailingContent) == "fields"@,
{
    lemma_lex_advances(chunk, 0);
    let after_start = lex(chunk, 0)->Token_1;
    lemma_lex_advances(chunk, after_start);
    let after_id = lex(chunk, after_start)->Token_1;
    lemma_lex_advances(chunk, after_id);
    let body = lex(chunk, after_id)->Token_1;
    lemma_fields_start_with_token(chunk, body);
    lemma_lex_extend(chunk, extra, 0);
    lemma_lex_extend(chunk, extra, after_start);
    lemma_lex_extend(chunk, extra, after_id);
    lemma_fields_with_trailing_content(chunk, extra, body);
}

/// The token that writes a value.
pub open spec fn value_token(value: FieldValView) -> TokenView {
    match value {
        FieldValView::Num(n) => TokenView::Number(n),
        FieldValView::Str(t) => TokenView::StringLit(t),
    }
}

/// The tokens that write the lines of `fields`, in their order: for each
/// field its identifier, its value and the end of its line.
pub open spec fn fields_tokens(fields: Seq<FieldView>) -> Seq<Result<TokenView, LexError>>
    decreases fields.len(),
{
    if fields.len() == 0 {
        seq![]
    } else {
        seq![
            Ok(TokenView::FieldId(fields[0].id)),
            Ok(value_token(fields[0].value)),
            Ok(TokenView::NewLine),
        ] + fields_tokens(fields.drop_first())
    }
}

/// The tokens that end a record.
pub open spec fn closing_tokens() -> Seq<Result<TokenView, LexError>> {
    seq![Ok(TokenView::RecordEnd), Ok(TokenView::NewLine)]
}

/// The tokens that write `record`: its header, its fields in their order,
/// and its end.
pub open spec fn record_tokens(record: RecordView) -> Seq<Result<TokenView, LexError>> {
    seq![Ok(TokenView::RecordStart), Ok(TokenView::Number(record.id)), Ok(TokenView::NewLine)]
        + (fields_tokens(record.fields) + closing_tokens())
}

/// The fields that are read stand in the chunk, token by token and in the
/// same order, up to the tokens that end the record.
pub proof fn lemma_fields_follow_tokens(s: Seq<u8>, pos: int, fields: Seq<FieldView>)
    requires
        0 <= pos <= s.len(),
        parse_fields_spec(s, pos) == Ok::<Seq<FieldView>, ParseErrorKind>(fields),
    ensures
        tokens_from(s, pos) == fields_tokens(fields) + closing_tokens(),
        ends_with_terminator(s),
    decreases s.len() - pos,
{
    lemma_lex_advances(s, pos);
    match lex(s, pos) {
        Lexed::Token(TokenView::FieldId(id), after_id) => {
            lemma_field_advances(s, id, after_id);
            lemma_lex_advances(s, after_id);
            let after_value = lex(s, after_id)->Token_1;
            let next = lex(s, after_value)->Token_1;
            let field = parse_field_spec(s, id, after_id)->Ok_0.0;
            let more = parse_fields_spec(s, next)->Ok_0;
            lemma_fields_follow_tokens(s, next, more);
            assert(fields.drop_first() =~= more);
            lemma_tokens_step(s, after_id);
        },
        Lexed::Token(TokenView::RecordEnd, after_id) => {
            lemma_newline_bytes();
            assert(s.subrange(after_id, s.len() as int).len() == 1);
            assert(s.subrange(after_id, s.len() as int)[0] == NEWLINE);
            lemma_lex_at_end(s);
            assert(lex(s, after_id) == Lexed::Token(TokenView::NewLine, after_id + 1)) by {
                reveal(lex);
            }
            assert(s[after_id - 1] == PERCENT) by {
                reveal(lex);
            }
            lemma_tokens_step(s, pos);
        },
        _ => {},
    }
}

/// A record that is read stands in its chunk: the tokens of the chunk are
/// the header of the record, its fields in their order, and the end of the
/// record, and the chunk ends with the line that closes a record.
pub proof fn lemma_record_follows_tokens(s: Seq<u8>, record: RecordView)
    requires
        parse_record_spec(s) == Ok::<RecordView, ParseErrorKind>(record),
    ensures
        tokens_from(s, 0) == record_tokens(record),
        ends_with_terminator(s),
{
    lemma_lex_advances(s, 0);
    let after_start = lex(s, 0)->Token_1;
    lemma_lex_advances(s, after_start);
    let after_id = lex(s, after_start)->Token_1;
    lemma_lex_advances(s, after_id);
    let body = lex(s, after_id)->Token_1;
    lemma_fields_follow_tokens(s, body, record.fields);
    lemma_tokens_step(s, after_start);
}

/// Where the tokens from `pos` on write `fields` and the end of a record,
/// and the chunk ends with the line that closes a record, the fields are
/// read as they are written.
pub proof fn lemma_tokens_give_fields(s: Seq<u8>, pos: int, fields: Seq<FieldView>)
    requires
        0 <= pos <= s.len(),
        tokens_from(s, pos) == fields_tokens(fields) + closing_tokens(),
        ends_with_terminator(s),
    ensures
        parse_fields_spec(s, pos) == Ok::<Seq<FieldView>, ParseErrorKind>(fields),
    decreases fields.len(),
{
    if fields.len() == 0 {
        lemma_tokens_head(s, pos);
        let after_id = lex(s, pos)->Token_1;
        let end = lex(s, after_id)->Token_1;
        assert(end == s.len() && after_id == s.len() - 1) by {
            reveal(lex);
            lemma_run_end(s, after_id, ByteClass::Space);
            lemma_run_end(s, end, ByteClass::Space);
        }
        lemma_newline_bytes();
        assert(s.subrange(after_id, s.len() as int) =~= seq![NEWLINE]);
        assert(fields =~= Seq::<FieldView>::empty());
    } else {
        let field = fields[0];
        let rest = fields.drop_first();
        lemma_tokens_head(s, pos);
        let after_id = lex(s, pos)->Token_1;
        lemma_tokens_head(s, after_id);
        let after_value = lex(s, after_id)->Token_1;
        lemma_tokens_head(s, after_value);
        let next = lex(s, after_value)->Token_1;
        assert(tokens_from(s, next) =~= fields_tokens(rest) + closing_tokens());
        lemma_tokens_give_fields(s, next, rest);
        assert(seq![field] + rest =~= fields);
    }
}

/// A chunk that follows the grammar is read as the record that it writes:
/// where the tokens of a chunk are the header of a record, its fields and
/// the end of the record, and the chunk ends with the line that closes a
/// record, the chunk is read as that record, with the fields in the order
/// in which the chunk holds them.
pub proof fn lemma_tokens_give_record(s: Seq<u8>, record: RecordView)
    requires
        tokens_from(s, 0) == record_tokens(record),
        ends_with_terminator(s),
    ensures
        parse_record_spec(s) == Ok::<RecordView, ParseErrorKind>(record),
{
    lemma_tokens_head(s, 0);
    let after_start = lex(s, 0)->Token_1;
    lemma_tokens_head(s, after_start);
    let after_id = lex(s, after_start)->Token_1;
    lemma_tokens_head(s, after_id);
    let body = lex(s, after_id)->Token_1;
    assert(tokens_from(s, body) =~= fields_tokens(record.fields) + closing_tokens());
    lemma_tokens_give_fields(s, body, record.fields);
}

/// Reading is a function of the text: two outcomes of reading the same
/// chunk stand for the same record, or for the same error.
pub proof fn lemma_reading_again_gives_the_same(
    s: Seq<u8>,
    first: Result<Record, ParseError>,
    second: Result<Record, ParseError>,
)
    requires
        parsed_view(first) == parse_outcome(s),
        parsed_view(second) == parse_outcome(s),
    ensures
        parsed_view(first) == parsed_view(second),
        first matches Ok(a) ==> second matches Ok(b) && a@ == b@,
{
}

} // verus!
