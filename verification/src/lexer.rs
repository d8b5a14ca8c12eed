//! The lexical level of the source format: a chunk of text read as tokens.
//!
//! | text                                      | token         |
//! |-------------------------------------------|---------------|
//! | `Record:`                                 | `RecordStart` |
//! | `%`                                       | `RecordEnd`   |
//! | `P`, one or more digits, `:`              | `FieldId`     |
//! | an optional `-`, one or more digits       | `Number`      |
//! | `"`, one or more bytes but `"`, `"`       | `StringLit`   |
//! | a line feed                               | `NewLine`     |
//!
//! Spaces between tokens are skipped. A digit is one of `0` to `9`, and a
//! number that does not fit in 32 bits is no token. The first text that is no
//! token ends the reading: nothing is read behind a lexical error.
use vstd::prelude::*;
use vstd::utf8::*;
use crate::text::{
    bytes_of, chars_between, digits_value, has_prefix_at, in_class, lemma_boundary_after_ascii,
    lemma_boundary_at, lemma_run_end, lemma_run_end_extend, read_digits, run_end, scan_run,
    slice_between, starts_with_at, ByteClass, COLON, DIGIT_NINE, DIGIT_ZERO, LETTER_P, MINUS,
    NEWLINE, PERCENT, QUOTE,
};

verus! {

/// A lexical unit of the source format.
#[derive(Debug, PartialEq, Eq)]
pub enum Token {
    RecordStart,
    RecordEnd,
    FieldId(i32),
    Number(i32),
    StringLit(String),
    NewLine,
}

/// What a [`Token`] stands for.
pub enum TokenView {
    RecordStart,
    RecordEnd,
    FieldId(i32),
    Number(i32),
    StringLit(Seq<char>),
    NewLine,
}

impl View for Token {
    type V = TokenView;

    open spec fn view(&self) -> TokenView {
        match self {
            Token::RecordStart => TokenView::RecordStart,
            Token::RecordEnd => TokenView::RecordEnd,
            Token::FieldId(id) => TokenView::FieldId(*id),
            Token::Number(n) => TokenView::Number(*n),
            Token::StringLit(s) => TokenView::StringLit(s@),
            Token::NewLine => TokenView::NewLine,
        }
    }
}

/// A text that is no token, by the byte offset in the chunk at which it starts.
#[derive(Debug, Clone, Copy, PartialEq, Eq)]
pub struct LexError {
    pub pos: usize,
}

/// What stands at an offset of a chunk, behind the spaces there.
pub enum Lexed {
    /// Nothing but spaces is left.
    End,
    /// A text that is no token starts at this offset.
    Invalid(int),
    /// A token, and the offset just behind it.
    Token(TokenView, int),
}

/// The bytes of the marker that opens a record.
pub open spec fn record_marker() -> Seq<u8> {
    bytes_of("Record:"@)
}

/// The field identifier that starts with the `P` at `p`.
pub open spec fn lex_field_id(s: Seq<u8>, p: int) -> Lexed {
    let end = run_end(s, p + 1, ByteClass::Digit);
    let value = digits_value(s.subrange(p + 1, end));
    if p + 1 < end && end < s.len() && s[end] == COLON && value <= i32::MAX {
        Lexed::Token(TokenView::FieldId(value as i32), end + 1)
    } else {
        Lexed::Invalid(p)
    }
}

/// The number that starts at `p` with a digit or with `-`.
pub open spec fn lex_number(s: Seq<u8>, p: int) -> Lexed {
    let first = if s[p] == MINUS {
        p + 1
    } else {
        p
    };
    let end = run_end(s, first, ByteClass::Digit);
    let value = digits_value(s.subrange(first, end));
    let number = if s[p] == MINUS {
        -value
    } else {
        value as int
    };
    if first < end && i32::MIN <= number <= i32::MAX {
        Lexed::Token(TokenView::Number(number as i32), end)
    } else {
        Lexed::Invalid(p)
    }
}

/// The string literal that starts with the `"` at `p`.
pub open spec fn lex_string(s: Seq<u8>, p: int) -> Lexed {
    let end = run_end(s, p + 1, ByteClass::NotQuote);
    if p + 1 < end && end < s.len() {
        Lexed::Token(TokenView::StringLit(chars_between(s, p + 1, end)), end + 1)
    } else {
        Lexed::Invalid(p)
    }
}

/// What stands at offset `pos` of the chunk `s`, behind the spaces there.
#[verifier::opaque]
pub open spec fn lex(s: Seq<u8>, pos: int) -> Lexed {
    let p = run_end(s, pos, ByteClass::Space);
    if p >= s.len() {
        Lexed::End
    } else if s[p] == NEWLINE {
        Lexed::Token(TokenView::NewLine, p + 1)
    } else if s[p] == PERCENT {
        Lexed::Token(TokenView::RecordEnd, p + 1)
    } else if has_prefix_at(s, p, record_marker()) {
        Lexed::Token(TokenView::RecordStart, p + record_marker().len())
    } else if s[p] == LETTER_P {
        lex_field_id(s, p)
    } else if s[p] == MINUS || in_class(ByteClass::Digit, s[p]) {
        lex_number(s, p)
    } else if s[p] == QUOTE {
        lex_string(s, p)
    } else {
        Lexed::Invalid(p)
    }
}

/// Whether `r`, with the reading left at `after`, is what `lexed` asks for
/// in a chunk of `len` bytes: a token moves the reading behind it, and both
/// the end and a lexical error move it to the end of the chunk.
pub open spec fn lexed_as(
    r: Option<Result<Token, LexError>>,
    after: int,
    lexed: Lexed,
    len: int,
) -> bool {
    match lexed {
        Lexed::End => r is None && after == len,
        Lexed::Invalid(p) => r == Some(Err::<Token, LexError>(LexError { pos: p as usize }))
            && after == len,
        Lexed::Token(t, end) => r matches Some(Ok(token)) && token@ == t && after == end,
    }
}

/// What one outcome of the lexer stands for.
pub open spec fn outcome_view(r: Result<Token, LexError>) -> Result<TokenView, LexError> {
    match r {
        Ok(token) => Ok(token@),
        Err(e) => Err(e),
    }
}

/// What a sequence of outcomes of the lexer stands for.
pub open spec fn outcomes_view(v: Seq<Result<Token, LexError>>) -> Seq<
    Result<TokenView, LexError>,
> {
    Seq::new(v.len(), |i: int| outcome_view(v[i]))
}

/// The tokens of the chunk `s` from offset `pos` on. A lexical error is the
/// last element: nothing is read behind it.
pub open spec fn tokens_from(s: Seq<u8>, pos: int) -> Seq<Result<TokenView, LexError>>
    decreases s.len() - pos,
    when 0 <= pos <= s.len()
    via tokens_from_decreases
{
    match lex(s, pos) {
        Lexed::End => seq![],
        Lexed::Invalid(p) => seq![Err(LexError { pos: p as usize })],
        Lexed::Token(t, end) => seq![Ok(t)] + tokens_from(s, end),
    }
}

#[via_fn]
proof fn tokens_from_decreases(s: Seq<u8>, pos: int) {
    lemma_lex_advances(s, pos);
}

/// A reader of the tokens of one chunk, from its start to its end.
pub struct Lexer<'a> {
    src: &'a str,
    pos: usize,
}

impl<'a> Lexer<'a> {
    #[verifier::type_invariant]
    spec fn well_formed(self) -> bool {
        &&& self.pos <= bytes_of(self.src@).len()
        &&& is_char_boundary(bytes_of(self.src@), self.pos as int)
    }

    /// The bytes of the chunk.
    pub closed spec fn source(&self) -> Seq<u8> {
        bytes_of(self.src@)
    }

    /// The offset up to which the chunk has been read.
    pub closed spec fn offset(&self) -> int {
        self.pos as int
    }

    /// What has not been read yet.
    pub open spec fn rest(&self) -> Seq<u8> {
        self.source().subrange(self.offset(), self.source().len() as int)
    }

    /// A reader at the start of `src`.
    pub fn new(src: &'a str) -> (lexer: Self)
        ensures
            lexer.source() == bytes_of(src@),
            lexer.offset() == 0,
    {
        proof {
            encode_utf8_valid_utf8(src@);
        }
        Lexer { src, pos: 0 }
    }

    /// Reads the next token: `None` at the end of the chunk, an error at a
    /// text that is no token, after which nothing is left to read.
    pub fn next_token(&mut self) -> (r: Option<Result<Token, LexError>>)
        ensures
            final(self).source() == old(self).source(),
            old(self).offset() <= final(self).offset() <= final(self).source().len(),
            lexed_as(
                r,
                final(self).offset(),
                lex(old(self).source(), old(self).offset()),
                old(self).source().len() as int,
            ),
    {
        proof {
            reveal(lex);
            use_type_invariant(&*self);
            encode_utf8_valid_utf8(self.src@);
            is_char_boundary_start_end_of_seq(bytes_of(self.src@));
            lemma_marker();
        }
        let src: &'a str = self.src;
        let s = src.as_bytes();
        let len = s.len();
        let p = scan_run(s, self.pos, ByteClass::Space);
        if p >= len {
            self.pos = len;
            return None;
        }
        let b = s[p];
        proof {
            if b < 0x80 {
                lemma_boundary_after_ascii(s@, p as int);
            }
        }
        if b == NEWLINE {
            self.pos = p + 1;
            Some(Ok(Token::NewLine))
        } else if b == PERCENT {
            self.pos = p + 1;
            Some(Ok(Token::RecordEnd))
        } else if starts_with_at(s, p, "Record:".as_bytes()) {
            proof {
                lemma_boundary_after_ascii(s@, p + 6);
            }
            self.pos = p + 7;
            Some(Ok(Token::RecordStart))
        } else if b == LETTER_P {
            let end = scan_run(s, p + 1, ByteClass::Digit);
            proof {
                lemma_run_end(s@, p + 1, ByteClass::Digit);
            }
            if p + 1 < end && end < len && s[end] == COLON {
                match read_digits(s, p + 1, end, 0x7fff_ffff) {
                    Some(value) => {
                        proof {
                            lemma_boundary_after_ascii(s@, end as int);
                        }
                        self.pos = end + 1;
                        Some(Ok(Token::FieldId(value as i32)))
                    },
                    None => {
                        self.pos = len;
                        Some(Err(LexError { pos: p }))
                    },
                }
            } else {
                self.pos = len;
                Some(Err(LexError { pos: p }))
            }
        } else if b == MINUS {
            let end = scan_run(s, p + 1, ByteClass::Digit);
            proof {
                lemma_run_end(s@, p + 1, ByteClass::Digit);
            }
            if p + 1 < end {
                match read_digits(s, p + 1, end, 0x8000_0000) {
                    Some(value) => {
                        proof {
                            lemma_boundary_after_ascii(s@, end - 1);
                        }
                        self.pos = end;
                        Some(Ok(Token::Number((0 - value as i64) as i32)))
                    },
                    None => {
                        self.pos = len;
                        Some(Err(LexError { pos: p }))
                    },
                }
            } else {
                self.pos = len;
                Some(Err(LexError { pos: p }))
            }
        } else if DIGIT_ZERO <= b && b <= DIGIT_NINE {
            let end = scan_run(s, p, ByteClass::Digit);
            proof {
                lemma_run_end(s@, p as int, ByteClass::Digit);
            }
            match read_digits(s, p, end, 0x7fff_ffff) {
                Some(value) => {
                    proof {
                        lemma_boundary_after_ascii(s@, end - 1);
                    }
                    self.pos = end;
                    Some(Ok(Token::Number(value as i32)))
                },
                None => {
                    self.pos = len;
                    Some(Err(LexError { pos: p }))
                },
            }
        } else if b == QUOTE {
            let end = scan_run(s, p + 1, ByteClass::NotQuote);
            proof {
                lemma_run_end(s@, p + 1, ByteClass::NotQuote);
            }
            if p + 1 < end && end < len {
                proof {
                    lemma_boundary_at(s@, end as int);
                    lemma_boundary_after_ascii(s@, end as int);
                }
                let content = slice_between(src, p + 1, end);
                self.pos = end + 1;
                Some(Ok(Token::StringLit(content.to_owned())))
            } else {
                self.pos = len;
                Some(Err(LexError { pos: p }))
            }
        } else {
            self.pos = len;
            Some(Err(LexError { pos: p }))
        }
    }

    /// The text that has not been read yet.
    pub fn remainder(&self) -> (rest: &'a str)
        ensures
            bytes_of(rest@) == self.rest(),
    {
        proof {
            use_type_invariant(self);
            encode_utf8_valid_utf8(self.src@);
            is_char_boundary_start_end_of_seq(bytes_of(self.src@));
        }
        let src: &'a str = self.src;
        slice_between(src, self.pos, src.as_bytes().len())
    }
}

/// Reads all the tokens of a chunk.
pub fn tokenize(input: &str) -> (tokens: Vec<Result<Token, LexError>>)
    ensures
        outcomes_view(tokens@) == tokens_from(bytes_of(input@), 0),
{
    let ghost s = bytes_of(input@);
    let mut lexer = Lexer::new(input);
    let mut tokens: Vec<Result<Token, LexError>> = Vec::new();
    loop
        invariant
            lexer.source() == s,
            0 <= lexer.offset() <= s.len(),
            tokens_from(s, 0) == outcomes_view(tokens@) + tokens_from(s, lexer.offset()),
        ensures
            outcomes_view(tokens@) == tokens_from(s, 0),
        decreases s.len() - lexer.offset(),
    {
        proof {
            lemma_lex_advances(s, lexer.offset());
            lemma_lex_at_end(s);
        }
        match lexer.next_token() {
            None => {
                break ;
            },
            Some(outcome) => {
                tokens.push(outcome);
            },
        }
    }
    tokens
}

/// A token is not empty and ends inside the chunk; a lexical error lies
/// inside the chunk.
pub proof fn lemma_lex_advances(s: Seq<u8>, pos: int)
    requires
        0 <= pos <= s.len(),
    ensures
        match lex(s, pos) {
            Lexed::End => true,
            Lexed::Invalid(p) => pos <= p < s.len(),
            Lexed::Token(_, end) => pos < end <= s.len(),
        },
{
    reveal(lex);
    let p = run_end(s, pos, ByteClass::Space);
    lemma_run_end(s, pos, ByteClass::Space);
    if p < s.len() {
        lemma_run_end(s, p + 1, ByteClass::Digit);
        lemma_marker();
    }
}

/// The marker is the seven bytes of `Record:`.
pub proof fn lemma_marker()
    ensures
        record_marker() == seq![82u8, 101u8, 99u8, 111u8, 114u8, 100u8, 58u8],
{
    reveal_strlit("Record:");
    is_ascii_chars_encode_utf8("Record:"@);
}

/// A token that ends before the end of the chunk is read in the same way
/// whatever follows the chunk.
pub proof fn lemma_lex_extend(s: Seq<u8>, extra: Seq<u8>, pos: int)
    requires
        0 <= pos <= s.len(),
        lex(s, pos) matches Lexed::Token(_, end) && end < s.len(),
    ensures
        lex(s + extra, pos) == lex(s, pos),
{
    reveal(lex);
    lemma_marker();
    let t = s + extra;
    let p = run_end(s, pos, ByteClass::Space);
    lemma_run_end(s, pos, ByteClass::Space);
    lemma_run_end_extend(s, extra, pos, ByteClass::Space);
    if s[p] == NEWLINE || s[p] == PERCENT {
    } else if has_prefix_at(s, p, record_marker()) {
        assert(t.subrange(p, p + record_marker().len()) =~= s.subrange(
            p,
            p + record_marker().len(),
        ));
    } else {
        if s[p] == LETTER_P {
            let end = run_end(s, p + 1, ByteClass::Digit);
            lemma_run_end_extend(s, extra, p + 1, ByteClass::Digit);
            assert(t.subrange(p + 1, end) =~= s.subrange(p + 1, end));
        } else if s[p] == MINUS {
            let end = run_end(s, p + 1, ByteClass::Digit);
            lemma_run_end_extend(s, extra, p + 1, ByteClass::Digit);
            assert(t.subrange(p + 1, end) =~= s.subrange(p + 1, end));
        } else if in_class(ByteClass::Digit, s[p]) {
            let end = run_end(s, p, ByteClass::Digit);
            lemma_run_end_extend(s, extra, p, ByteClass::Digit);
            assert(t.subrange(p, end) =~= s.subrange(p, end));
        } else if s[p] == QUOTE {
            let end = run_end(s, p + 1, ByteClass::NotQuote);
            lemma_run_end_extend(s, extra, p + 1, ByteClass::NotQuote);
            assert(t.subrange(p + 1, end) =~= s.subrange(p + 1, end));
        }
    }
}

/// Nothing is read at the end of the chunk.
pub proof fn lemma_lex_at_end(s: Seq<u8>)
    ensures
        lex(s, s.len() as int) is End,
        tokens_from(s, s.len() as int) == Seq::<Result<TokenView, LexError>>::empty(),
{
    reveal(lex);
}

/// A token that stands at an offset is the first of the tokens from there on,
/// and the tokens from its end on follow it.
pub proof fn lemma_tokens_step(s: Seq<u8>, pos: int)
    requires
        0 <= pos <= s.len(),
        lex(s, pos) is Token,
    ensures
        tokens_from(s, pos) == seq![Ok::<TokenView, LexError>(lex(s, pos)->Token_0)] + tokens_from(
            s,
            lex(s, pos)->Token_1,
        ),
{
    lemma_lex_advances(s, pos);
}

/// Where the tokens from an offset on start with a token, that token stands
/// at the offset, and the others are the tokens from its end on.
pub proof fn lemma_tokens_head(s: Seq<u8>, pos: int)
    requires
        0 <= pos <= s.len(),
        tokens_from(s, pos).len() > 0,
        tokens_from(s, pos)[0] is Ok,
    ensures
        lex(s, pos) matches Lexed::Token(t, end) && pos < end <= s.len() && tokens_from(s, pos)[0]
            == Ok::<TokenView, LexError>(t) && tokens_from(s, end) == tokens_from(
            s,
            pos,
        ).drop_first(),
{
    lemma_lex_advances(s, pos);
}

} // verus!
