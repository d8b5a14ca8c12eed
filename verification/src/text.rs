//! Text as bytes: the grammar of the source format is stated over the UTF-8
//! bytes of a text, and pieces of text are cut out at byte offsets.
use vstd::prelude::*;
use vstd::utf8::*;

verus! {

/// The line feed, which ends a line.
pub const NEWLINE: u8 = 10;

/// The space.
pub const SPACE: u8 = 32;

/// The double quote, which opens and closes a string literal.
pub const QUOTE: u8 = 34;

/// The `%`, which ends a record.
pub const PERCENT: u8 = 37;

/// The `-`, which may stand in front of a number.
pub const MINUS: u8 = 45;

/// The digit `0`.
pub const DIGIT_ZERO: u8 = 48;

/// The digit `9`.
pub const DIGIT_NINE: u8 = 57;

/// The `:`, which ends a field identifier.
pub const COLON: u8 = 58;

/// The `P`, which starts a field identifier.
pub const LETTER_P: u8 = 80;

/// The UTF-8 bytes of a sequence of characters.
pub open spec fn bytes_of(chars: Seq<char>) -> Seq<u8> {
    encode_utf8(chars)
}

/// The characters that the bytes from `from` up to `to` encode.
pub open spec fn chars_between(bytes: Seq<u8>, from: int, to: int) -> Seq<char> {
    decode_utf8(bytes.subrange(from, to))
}

/// The kinds of byte of which the grammar reads a whole run at once.
#[derive(Clone, Copy, Debug, PartialEq, Eq)]
pub enum ByteClass {
    /// The space character, and nothing else.
    Space,
    /// One of the ten decimal digits.
    Digit,
    /// Any byte but the double quote.
    NotQuote,
    /// Any byte but the line feed.
    NotNewline,
}

/// Whether `b` belongs to `class`.
pub open spec fn in_class(class: ByteClass, b: u8) -> bool {
    match class {
        ByteClass::Space => b == SPACE,
        ByteClass::Digit => DIGIT_ZERO <= b <= DIGIT_NINE,
        ByteClass::NotQuote => b != QUOTE,
        ByteClass::NotNewline => b != NEWLINE,
    }
}

/// The end of the longest run of bytes of `class` that starts at `pos`: the
/// first offset from `pos` on at which the text ends or holds another byte.
pub open spec fn run_end(s: Seq<u8>, pos: int, class: ByteClass) -> int
    decreases s.len() - pos,
{
    if 0 <= pos < s.len() && in_class(class, s[pos]) {
        run_end(s, pos + 1, class)
    } else {
        pos
    }
}

/// A run ends inside the text, at or behind its start; every byte of it is of
/// the class, and the byte behind it, if there is one, is not.
pub proof fn lemma_run_end(s: Seq<u8>, pos: int, class: ByteClass)
    requires
        0 <= pos <= s.len(),
    ensures
        pos <= run_end(s, pos, class) <= s.len(),
        forall|i: int| pos <= i < run_end(s, pos, class) ==> in_class(class, #[trigger] s[i]),
        run_end(s, pos, class) < s.len() ==> !in_class(class, s[run_end(s, pos, class)]),
    decreases s.len() - pos,
{
    if pos < s.len() && in_class(class, s[pos]) {
        lemma_run_end(s, pos + 1, class);
    }
}

/// A run is known by what holds of it: if every byte from `pos` up to `end`
/// is of the class and the text ends at `end` or holds another byte there,
/// then the run from `pos` ends at `end`.
pub proof fn lemma_run_end_is(s: Seq<u8>, pos: int, end: int, class: ByteClass)
    requires
        0 <= pos <= end <= s.len(),
        forall|i: int| pos <= i < end ==> in_class(class, #[trigger] s[i]),
        end < s.len() ==> !in_class(class, s[end]),
    ensures
        run_end(s, pos, class) == end,
    decreases end - pos,
{
    if pos < end {
        lemma_run_end_is(s, pos + 1, end, class);
    }
}

/// Whether `b` is of `class`.
pub(crate) fn byte_in_class(class: ByteClass, b: u8) -> (r: bool)
    ensures
        r == in_class(class, b),
{
    match class {
        ByteClass::Space => b == SPACE,
        ByteClass::Digit => DIGIT_ZERO <= b && b <= DIGIT_NINE,
        ByteClass::NotQuote => b != QUOTE,
        ByteClass::NotNewline => b != NEWLINE,
    }
}

/// Reads the run of bytes of `class` that starts at `pos`, and returns its end.
pub(crate) fn scan_run(s: &[u8], pos: usize, class: ByteClass) -> (end: usize)
    requires
        pos <= s@.len(),
    ensures
        end == run_end(s@, pos as int, class),
        pos <= end <= s@.len(),
{
    let mut i: usize = pos;
    while i < s.len() && byte_in_class(class, s[i])
        invariant
            pos <= i <= s@.len(),
            run_end(s@, pos as int, class) == run_end(s@, i as int, class),
        decreases s@.len() - i,
    {
        i = i + 1;
    }
    i
}

/// Whether `pat` stands in `s` at offset `pos`.
pub open spec fn has_prefix_at(s: Seq<u8>, pos: int, pat: Seq<u8>) -> bool {
    &&& 0 <= pos
    &&& pos + pat.len() <= s.len()
    &&& s.subrange(pos, pos + pat.len()) == pat
}

/// Whether a text ends with the line that closes a record: a `%` and a line
/// feed.
pub open spec fn ends_with_terminator(s: Seq<u8>) -> bool {
    &&& s.len() >= 2
    &&& s[s.len() - 2] == PERCENT
    &&& s[s.len() - 1] == NEWLINE
}

/// Tests whether `pat` stands in `s` at offset `pos`.
pub(crate) fn starts_with_at(s: &[u8], pos: usize, pat: &[u8]) -> (r: bool)
    requires
        pos <= s@.len(),
    ensures
        r == has_prefix_at(s@, pos as int, pat@),
{
    if s.len() - pos < pat.len() {
        return false;
    }
    let mut i: usize = 0;
    while i < pat.len()
        invariant
            pos + pat@.len() <= s@.len() <= usize::MAX,
            i <= pat@.len(),
            forall|k: int| 0 <= k < i ==> s@[pos + k] == pat@[k],
        decreases pat@.len() - i,
    {
        if s[pos + i] != pat[i] {
            return false;
        }
        i = i + 1;
    }
    proof {
        assert(s@.subrange(pos as int, pos + pat@.len()) =~= pat@);
    }
    true
}

/// The number that a run of decimal digits writes, most significant first.
pub open spec fn digits_value(digits: Seq<u8>) -> nat
    decreases digits.len(),
{
    if digits.len() == 0 {
        0
    } else {
        (digits_value(digits.drop_last()) * 10 + (digits.last() - DIGIT_ZERO)) as nat
    }
}

/// More digits never write a smaller number.
pub proof fn lemma_digits_value_grows(s: Seq<u8>, from: int, mid: int, to: int)
    requires
        0 <= from <= mid <= to <= s.len(),
        forall|i: int| from <= i < to ==> in_class(ByteClass::Digit, #[trigger] s[i]),
    ensures
        digits_value(s.subrange(from, mid)) <= digits_value(s.subrange(from, to)),
    decreases to - mid,
{
    if mid < to {
        lemma_digits_value_grows(s, from, mid, to - 1);
        assert(s.subrange(from, to).drop_last() =~= s.subrange(from, to - 1));
    }
}

/// Reads the digits of `s` from `from` up to `to` as a number, if it is at
/// most `limit`.
pub(crate) fn read_digits(s: &[u8], from: usize, to: usize, limit: u32) -> (r: Option<u32>)
    requires
        from <= to <= s@.len(),
        forall|i: int| from <= i < to ==> in_class(ByteClass::Digit, #[trigger] s@[i]),
    ensures
        match r {
            Some(v) => v == digits_value(s@.subrange(from as int, to as int)) && v <= limit,
            None => digits_value(s@.subrange(from as int, to as int)) > limit,
        },
{
    let mut acc: u64 = 0;
    let mut i: usize = from;
    while i < to
        invariant
            from <= i <= to <= s@.len(),
            forall|k: int| from <= k < to ==> in_class(ByteClass::Digit, #[trigger] s@[k]),
            acc == digits_value(s@.subrange(from as int, i as int)),
            acc <= limit,
        decreases to - i,
    {
        let d: u8 = s[i] - DIGIT_ZERO;
        proof {
            assert(s@.subrange(from as int, i + 1).drop_last() =~= s@.subrange(
                from as int,
                i as int,
            ));
        }
        let next: u64 = acc * 10 + d as u64;
        if next > limit as u64 {
            proof {
                lemma_digits_value_grows(s@, from as int, i + 1, to as int);
            }
            return None;
        }
        acc = next;
        i = i + 1;
    }
    Some(acc as u32)
}

/// A byte that is no continuation byte of a multi-byte character starts a
/// character, so a text may be cut in front of it, as it may be at its end.
pub proof fn lemma_boundary_at(bytes: Seq<u8>, at: int)
    requires
        valid_utf8(bytes),
        0 <= at <= bytes.len(),
        at < bytes.len() ==> !is_continuation_byte(bytes[at]),
    ensures
        is_char_boundary(bytes, at),
{
    if at < bytes.len() {
        is_char_boundary_iff_not_is_continuation_byte(bytes, at);
    } else {
        is_char_boundary_start_end_of_seq(bytes);
    }
}

/// A character of one byte ends where the next character starts.
pub proof fn lemma_boundary_after_ascii(bytes: Seq<u8>, at: int)
    requires
        valid_utf8(bytes),
        0 <= at < bytes.len(),
        bytes[at] < 0x80,
    ensures
        is_char_boundary(bytes, at + 1),
    decreases bytes.len(),
{
    reveal_with_fuel(is_char_boundary, 2);
    if at > 0 {
        lemma_boundary_after_ascii(pop_first_scalar(bytes), at - length_of_first_scalar(bytes));
    }
}

/// The part of `s` between two byte offsets at which characters start or the
/// text ends.
pub(crate) fn slice_between<'a>(s: &'a str, from: usize, to: usize) -> (part: &'a str)
    requires
        from <= to <= bytes_of(s@).len(),
        is_char_boundary(bytes_of(s@), from as int),
        is_char_boundary(bytes_of(s@), to as int),
    ensures
        bytes_of(part@) == bytes_of(s@).subrange(from as int, to as int),
        part@ == chars_between(bytes_of(s@), from as int, to as int),
{
    proof {
        encode_utf8_valid_utf8(s@);
    }
    let (head, _) = s.split_at(to);
    proof {
        encode_utf8_valid_utf8(head@);
        if from < to {
            is_char_boundary_iff_not_is_continuation_byte(bytes_of(s@), from as int);
        }
        lemma_boundary_at(bytes_of(head@), from as int);
    }
    let (_, part) = head.split_at(from);
    proof {
        encode_utf8_decode_utf8(part@);
    }
    part
}

/// Tests whether two texts are the same.
pub(crate) fn same_text(a: &str, b: &str) -> (r: bool)
    ensures
        r == (a@ == b@),
        r == (bytes_of(a@) == bytes_of(b@)),
{
    proof {
        encode_utf8_decode_utf8(a@);
        encode_utf8_decode_utf8(b@);
    }
    let x = a.as_bytes();
    let y = b.as_bytes();
    if x.len() != y.len() {
        return false;
    }
    let r = starts_with_at(x, 0, y);
    proof {
        assert(x@.subrange(0, x@.len() as int) =~= x@);
    }
    r
}

/// The bytes of two texts, one behind the other, are those of the first and
/// then those of the second.
pub proof fn lemma_bytes_of_concat(a: Seq<char>, b: Seq<char>)
    ensures
        bytes_of(a + b) == bytes_of(a) + bytes_of(b),
    decreases a.len(),
{
    if a.len() > 0 {
        lemma_bytes_of_concat(a.drop_first(), b);
        assert((a + b).drop_first() =~= a.drop_first() + b);
    }
}

/// A run read in the text behind its first `k` bytes is the run read in the
/// whole text, `k` bytes further on.
pub proof fn lemma_run_end_skip(s: Seq<u8>, k: int, pos: int, class: ByteClass)
    requires
        0 <= k,
        0 <= pos,
        k + pos <= s.len(),
    ensures
        run_end(s.skip(k), pos, class) + k == run_end(s, k + pos, class),
{
    let end = run_end(s, k + pos, class);
    lemma_run_end(s, k + pos, class);
    let t = s.skip(k);
    assert forall|i: int| pos <= i < end - k implies in_class(class, #[trigger] t[i]) by {
    }
    lemma_run_end_is(t, pos, end - k, class);
}

/// A run that ends inside the text ends at the same offset whatever follows
/// the text.
pub proof fn lemma_run_end_extend(s: Seq<u8>, extra: Seq<u8>, pos: int, class: ByteClass)
    requires
        0 <= pos <= s.len(),
        run_end(s, pos, class) < s.len(),
    ensures
        run_end(s + extra, pos, class) == run_end(s, pos, class),
{
    let end = run_end(s, pos, class);
    lemma_run_end(s, pos, class);
    let t = s + extra;
    assert forall|i: int| pos <= i < end implies in_class(class, #[trigger] t[i]) by {
    }
    lemma_run_end_is(t, pos, end, class);
}

/// The text of one line feed is the one byte of the line feed.
pub proof fn lemma_newline_bytes()
    ensures
        bytes_of("\n"@) == seq![NEWLINE],
{
    reveal_strlit("\n");
    is_ascii_chars_encode_utf8("\n"@);
}

/// The text of the line that closes a record is a `%` and a line feed.
pub proof fn lemma_terminator_bytes()
    ensures
        bytes_of("%\n"@) == seq![PERCENT, NEWLINE],
{
    reveal_strlit("%\n");
    is_ascii_chars_encode_utf8("%\n"@);
}

} // verus!
