//! The cutting of a source text into chunks, one for each record.
//!
//! A line is a run of bytes up to and with the next line feed, or up to the
//! end of the text. Outside a record a line that starts with `Record` opens
//! a chunk, and any other line is dropped. Inside a record every line is
//! kept as it is, and the line that holds `%` and nothing else closes the
//! chunk. A chunk that the text ends in before it is closed is dropped.
use vstd::prelude::*;
use vstd::string::StringExecFns;
use vstd::utf8::*;
use crate::text::{
    bytes_of, ends_with_terminator, has_prefix_at, lemma_boundary_after_ascii,
    lemma_bytes_of_concat, lemma_run_end, lemma_run_end_extend, lemma_run_end_skip,
    lemma_terminator_bytes, run_end, same_text, scan_run, slice_between, starts_with_at,
    ByteClass, NEWLINE,
};

verus! {

/// Whether a line opens a record.
pub open spec fn opens_record(line: Seq<u8>) -> bool {
    has_prefix_at(line, 0, bytes_of("Record"@))
}

/// Whether a line closes a record.
pub open spec fn closes_record(line: Seq<u8>) -> bool {
    line == bytes_of("%\n"@)
}

/// What one line does to the scanning.
pub struct Step {
    /// The lines of the record that is open behind the line; empty outside
    /// a record.
    pub pending: Seq<u8>,
    /// The chunk that the line closes.
    pub chunk: Option<Seq<u8>>,
}

/// The scanning of `line` with the lines `pending` of an open record, or
/// outside a record where `pending` is empty.
pub open spec fn step(pending: Seq<u8>, line: Seq<u8>) -> Step {
    if pending.len() == 0 {
        if opens_record(line) {
            Step { pending: line, chunk: None }
        } else {
            Step { pending: seq![], chunk: None }
        }
    } else if closes_record(line) {
        Step { pending: seq![], chunk: Some(pending + line) }
    } else {
        Step { pending: pending + line, chunk: None }
    }
}

/// The bytes of a chunk, if there is one.
pub open spec fn chunk_bytes(chunk: Option<String>) -> Option<Seq<u8>> {
    match chunk {
        Some(text) => Some(bytes_of(text@)),
        None => None,
    }
}

/// The length of the first line of a text.
pub open spec fn first_line_len(s: Seq<u8>) -> int {
    let end = run_end(s, 0, ByteClass::NotNewline);
    if end < s.len() {
        end + 1
    } else {
        end
    }
}

/// What a scan of a text finds.
pub struct Scanned {
    /// The first chunk that is closed, if any is.
    pub chunk: Option<Seq<u8>>,
    /// The number of bytes read: up to the end of the chunk, or all.
    pub consumed: int,
}

/// The scan of the text `s`, line by line, with the lines `pending` of an
/// open record, or from outside a record where `pending` is empty.
pub open spec fn scan(s: Seq<u8>, pending: Seq<u8>) -> Scanned
    decreases s.len(),
    via scan_decreases
{
    if s.len() == 0 {
        Scanned { chunk: None, consumed: 0 }
    } else {
        let n = first_line_len(s);
        let after = step(pending, s.take(n));
        match after.chunk {
            Some(chunk) => Scanned { chunk: Some(chunk), consumed: n },
            None => {
                let more = scan(s.skip(n), after.pending);
                Scanned { chunk: more.chunk, consumed: n + more.consumed }
            },
        }
    }
}

#[via_fn]
proof fn scan_decreases(s: Seq<u8>, pending: Seq<u8>) {
    lemma_first_line(s);
}

/// The scanner as a machine that is fed one line at a time.
pub struct Scanner {
    acc: String,
}

impl Scanner {
    /// The lines of the record that is open; empty outside a record.
    pub closed spec fn pending(&self) -> Seq<u8> {
        bytes_of(self.acc@)
    }

    /// A scanner outside a record.
    pub fn new() -> (scanner: Self)
        ensures
            scanner.pending() == Seq::<u8>::empty(),
    {
        Scanner { acc: String::new() }
    }

    /// Takes one line, and returns the chunk that it closes.
    pub fn push_line(&mut self, line: &str) -> (chunk: Option<String>)
        ensures
            final(self).pending() == step(old(self).pending(), bytes_of(line@)).pending,
            chunk_bytes(chunk) == step(old(self).pending(), bytes_of(line@)).chunk,
    {
        proof {
            lemma_bytes_of_concat(self.acc@, line@);
        }
        if self.acc.as_str().as_bytes().len() == 0 {
            if starts_with_at(line.as_bytes(), 0, "Record".as_bytes()) {
                self.acc.append(line);
            }
            None
        } else if same_text(line, "%\n") {
            self.acc.append(line);
            let mut chunk = String::new();
            std::mem::swap(&mut self.acc, &mut chunk);
            Some(chunk)
        } else {
            self.acc.append(line);
            None
        }
    }
}

/// A reader of the chunks of a source text, one after the other.
pub struct SourceReader<'a> {
    src: &'a str,
    pos: usize,
}

impl<'a> SourceReader<'a> {
    #[verifier::type_invariant]
    spec fn well_formed(self) -> bool {
        &&& self.pos <= bytes_of(self.src@).len()
        &&& is_char_boundary(bytes_of(self.src@), self.pos as int)
    }

    /// The text that has not been read yet.
    pub closed spec fn rest(&self) -> Seq<u8> {
        bytes_of(self.src@).skip(self.pos as int)
    }

    /// A reader at the start of `src`.
    pub fn new(src: &'a str) -> (reader: Self)
        ensures
            reader.rest() == bytes_of(src@),
    {
        proof {
            encode_utf8_valid_utf8(src@);
        }
        SourceReader { src, pos: 0 }
    }

    /// Reads up to the end of the next chunk and returns it; `None` when the
    /// text holds no further chunk, and then nothing is left to read.
    pub fn read_record(&mut self) -> (chunk: Option<String>)
        ensures
            chunk_bytes(chunk) == scan(old(self).rest(), seq![]).chunk,
            final(self).rest() == old(self).rest().skip(scan(old(self).rest(), seq![]).consumed),
    {
        proof {
            use_type_invariant(&*self);
            encode_utf8_valid_utf8(self.src@);
            is_char_boundary_start_end_of_seq(bytes_of(self.src@));
        }
        let src: &'a str = self.src;
        let s = src.as_bytes();
        let len = s.len();
        let ghost start = self.pos as int;
        let ghost whole = scan(s@.skip(start), seq![]);
        let mut scanner = Scanner::new();
        while self.pos < len
            invariant
                self.src == src,
                s@ == bytes_of(src@),
                len == s@.len(),
                valid_utf8(s@),
                start == old(self).pos,
                old(self).src == src,
                whole == scan(s@.skip(start), seq![]),
                start <= self.pos <= len,
                is_char_boundary(s@, self.pos as int),
                is_char_boundary(s@, len as int),
                whole.chunk == scan(s@.skip(self.pos as int), scanner.pending()).chunk,
                whole.consumed == self.pos - start + scan(
                    s@.skip(self.pos as int),
                    scanner.pending(),
                ).consumed,
            decreases len - self.pos,
        {
            let from = self.pos;
            let stop = scan_run(s, from, ByteClass::NotNewline);
            let to = if stop < len {
                stop + 1
            } else {
                stop
            };
            proof {
                lemma_run_end(s@, from as int, ByteClass::NotNewline);
                lemma_run_end_skip(s@, from as int, 0, ByteClass::NotNewline);
                if stop < len {
                    lemma_boundary_after_ascii(s@, stop as int);
                }
                assert(s@.skip(from as int).take(to - from) =~= s@.subrange(
                    from as int,
                    to as int,
                ));
                assert(s@.skip(from as int).skip(to - from) =~= s@.skip(to as int));
            }
            let line = slice_between(src, from, to);
            self.pos = to;
            match scanner.push_line(line) {
                Some(text) => {
                    return Some(text);
                },
                None => {},
            }
        }
        None
    }
}

/// The first line of a text that is not empty is not empty, and lies in it.
pub proof fn lemma_first_line(s: Seq<u8>)
    ensures
        first_line_len(s) <= s.len(),
        s.len() > 0 ==> first_line_len(s) > 0,
{
    lemma_run_end(s, 0, ByteClass::NotNewline);
}

/// A scan stays inside the text, finds a chunk only by reading a line, and
/// reads the whole text where it finds none.
pub proof fn lemma_scan_consumed(s: Seq<u8>, pending: Seq<u8>)
    ensures
        0 <= scan(s, pending).consumed <= s.len(),
        scan(s, pending).chunk is Some ==> scan(s, pending).consumed > 0,
        scan(s, pending).chunk is None ==> scan(s, pending).consumed == s.len(),
    decreases s.len(),
{
    if s.len() > 0 {
        lemma_first_line(s);
        let n = first_line_len(s);
        let after = step(pending, s.take(n));
        if after.chunk is None {
            lemma_scan_consumed(s.skip(n), after.pending);
        }
    }
}

/// A chunk of a record that is open holds the lines that were pending and,
/// behind them, the text that the scan has read, as it is, and ends with the
/// line that closes a record.
pub proof fn lemma_open_chunk_is_verbatim(s: Seq<u8>, pending: Seq<u8>)
    requires
        pending.len() > 0,
    ensures
        scan(s, pending).chunk matches Some(chunk) ==> chunk == pending + s.take(
            scan(s, pending).consumed,
        ) && ends_with_terminator(chunk),
    decreases s.len(),
{
    if s.len() > 0 {
        lemma_first_line(s);
        lemma_terminator_bytes();
        let n = first_line_len(s);
        let line = s.take(n);
        if !closes_record(line) {
            let rest = s.skip(n);
            lemma_open_chunk_is_verbatim(rest, pending + line);
            lemma_scan_consumed(rest, pending + line);
            let more = scan(rest, pending + line).consumed;
            assert((pending + line) + rest.take(more) =~= pending + s.take(n + more));
        }
    }
}

/// A chunk is a part of the text, as it is: it ends where the scan has read
/// to, starts with the marker that opens a record, and ends with the line
/// that closes one.
pub proof fn lemma_chunk_is_verbatim(s: Seq<u8>)
    ensures
        scan(s, seq![]).chunk matches Some(chunk) ==> {
            let end = scan(s, seq![]).consumed;
            &&& chunk.len() <= end <= s.len()
            &&& chunk == s.subrange(end - chunk.len(), end)
            &&& opens_record(chunk)
            &&& ends_with_terminator(chunk)
        },
    decreases s.len(),
{
    if s.len() > 0 {
        lemma_first_line(s);
        let n = first_line_len(s);
        let line = s.take(n);
        let rest = s.skip(n);
        if opens_record(line) {
            lemma_open_chunk_is_verbatim(rest, line);
            lemma_scan_consumed(rest, line);
            let more = scan(rest, line).consumed;
            if scan(rest, line).chunk is Some {
                let chunk = line + rest.take(more);
                assert(chunk =~= s.subrange(0, n + more));
                let marker = bytes_of("Record"@);
                assert(chunk.subrange(0, marker.len() as int) =~= line.subrange(
                    0,
                    marker.len() as int,
                ));
            }
        } else {
            lemma_chunk_is_verbatim(rest);
            lemma_scan_consumed(rest, seq![]);
            if scan(rest, seq![]).chunk is Some {
                let chunk = scan(rest, seq![]).chunk->Some_0;
                let end = scan(rest, seq![]).consumed;
                assert(rest.subrange(end - chunk.len(), end) =~= s.subrange(
                    n + end - chunk.len(),
                    n + end,
                ));
            }
        }
    }
}

/// Whether a text is made of whole lines of which none opens a record.
pub open spec fn is_noise(noise: Seq<u8>) -> bool
    decreases noise.len(),
    via is_noise_decreases
{
    noise.len() == 0 || {
        let n = first_line_len(noise);
        &&& noise[n - 1] == NEWLINE
        &&& !opens_record(noise.take(n))
        &&& is_noise(noise.skip(n))
    }
}

#[via_fn]
proof fn is_noise_decreases(noise: Seq<u8>) {
    lemma_first_line(noise);
}

/// Noise in front of a text is dropped: the scan finds the chunk that it
/// finds without the noise, and has read the noise in addition.
pub proof fn lemma_noise_is_dropped(noise: Seq<u8>, text: Seq<u8>)
    requires
        is_noise(noise),
    ensures
        scan(noise + text, seq![]).chunk == scan(text, seq![]).chunk,
        scan(noise + text, seq![]).consumed == noise.len() + scan(text, seq![]).consumed,
    decreases noise.len(),
{
    let whole = noise + text;
    if noise.len() > 0 {
        let n = first_line_len(noise);
        lemma_run_end(noise, 0, ByteClass::NotNewline);
        lemma_run_end_extend(noise, text, 0, ByteClass::NotNewline);
        assert(whole.take(n) =~= noise.take(n));
        assert(whole.skip(n) =~= noise.skip(n) + text);
        lemma_noise_is_dropped(noise.skip(n), text);
    }
}

} // verus!
