//! Reading a lookup table from its text form.
//!
//! The text is read line by line: the diagram, the number of bits and the
//! number of clusters of a line are computed again from its hexadecimal
//! digits and must stand in the line as computed.

use crate::gen::WirePattern;
use crate::mlu::LookupTable;
use crate::text::{
    bit_pattern, digit_char, hex4, lemma_bit_pattern_injective, lemma_line_tail_ascii,
    lemma_lines_ascii, line, line_tail, line_tail_string, lines, patterns_below, table_text,
};
use vstd::prelude::*;
use vstd::slice::slice_subrange;
use vstd::string::{StringExecFns, StringSliceAdditionalSpecFns};
use vstd::utf8::{
    decode_utf8, encode_utf8, is_ascii_chars, is_char_boundary, is_continuation_byte,
    length_of_first_scalar, pop_first_scalar, valid_utf8,
};

verus! {

/// The bytes of a text of ASCII characters.
pub open spec fn ascii(text: Seq<char>) -> Seq<u8> {
    Seq::new(text.len(), |i: int| text[i] as u8)
}

/// Whether the byte is a hexadecimal digit, in either case.
pub open spec fn is_hex_digit(byte: u8) -> bool {
    ||| 0x30 <= byte <= 0x39
    ||| 0x41 <= byte <= 0x46
    ||| 0x61 <= byte <= 0x66
}

/// The value of a hexadecimal digit.
pub open spec fn hex_digit_value(byte: u8) -> nat {
    if 0x30 <= byte <= 0x39 {
        (byte - 0x30) as nat
    } else if 0x41 <= byte <= 0x46 {
        (byte - 0x41 + 10) as nat
    } else {
        (byte - 0x61 + 10) as nat
    }
}

/// How many hexadecimal digits the bytes start with.
pub open spec fn hex_run(bytes: Seq<u8>) -> nat
    decreases bytes.len(),
{
    if bytes.len() > 0 && is_hex_digit(bytes[0]) {
        1 + hex_run(bytes.drop_first())
    } else {
        0
    }
}

/// The number that the hexadecimal digits stand for.
pub open spec fn hex_value(digits: Seq<u8>) -> nat
    decreases digits.len(),
{
    if digits.len() == 0 {
        0
    } else {
        16 * hex_value(digits.drop_last()) + hex_digit_value(digits.last())
    }
}

/// How many bytes the input has in common with the start of what is
/// expected.
pub open spec fn matching(input: Seq<u8>, expected: Seq<u8>) -> nat
    decreases expected.len(),
{
    if input.len() > 0 && expected.len() > 0 && input[0] == expected[0] {
        1 + matching(input.drop_first(), expected.drop_first())
    } else {
        0
    }
}

/// Reads one line at the start of the input. `Ok` holds the pattern of the
/// line and the length of the line; `Err` holds the position of the first
/// byte that stands in the way of a line.
///
/// A line is `0x`, one to four hexadecimal digits in either case, and what
/// follows the digits in the line of the pattern that they stand for.
pub open spec fn read_line(input: Seq<u8>) -> Result<(u16, nat), nat> {
    let prefix = ascii(seq!['0', 'x']);
    let digits = hex_run(input.skip(2));
    if matching(input, prefix) < 2 {
        Err(matching(input, prefix))
    } else if digits == 0 {
        Err(2)
    } else if digits > 4 {
        Err(6)
    } else {
        let value = hex_value(input.subrange(2, 2 + digits as int)) as u16;
        let tail = ascii(line_tail(value));
        let found = matching(input.skip(2 + digits as int), tail);
        if found < tail.len() {
            Err(2 + digits + found)
        } else {
            Ok((value, 2 + digits + tail.len()))
        }
    }
}

/// Where a text stops being the text of a lookup table.
pub struct Mismatch {
    /// The position behind the last line that is in order and the newline
    /// after it: where the line that is not in order starts.
    pub line_start: nat,
    /// The position of the first byte that stands in the way.
    pub position: nat,
}

impl Mismatch {
    /// The same place seen from `offset` bytes further back.
    pub open spec fn shifted(self, offset: nat) -> Mismatch {
        Mismatch { line_start: offset + self.line_start, position: offset + self.position }
    }
}

/// Reads lines with a newline between two lines, and at most one newline
/// behind the last line, up to the end of the input.
pub open spec fn read_lines(input: Seq<u8>) -> Result<Set<u16>, Mismatch>
    decreases input.len(),
{
    match read_line(input) {
        Err(position) => Err(Mismatch { line_start: 0, position }),
        Ok((value, len)) => {
            if len >= input.len() {
                Ok(set![value])
            } else if input[len as int] != 0x0a {
                Err(Mismatch { line_start: len, position: len })
            } else if len + 1 == input.len() {
                Ok(set![value])
            } else {
                match read_lines(input.skip(len as int + 1)) {
                    Ok(patterns) => Ok(patterns.insert(value)),
                    Err(mismatch) => Err(mismatch.shifted(len + 1)),
                }
            }
        },
    }
}

/// Reads the text of a lookup table. A text without lines is the text of
/// the empty table, with or without a newline.
pub open spec fn read_table(input: Seq<u8>) -> Result<Set<u16>, Mismatch> {
    if input.len() == 0 {
        Ok(Set::empty())
    } else if input[0] == 0x0a {
        if input.len() == 1 {
            Ok(Set::empty())
        } else {
            Err(Mismatch { line_start: 1, position: 1 })
        }
    } else {
        read_lines(input)
    }
}

/// What `winnow::ascii::hex_uint` does on a byte slice when asked for a
/// `u16`: it takes all the hexadecimal digits that the input starts with,
/// in either case, and gives their value and the input behind them. It
/// fails when there is no digit or when there are more than four.
#[verifier::external_body]
fn hex_uint<'a>(input: &'a [u8]) -> (parsed: Option<(u16, &'a [u8])>)
    ensures
        match parsed {
            Some((value, rest)) => {
                &&& 1 <= hex_run(input@) <= 4
                &&& value == hex_value(input@.take(hex_run(input@) as int))
                &&& rest@ == input@.skip(hex_run(input@) as int)
            },
            None => hex_run(input@) == 0 || hex_run(input@) > 4,
        },
{
    let mut rest: &[u8] = input;
    match winnow::ascii::hex_uint::<&[u8], u16, winnow::error::ContextError>(&mut rest) {
        Ok(value) => Some((value, rest)),
        Err(_) => None,
    }
}

/// Whether the byte is a hexadecimal digit.
fn is_hex(byte: u8) -> (hex: bool)
    ensures
        hex == is_hex_digit(byte),
{
    (0x30 <= byte && byte <= 0x39) || (0x41 <= byte && byte <= 0x46) || (0x61 <= byte && byte
        <= 0x66)
}

/// How many bytes the input has in common with the start of what is
/// expected.
fn common_prefix(input: &[u8], expected: &[u8]) -> (found: usize)
    ensures
        found == matching(input@, expected@),
        found <= input@.len(),
        found <= expected@.len(),
{
    let mut found: usize = 0;
    proof {
        assert(input@.skip(0) =~= input@);
        assert(expected@.skip(0) =~= expected@);
    }
    while found < input.len() && found < expected.len() && input[found] == expected[found]
        invariant
            found <= input@.len(),
            found <= expected@.len(),
            matching(input@, expected@) == found + matching(
                input@.skip(found as int),
                expected@.skip(found as int),
            ),
        decreases input@.len() - found,
    {
        proof {
            let a = input@.skip(found as int);
            let b = expected@.skip(found as int);
            assert(a.drop_first() =~= input@.skip(found + 1));
            assert(b.drop_first() =~= expected@.skip(found + 1));
        }
        found += 1;
    }
    found
}

/// The bytes of an ASCII text are its characters.
pub proof fn lemma_ascii_bytes(text: Seq<char>)
    requires
        is_ascii_chars(text),
    ensures
        encode_utf8(text) == ascii(text),
{
    vstd::utf8::is_ascii_chars_encode_utf8(text);
    assert(encode_utf8(text) =~= ascii(text));
}

/// The run of hexadecimal digits lies within the input.
proof fn lemma_hex_run_bounded(bytes: Seq<u8>)
    ensures
        hex_run(bytes) <= bytes.len(),
    decreases bytes.len(),
{
    if bytes.len() > 0 && is_hex_digit(bytes[0]) {
        lemma_hex_run_bounded(bytes.drop_first());
    }
}

/// Reads one line at the start of the input.
fn parse_line(input: &[u8]) -> (read: Result<(u16, usize), usize>)
    ensures
        match read_line(input@) {
            Ok((value, len)) => read == Ok::<(u16, usize), usize>((value, len as usize)) && len
                <= input@.len(),
            Err(position) => read == Err::<(u16, usize), usize>(position as usize) && position
                <= input@.len(),
        },
{
    let prefix = "0x";
    proof {
        reveal_strlit("0x");
        assert(prefix@ =~= seq!['0', 'x']);
        lemma_ascii_bytes(prefix@);
        lemma_hex_run_bounded(input@.skip(2));
    }
    let found = common_prefix(input, prefix.as_bytes());
    if found < 2 {
        return Err(found);
    }
    let behind = slice_subrange(input, 2, input.len());
    assert(behind@ =~= input@.skip(2));
    match hex_uint(behind) {
        None => {
            if behind.len() > 0 && is_hex(behind[0]) {
                Err(6)
            } else {
                Err(2)
            }
        },
        Some((value, rest)) => {
            let digits = behind.len() - rest.len();
            let tail = line_tail_string(value);
            proof {
                assert(behind@.take(digits as int) =~= input@.subrange(2, 2 + digits));
                assert(rest@ =~= input@.skip(2 + digits));
                lemma_line_tail_ascii(value);
                lemma_ascii_bytes(line_tail(value));
            }
            let expected = tail.as_str().as_bytes();
            let matched = common_prefix(rest, expected);
            if matched < expected.len() {
                Err(2 + digits + matched)
            } else {
                Ok((value, 2 + digits + matched))
            }
        },
    }
}

/// The start of the character that the byte at `at` belongs to.
pub open spec fn char_start(bytes: Seq<u8>, at: int) -> int
    decreases at,
{
    if at <= 0 || is_char_boundary(bytes, at) {
        at
    } else {
        char_start(bytes, at - 1)
    }
}

/// The end of the character that the byte at `at` belongs to.
pub open spec fn char_end(bytes: Seq<u8>, at: int) -> int
    decreases bytes.len() - at,
{
    if at + 1 >= bytes.len() || is_char_boundary(bytes, at + 1) {
        at + 1
    } else {
        char_end(bytes, at + 1)
    }
}

/// No character takes more than four bytes: behind a character boundary
/// within the text the next boundary is at most four bytes away.
proof fn lemma_next_boundary(bytes: Seq<u8>, index: int) -> (width: int)
    requires
        valid_utf8(bytes),
        is_char_boundary(bytes, index),
        0 <= index < bytes.len(),
    ensures
        1 <= width <= 4,
        is_char_boundary(bytes, index + width),
    decreases bytes.len(),
{
    let first = length_of_first_scalar(bytes);
    let rest = pop_first_scalar(bytes);
    assert(1 <= first <= 4 && first <= bytes.len());
    assert(valid_utf8(rest));
    if index == 0 {
        assert(is_char_boundary(rest, 0));
        assert(is_char_boundary(bytes, first));
        first
    } else {
        assert(is_char_boundary(rest, index - first));
        assert(index - first >= 0);
        let width = lemma_next_boundary(rest, index - first);
        assert(index - first + width <= rest.len());
        assert(is_char_boundary(bytes, index + width));
        width
    }
}

/// A character boundary of a text is a character boundary of every part of
/// the text that holds it and is cut at character boundaries.
proof fn lemma_boundary_within(bytes: Seq<u8>, from: int, to: int, index: int)
    requires
        valid_utf8(bytes),
        0 <= from <= index <= to <= bytes.len(),
        is_char_boundary(bytes, from),
        is_char_boundary(bytes, to),
        is_char_boundary(bytes, index),
    ensures
        valid_utf8(bytes.subrange(from, to)),
        is_char_boundary(bytes.subrange(from, to), index - from),
{
    let head = bytes.subrange(0, to);
    vstd::utf8::valid_utf8_split(bytes, to);
    vstd::utf8::is_char_boundary_start_end_of_seq(head);
    if from < to {
        vstd::utf8::is_char_boundary_iff_not_is_continuation_byte(bytes, from);
        vstd::utf8::is_char_boundary_iff_not_is_continuation_byte(head, from);
        assert(head[from] == bytes[from]);
    }
    assert(is_char_boundary(head, from));
    vstd::utf8::valid_utf8_split(head, from);
    let part = bytes.subrange(from, to);
    assert(head.subrange(from, head.len() as int) =~= part);
    vstd::utf8::is_char_boundary_start_end_of_seq(part);
    if from < index < to {
        vstd::utf8::is_char_boundary_iff_not_is_continuation_byte(bytes, index);
        vstd::utf8::is_char_boundary_iff_not_is_continuation_byte(part, index - from);
        assert(part[index - from] == bytes[index]);
    }
}

/// How many bytes of the text a report shows at most. A line of this length
/// fits the width for which the report is laid out.
pub const REPORT_WIDTH: usize = 100;

/// The highest line number that a report shows. The lines behind it are
/// shown under this number.
pub const LAST_LINE_NUMBER: usize = 4_000_000_000;

/// Where the line starts that holds the byte at `at`.
pub open spec fn line_begin(bytes: Seq<u8>, at: int) -> int
    decreases at,
{
    if at <= 0 || bytes[at - 1] == 0x0a {
        at
    } else {
        line_begin(bytes, at - 1)
    }
}

/// How many newlines stand before the byte at `at`.
pub open spec fn newlines_before(bytes: Seq<u8>, at: int) -> nat
    decreases at,
{
    if at <= 0 {
        0
    } else if bytes[at - 1] == 0x0a {
        newlines_before(bytes, at - 1) + 1
    } else {
        newlines_before(bytes, at - 1)
    }
}

/// The number under which a report shows the line that holds the byte at
/// `at`. The first line has the number one.
pub open spec fn line_number(bytes: Seq<u8>, at: int) -> int {
    if newlines_before(bytes, at) < LAST_LINE_NUMBER {
        newlines_before(bytes, at) as int + 1
    } else {
        LAST_LINE_NUMBER as int
    }
}

/// Where the excerpt starts that a report shows for a mark on the character
/// at `at`: where the line of that character starts, if the mark is then
/// within the excerpt, and at the marked character if not.
pub open spec fn excerpt_start(bytes: Seq<u8>, at: int) -> int {
    let mark = char_start(bytes, at);
    let begin = line_begin(bytes, mark);
    if is_char_boundary(bytes, begin) && char_end(bytes, at) - begin <= REPORT_WIDTH {
        begin
    } else {
        mark
    }
}

/// Where the excerpt ends that a report shows for a mark on the character
/// at `at`: at the end of the text or of the last character that ends
/// within [`REPORT_WIDTH`] bytes of the start of the excerpt.
pub open spec fn excerpt_end(bytes: Seq<u8>, at: int) -> int {
    let from = excerpt_start(bytes, at);
    if bytes.len() - from <= REPORT_WIDTH {
        bytes.len() as int
    } else {
        char_start(bytes, from + REPORT_WIDTH)
    }
}

/// The report that `annotate_snippets` renders, without colours, for an
/// error with the title `title` whose only snippet is `source`, folded,
/// with `first_line` as the number of its first line and with one error
/// annotation on the bytes from `start` to `end`.
pub uninterp spec fn rendered_snippet(title: Seq<char>, source: Seq<char>, first_line: int, start: int, end: int) -> Seq<char>;

/// Renders an error report with `annotate_snippets`: the level is
/// `Level::Error`, the snippet is folded, starts at line `first_line` and
/// carries one annotation of the same level, and the renderer is
/// `Renderer::plain()`. The report depends on the arguments alone.
///
/// The renderer panics on a span that does not lie within the source and
/// on character boundaries. It lays the report out for 140 columns, less
/// the width of the line number, and its sums for a longer line can fall
/// below zero; a source of [`REPORT_WIDTH`] bytes has no such line. It
/// counts the lines from `first_line` on, which must leave room for that.
#[verifier::external_body]
fn render_snippet(title: &str, source: &str, first_line: usize, start: usize, end: usize) -> (report:
    String)
    requires
        encode_utf8(source@).len() <= REPORT_WIDTH,
        first_line <= LAST_LINE_NUMBER,
        start < end <= encode_utf8(source@).len(),
        is_char_boundary(encode_utf8(source@), start as int),
        is_char_boundary(encode_utf8(source@), end as int),
    ensures
        report@ == rendered_snippet(
            title@,
            source@,
            first_line as int,
            start as int,
            end as int,
        ),
{
    let message = annotate_snippets::Level::Error.title(title).snippet(
        annotate_snippets::Snippet::source(source).line_start(first_line).fold(true).annotation(
            annotate_snippets::Level::Error.span(start..end),
        ),
    );
    annotate_snippets::Renderer::plain().render(message).to_string()
}

/// What is known of a text that is not the text of a lookup table.
pub struct Rejection {
    /// The text.
    pub input: Seq<char>,
    /// Where it stops being the text of a lookup table.
    pub mismatch: Mismatch,
}

/// The error type returned when parsing a [`LookupTable`] fails.
#[derive(Debug)]
pub struct ParseError {
    input: String,
    line_start: usize,
    position: usize,
}

impl View for ParseError {
    type V = Rejection;

    closed spec fn view(&self) -> Rejection {
        Rejection {
            input: self.input@,
            mismatch: Mismatch {
                line_start: self.line_start as nat,
                position: self.position as nat,
            },
        }
    }
}

impl ParseError {
    #[verifier::type_invariant]
    spec fn within_input(self) -> bool {
        &&& self.line_start < encode_utf8(self.input@).len()
        &&& self.line_start <= self.position <= encode_utf8(self.input@).len()
    }

    /// The text that was not accepted.
    pub fn input(&self) -> (input: &str)
        ensures
            input@ == self@.input,
    {
        self.input.as_str()
    }

    /// The position, in bytes, at which the line that is not in order
    /// starts.
    pub fn line_start(&self) -> (line_start: usize)
        ensures
            line_start == self@.mismatch.line_start,
    {
        self.line_start
    }

    /// The position, in bytes, of the first byte that stands in the way.
    pub fn position(&self) -> (position: usize)
        ensures
            position == self@.mismatch.position,
    {
        self.position
    }

    /// The title of the report.
    pub open spec fn title() -> Seq<char> {
        "invalid line starting here"@
    }

    /// A report for the reader: the line that is not in order, under its
    /// number, with a mark under the character at which it starts. Of a
    /// long line the report shows the first [`REPORT_WIDTH`] bytes.
    pub fn to_string(&self) -> (report: String)
        ensures
            ({
                let bytes = encode_utf8(self@.input);
                let at = self@.mismatch.line_start as int;
                let from = excerpt_start(bytes, at);
                report@ == rendered_snippet(
                    Self::title(),
                    decode_utf8(bytes.subrange(from, excerpt_end(bytes, at))),
                    line_number(bytes, char_start(bytes, at)),
                    char_start(bytes, at) - from,
                    char_end(bytes, at) - from,
                )
            }),
    {
        proof {
            use_type_invariant(self);
        }
        let source = self.input.as_str();
        let text = source.as_bytes();
        let ghost bytes = encode_utf8(source@);
        let ghost at = self.line_start as int;
        proof {
            vstd::utf8::encode_utf8_valid_utf8(source@);
            vstd::utf8::is_char_boundary_start_end_of_seq(bytes);
        }
        let len = text.len();
        // the marked character
        let mut start = self.line_start;
        while start > 0 && !source.is_char_boundary(start)
            invariant
                bytes == encode_utf8(source@),
                start <= self.line_start,
                char_start(bytes, at) == char_start(bytes, start as int),
                forall|j: int| start < j <= self.line_start ==> !is_char_boundary(bytes, j),
            decreases start,
        {
            start -= 1;
        }
        let ghost width = lemma_next_boundary(bytes, start as int);
        let mut end = self.line_start + 1;
        while end < len && !source.is_char_boundary(end)
            invariant
                bytes == encode_utf8(source@),
                len == bytes.len(),
                self.line_start < end <= len,
                end <= start + width,
                is_char_boundary(bytes, start + width),
                char_end(bytes, at) == char_end(bytes, end - 1),
            decreases len - end,
        {
            end += 1;
        }
        // its line and the number of that line
        let mut begin = start;
        while begin > 0 && text[begin - 1] != 0x0a
            invariant
                text@ == bytes,
                len == bytes.len(),
                begin <= start < len,
                line_begin(bytes, start as int) == line_begin(bytes, begin as int),
            decreases begin,
        {
            begin -= 1;
        }
        let mut newlines: usize = 0;
        let mut seen: usize = 0;
        while seen < start
            invariant
                text@ == bytes,
                len == bytes.len(),
                seen <= start < len,
                newlines <= seen,
                newlines == newlines_before(bytes, seen as int),
            decreases start - seen,
        {
            if text[seen] == 0x0a {
                newlines += 1;
            }
            seen += 1;
        }
        let first_line = if newlines < LAST_LINE_NUMBER {
            newlines + 1
        } else {
            LAST_LINE_NUMBER
        };
        // the excerpt
        let from = if source.is_char_boundary(begin) && end - begin <= REPORT_WIDTH {
            begin
        } else {
            start
        };
        let mut to = if len - from <= REPORT_WIDTH {
            len
        } else {
            from + REPORT_WIDTH
        };
        let ghost bound = to;
        while !source.is_char_boundary(to)
            invariant
                bytes == encode_utf8(source@),
                is_char_boundary(bytes, end as int),
                0 < end <= to <= bound,
                char_start(bytes, bound as int) == char_start(bytes, to as int),
            decreases to,
        {
            to -= 1;
        }
        proof {
            lemma_boundary_within(bytes, 0, to as int, from as int);
            lemma_boundary_within(bytes, from as int, to as int, start as int);
            lemma_boundary_within(bytes, from as int, to as int, end as int);
        }
        let (head, _) = source.split_at(to);
        let (_, excerpt) = head.split_at(from);
        proof {
            let part = bytes.subrange(from as int, to as int);
            assert(head.spec_bytes().subrange(from as int, to as int) =~= part);
            assert(encode_utf8(excerpt@) =~= part);
            vstd::utf8::encode_utf8_decode_utf8(excerpt@);
            reveal_strlit("invalid line starting here");
        }
        render_snippet("invalid line starting here", excerpt, first_line, start - from, end - from)
    }
}

/// Where `read_lines` stops, from the first line on, is within the input.
proof fn lemma_mismatch_within(input: Seq<u8>)
    requires
        input.len() > 0,
    ensures
        read_lines(input) matches Err(mismatch) ==> mismatch.line_start < input.len()
            && mismatch.line_start <= mismatch.position <= input.len(),
    decreases input.len(),
{
    lemma_hex_run_bounded(input.skip(2));
    lemma_matching_bounded(input, ascii(seq!['0', 'x']));
    match read_line(input) {
        Err(position) => {
            let digits = hex_run(input.skip(2));
            if matching(input, ascii(seq!['0', 'x'])) >= 2 && 1 <= digits <= 4 {
                let value = hex_value(input.subrange(2, 2 + digits as int)) as u16;
                lemma_matching_bounded(input.skip(2 + digits as int), ascii(line_tail(value)));
            }
        },
        Ok((value, len)) => {
            if len < input.len() && input[len as int] == 0x0a && len + 1 < input.len() {
                lemma_mismatch_within(input.skip(len as int + 1));
            }
        },
    }
}

proof fn lemma_matching_bounded(input: Seq<u8>, expected: Seq<u8>)
    ensures
        matching(input, expected) <= input.len(),
        matching(input, expected) <= expected.len(),
    decreases expected.len(),
{
    if input.len() > 0 && expected.len() > 0 && input[0] == expected[0] {
        lemma_matching_bounded(input.drop_first(), expected.drop_first());
    }
}

/// The outcome of reading the rest of a text, seen from the start of the
/// text: `patterns` were read before the rest, which starts at `offset`.
pub open spec fn resumed(patterns: Set<u16>, offset: nat, rest: Result<Set<u16>, Mismatch>) -> Result<
    Set<u16>,
    Mismatch,
> {
    match rest {
        Ok(more) => Ok(patterns.union(more)),
        Err(mismatch) => Err(mismatch.shifted(offset)),
    }
}

/// A line that is not in order ends the reading.
proof fn lemma_resumed_at_bad_line(input: Seq<u8>, start: nat, patterns: Set<u16>)
    requires
        start < input.len(),
        read_line(input.skip(start as int)) is Err,
    ensures
        resumed(patterns, start, read_lines(input.skip(start as int))) == Err::<
            Set<u16>,
            Mismatch,
        >(
            Mismatch {
                line_start: start,
                position: start + read_line(input.skip(start as int))->Err_0,
            },
        ),
{
}

/// A line that is in order and is not followed by a newline ends the
/// reading: well if the input ends with it, and badly if not.
proof fn lemma_resumed_at_last_line(input: Seq<u8>, start: nat, patterns: Set<u16>)
    requires
        start < input.len(),
        read_line(input.skip(start as int)) is Ok,
        ({
            let end = start + read_line(input.skip(start as int))->Ok_0.1;
            end >= input.len() || input[end as int] != 0x0a || end + 1 == input.len()
        }),
    ensures
        ({
            let (value, len) = read_line(input.skip(start as int))->Ok_0;
            let end = start + len;
            resumed(patterns, start, read_lines(input.skip(start as int))) == if end < input.len()
                && input[end as int] != 0x0a {
                Err::<Set<u16>, Mismatch>(Mismatch { line_start: end, position: end })
            } else {
                Ok::<Set<u16>, Mismatch>(patterns.insert(value))
            }
        }),
{
    let (value, len) = read_line(input.skip(start as int))->Ok_0;
    assert(patterns.union(set![value]) =~= patterns.insert(value));
}

/// A line that is in order and is followed by a newline and more input
/// adds its pattern, and the reading goes on behind the newline.
proof fn lemma_resumed_at_next_line(input: Seq<u8>, start: nat, patterns: Set<u16>)
    requires
        start < input.len(),
        read_line(input.skip(start as int)) is Ok,
        ({
            let end = start + read_line(input.skip(start as int))->Ok_0.1;
            end + 1 < input.len() && input[end as int] == 0x0a
        }),
    ensures
        ({
            let (value, len) = read_line(input.skip(start as int))->Ok_0;
            let next = start + len + 1;
            resumed(patterns, start, read_lines(input.skip(start as int))) == resumed(
                patterns.insert(value),
                next,
                read_lines(input.skip(next as int)),
            )
        }),
{
    let (value, len) = read_line(input.skip(start as int))->Ok_0;
    let next = start + len + 1;
    assert(input.skip(start as int).skip(len as int + 1) =~= input.skip(next as int));
    match read_lines(input.skip(next as int)) {
        Ok(more) => {
            assert(patterns.union(more.insert(value)) =~= patterns.insert(value).union(more));
        },
        Err(mismatch) => {},
    }
}

impl LookupTable {
    /// Parse a [`LookupTable`] from a string. The string should have the
    /// same format as processed by the real detector: see [`read_table`].
    /// Either all lines are in order and the table holds their patterns, or
    /// the error says where the text stops being in order.
    pub fn from_str(input: &str) -> (parsed: Result<LookupTable, ParseError>)
        ensures
            match read_table(encode_utf8(input@)) {
                Ok(patterns) => parsed matches Ok(table) && table@ == patterns,
                Err(mismatch) => parsed matches Err(error) && error@ == (Rejection {
                    input: input@,
                    mismatch,
                }),
            },
    {
        let bytes = input.as_bytes();
        let len = bytes.len();
        let mut table = LookupTable::new();
        if len == 0 {
            return Ok(table);
        }
        if bytes[0] == 0x0a {
            if len == 1 {
                return Ok(table);
            }
            return Err(ParseError { input: String::from_str(input), line_start: 1, position: 1 });
        }
        let mut start: usize = 0;
        proof {
            assert(bytes@.skip(0) =~= bytes@);
            lemma_mismatch_within(bytes@);
            match read_lines(bytes@) {
                Ok(more) => {
                    assert(table@.union(more) =~= more);
                },
                Err(mismatch) => {},
            }
        }
        loop
            invariant
                bytes@ == encode_utf8(input@),
                len == bytes@.len(),
                start < len,
                bytes@[0] != 0x0a,
                read_lines(bytes@) == resumed(
                    table@,
                    start as nat,
                    read_lines(bytes@.skip(start as int)),
                ),
                read_lines(bytes@) matches Err(mismatch) ==> mismatch.line_start < len
                    && mismatch.line_start <= mismatch.position <= len,
            decreases len - start,
        {
            let rest = slice_subrange(bytes, start, len);
            assert(rest@ =~= bytes@.skip(start as int));
            match parse_line(rest) {
                Err(position) => {
                    proof {
                        lemma_resumed_at_bad_line(bytes@, start as nat, table@);
                    }
                    return Err(
                        ParseError {
                            input: String::from_str(input),
                            line_start: start,
                            position: start + position,
                        },
                    );
                },
                Ok((value, line_len)) => {
                    let ghost before = table@;
                    let end = start + line_len;
                    table.insert(WirePattern::from_bits(value));
                    if end >= len {
                        proof {
                            lemma_resumed_at_last_line(bytes@, start as nat, before);
                        }
                        return Ok(table);
                    }
                    if bytes[end] != 0x0a {
                        proof {
                            lemma_resumed_at_last_line(bytes@, start as nat, before);
                        }
                        return Err(
                            ParseError {
                                input: String::from_str(input),
                                line_start: end,
                                position: end,
                            },
                        );
                    }
                    if end + 1 == len {
                        proof {
                            lemma_resumed_at_last_line(bytes@, start as nat, before);
                        }
                        return Ok(table);
                    }
                    proof {
                        lemma_resumed_at_next_line(bytes@, start as nat, before);
                    }
                    start = end + 1;
                },
            }
        }
    }
}

impl core::str::FromStr for LookupTable {
    type Err = ParseError;

    /// Parse a [`LookupTable`] from a string, as [`LookupTable::from_str`]
    /// does.
    fn from_str(input: &str) -> (parsed: Result<LookupTable, ParseError>)
        ensures
            match read_table(encode_utf8(input@)) {
                Ok(patterns) => parsed matches Ok(table) && table@ == patterns,
                Err(mismatch) => parsed matches Err(error) && error@ == (Rejection {
                    input: input@,
                    mismatch,
                }),
            },
    {
        LookupTable::from_str(input)
    }
}

/// The bytes of two texts put together.
proof fn lemma_ascii_of_sum(a: Seq<char>, b: Seq<char>)
    ensures
        ascii(a + b) == ascii(a) + ascii(b),
{
    assert(ascii(a + b) =~= ascii(a) + ascii(b));
}

/// An input that starts with what is expected matches all of it.
proof fn lemma_matching_all(expected: Seq<u8>, behind: Seq<u8>)
    ensures
        matching(expected + behind, expected) == expected.len(),
    decreases expected.len(),
{
    if expected.len() > 0 {
        assert((expected + behind).drop_first() =~= expected.drop_first() + behind);
        lemma_matching_all(expected.drop_first(), behind);
    }
}

/// The digit characters are hexadecimal digits of the value that they
/// stand for.
proof fn lemma_digit_char_value(digit: nat)
    requires
        digit < 16,
    ensures
        is_hex_digit(digit_char(digit) as u8),
        hex_digit_value(digit_char(digit) as u8) == digit,
{
}

/// The four digits of a pattern stand for the pattern.
proof fn lemma_hex4_value(n: u16)
    ensures
        hex_value(ascii(hex4(n))) == n,
{
    let digits = ascii(hex4(n));
    let d3 = (n / 4096) as nat;
    let d2 = (n / 256 % 16) as nat;
    let d1 = (n / 16 % 16) as nat;
    let d0 = (n % 16) as nat;
    lemma_digit_char_value(d3);
    lemma_digit_char_value(d2);
    lemma_digit_char_value(d1);
    lemma_digit_char_value(d0);
    let three = digits.drop_last();
    let two = three.drop_last();
    let one = two.drop_last();
    assert(one.drop_last().len() == 0);
    assert(hex_value(one) == d3) by {
        reveal_with_fuel(hex_value, 2);
    }
    assert(hex_value(two) == 16 * d3 + d2);
    assert(hex_value(three) == 16 * (16 * d3 + d2) + d1);
    assert(hex_value(digits) == 16 * (16 * (16 * d3 + d2) + d1) + d0);
}

/// A line reads as its pattern, whatever stands behind it.
proof fn lemma_read_own_line(n: u16, behind: Seq<u8>)
    ensures
        read_line(ascii(line(n)) + behind) == Ok::<(u16, nat), nat>((n, line(n).len())),
{
    let prefix = ascii(seq!['0', 'x']);
    let digits = ascii(hex4(n));
    let tail = ascii(line_tail(n));
    let input = ascii(line(n)) + behind;
    lemma_ascii_of_sum(seq!['0', 'x'], hex4(n));
    lemma_ascii_of_sum(seq!['0', 'x'] + hex4(n), line_tail(n));
    assert(input =~= prefix + (digits + tail + behind));
    lemma_matching_all(prefix, digits + tail + behind);
    let after_prefix = input.skip(2);
    assert(after_prefix =~= digits + (tail + behind));
    assert((tail + behind)[0] == 0x20);
    lemma_read_digits(n, tail + behind);
    assert(input.subrange(2, 6) =~= after_prefix.take(4));
    assert(input.skip(6) =~= tail + behind);
    lemma_matching_all(tail, behind);
}

/// An input that matches all of what is expected starts with it.
proof fn lemma_matching_is_prefix(input: Seq<u8>, expected: Seq<u8>)
    requires
        matching(input, expected) == expected.len(),
    ensures
        expected.len() <= input.len(),
        input.take(expected.len() as int) == expected,
    decreases expected.len(),
{
    if expected.len() > 0 {
        lemma_matching_bounded(input.drop_first(), expected.drop_first());
        lemma_matching_is_prefix(input.drop_first(), expected.drop_first());
        assert forall|k: int| 0 <= k < expected.len() implies input[k] == expected[k] by {
            if k > 0 {
                assert(input.drop_first().take(expected.len() - 1)[k - 1] == expected.drop_first()[k
                    - 1]);
            }
        }
    }
    assert(input.take(expected.len() as int) =~= expected);
}

/// The digits of a pattern in front of the diagram of the pattern.
proof fn lemma_read_digits(n: u16, behind: Seq<u8>)
    requires
        behind.len() > 0,
        !is_hex_digit(behind[0]),
    ensures
        hex_run(ascii(hex4(n)) + behind) == 4,
        hex_value((ascii(hex4(n)) + behind).take(4)) == n,
{
    let digits = ascii(hex4(n));
    let input = digits + behind;
    lemma_digit_char_value((n / 4096) as nat);
    lemma_digit_char_value((n / 256 % 16) as nat);
    lemma_digit_char_value((n / 16 % 16) as nat);
    lemma_digit_char_value((n % 16) as nat);
    let s1 = input.drop_first();
    let s2 = s1.drop_first();
    let s3 = s2.drop_first();
    let s4 = s3.drop_first();
    assert(input[0] == digits[0]);
    assert(s1[0] == digits[1]);
    assert(s2[0] == digits[2]);
    assert(s3[0] == digits[3]);
    assert(s4[0] == behind[0]);
    assert(hex_run(s4) == 0);
    assert(hex_run(s3) == 1);
    assert(hex_run(s2) == 2);
    assert(hex_run(s1) == 3);
    assert(input.take(4) =~= digits);
    lemma_hex4_value(n);
}

/// Self-validation: a line that carries the digits of one pattern and the
/// diagram of another does not read, whatever the rest of it says.
pub proof fn lemma_rejects_mixed_line(digits_of: u16, diagram_of: u16, behind: Seq<u8>)
    requires
        digits_of != diagram_of,
    ensures
        read_line(
            ascii(seq!['0', 'x'] + hex4(digits_of) + seq![' ', '1', ' '] + bit_pattern(diagram_of))
                + behind,
        ) is Err,
{
    let prefix = ascii(seq!['0', 'x']);
    let digits = ascii(hex4(digits_of));
    let one = ascii(seq![' ', '1', ' ']);
    let diagram = ascii(bit_pattern(diagram_of));
    let input = ascii(
        seq!['0', 'x'] + hex4(digits_of) + seq![' ', '1', ' '] + bit_pattern(diagram_of),
    ) + behind;
    assert(input =~= prefix + (digits + (one + diagram + behind)));
    lemma_matching_all(prefix, digits + (one + diagram + behind));
    assert(input.skip(2) =~= digits + (one + diagram + behind));
    lemma_read_digits(digits_of, one + diagram + behind);
    assert(input.subrange(2, 6) =~= input.skip(2).take(4));
    let rest = input.skip(6);
    assert(rest =~= one + diagram + behind);
    let tail = ascii(line_tail(digits_of));
    lemma_matching_bounded(rest, tail);
    if matching(rest, tail) == tail.len() {
        lemma_matching_is_prefix(rest, tail);
        assert forall|k: int| 0 <= k < 16 implies bit_pattern(digits_of)[k] == bit_pattern(
            diagram_of,
        )[k] by {
            assert(rest.take(tail.len() as int)[3 + k] == tail[3 + k]);
            assert(rest[3 + k] == diagram[k]);
            assert(tail[3 + k] == line_tail(digits_of)[3 + k] as u8);
            assert(line_tail(digits_of)[3 + k] == bit_pattern(digits_of)[k]);
        }
        assert(bit_pattern(digits_of) =~= bit_pattern(diagram_of));
        lemma_bit_pattern_injective(digits_of, diagram_of);
    }
}

/// The lines of two or more patterns, seen from the first line.
proof fn lemma_lines_from_first(patterns: Seq<u16>)
    requires
        patterns.len() >= 2,
    ensures
        lines(patterns) == line(patterns[0]) + seq!['\n'] + lines(patterns.drop_first()),
    decreases patterns.len(),
{
    let front = patterns.drop_last();
    if patterns.len() == 2 {
        assert(front.len() == 1);
        assert(patterns.drop_first().len() == 1);
        assert(lines(patterns) =~= line(patterns[0]) + seq!['\n'] + lines(patterns.drop_first()));
    } else {
        lemma_lines_from_first(front);
        let rest = patterns.drop_first();
        assert(front.drop_first() =~= rest.drop_last());
        assert(rest.last() == patterns.last());
        assert(lines(rest) == lines(rest.drop_last()) + seq!['\n'] + line(rest.last()));
        assert(lines(patterns) == lines(front) + seq!['\n'] + line(patterns.last()));
        assert(lines(patterns) =~= line(patterns[0]) + seq!['\n'] + lines(rest));
    }
}

/// There is no empty line.
proof fn lemma_lines_start(patterns: Seq<u16>)
    requires
        patterns.len() > 0,
    ensures
        lines(patterns).len() > 0,
        lines(patterns)[0] == '0',
    decreases patterns.len(),
{
    if patterns.len() > 1 {
        lemma_lines_start(patterns.drop_last());
    }
}

/// The lines of some patterns read as these patterns.
proof fn lemma_read_own_lines(patterns: Seq<u16>)
    requires
        patterns.len() > 0,
    ensures
        read_lines(ascii(lines(patterns))) == Ok::<Set<u16>, Mismatch>(patterns.to_set()),
    decreases patterns.len(),
{
    broadcast use vstd::seq_lib::group_to_multiset_ensures;

    let first = patterns[0];
    let input = ascii(lines(patterns));
    if patterns.len() == 1 {
        lemma_read_own_line(first, Seq::empty());
        assert(ascii(line(first)) + Seq::<u8>::empty() =~= input);
        assert(patterns.to_set() =~= set![first]) by {
            assert forall|p: u16| patterns.to_set().contains(p) implies p == first by {
                let k = choose|k: int| 0 <= k < patterns.len() && patterns[k] == p;
            }
            assert(patterns.contains(first));
        }
    } else {
        let rest = patterns.drop_first();
        lemma_lines_from_first(patterns);
        lemma_lines_start(rest);
        lemma_ascii_of_sum(line(first), seq!['\n']);
        lemma_ascii_of_sum(line(first) + seq!['\n'], lines(rest));
        let newline = ascii(seq!['\n']);
        let behind = newline + ascii(lines(rest));
        assert(input =~= ascii(line(first)) + behind);
        lemma_read_own_line(first, behind);
        let len = line(first).len();
        assert(input[len as int] == 0x0a);
        assert(input.skip(len as int + 1) =~= ascii(lines(rest)));
        lemma_read_own_lines(rest);
        assert(rest.to_set().insert(first) =~= patterns.to_set()) by {
            assert forall|p: u16| rest.to_set().insert(first).contains(p) implies patterns.to_set().contains(
                p,
            ) by {
                if p == first {
                    assert(patterns.contains(first));
                } else {
                    let k = choose|k: int| 0 <= k < rest.len() && rest[k] == p;
                    assert(patterns[k + 1] == p);
                }
            }
            assert forall|p: u16| patterns.to_set().contains(p) implies rest.to_set().insert(
                first,
            ).contains(p) by {
                let k = choose|k: int| 0 <= k < patterns.len() && patterns[k] == p;
                if k > 0 {
                    assert(rest[k - 1] == p);
                }
            }
        }
    }
}

/// The patterns listed below a bound are the patterns of the table below
/// that bound.
proof fn lemma_patterns_below(patterns: Set<u16>, bound: int)
    requires
        0 <= bound <= 65536,
    ensures
        forall|p: u16| patterns_below(patterns, bound).contains(p) <==> patterns.contains(p) && p < bound,
    decreases bound,
{
    if bound > 0 {
        lemma_patterns_below(patterns, bound - 1);
        let before = patterns_below(patterns, bound - 1);
        let last = (bound - 1) as u16;
        if patterns.contains(last) {
            let now = before.push(last);
            assert forall|p: u16| now.contains(p) <==> patterns.contains(p) && p < bound by {
                if now.contains(p) {
                    let k = choose|k: int| 0 <= k < now.len() && now[k] == p;
                    if k < before.len() {
                        assert(before[k] == p);
                        assert(before.contains(p));
                    }
                }
                if patterns.contains(p) && p < bound {
                    if p == last {
                        assert(now[before.len() as int] == p);
                    } else {
                        assert(before.contains(p));
                        let k = choose|k: int| 0 <= k < before.len() && before[k] == p;
                        assert(now[k] == p);
                    }
                }
            }
        }
    }
}

/// Round trip: the text of a table reads as the table.
pub proof fn lemma_text_round_trip(patterns: Set<u16>)
    ensures
        encode_utf8(table_text(patterns)) == ascii(table_text(patterns)),
        read_table(encode_utf8(table_text(patterns))) == Ok::<Set<u16>, Mismatch>(patterns),
{
    let listed = patterns_below(patterns, 65536);
    lemma_lines_ascii(listed);
    lemma_ascii_bytes(table_text(patterns));
    lemma_patterns_below(patterns, 65536);
    if listed.len() == 0 {
        assert(patterns =~= Set::<u16>::empty()) by {
            assert forall|p: u16| !patterns.contains(p) by {
                if patterns.contains(p) {
                    assert(listed.contains(p));
                }
            }
        }
    } else {
        lemma_lines_start(listed);
        lemma_read_own_lines(listed);
        assert(listed.to_set() =~= patterns);
    }
}

/// Round trip, the other way: a text that was written from a table reads
/// as a table whose text it is.
pub proof fn lemma_text_round_trip_back(text: Seq<char>, patterns: Set<u16>)
    requires
        text == table_text(patterns),
    ensures
        read_table(encode_utf8(text)) matches Ok(read) && table_text(read) == text,
{
    lemma_text_round_trip(patterns);
}

} // verus!
