//! The opening of a work: the first indented line of its text, cut after
//! its first full stop.

use vstd::prelude::*;
use vstd::string::*;
use vstd::utf8::{decode_utf8, encode_utf8, encode_utf8_decode_utf8, valid_utf8};
use crate::chars::{
    chars_of, code, cut, lemma_position_of_bounds, position_of, scan, skip_run, trim_start_char,
};

verus! {

/// The ideographic space with which the archive indents a paragraph.
pub const INDENT: char = '\u{3000}';

/// The ideographic full stop.
pub const STOP: char = '\u{3002}';

/// How much of the chosen line is kept.
#[derive(Debug, Clone, Copy, PartialEq, Eq)]
pub enum Truncation {
    /// Up to and including the first full stop of the line.
    AtFirstStop,
    /// The whole line.
    WholeLine,
}

/// A line without the carriage return that stood before its line feed.
pub open spec fn strip_cr(line: Seq<char>) -> Seq<char> {
    if line.len() > 0 && line.last() == '\r' {
        line.drop_last()
    } else {
        line
    }
}

/// The lines of `text`. A line ends at a line feed, which is not part of it,
/// nor is a carriage return directly before that line feed. What follows the
/// last line feed is a line if it is not empty.
pub open spec fn lines_of(text: Seq<char>) -> Seq<Seq<char>>
    decreases text.len(),
{
    if text.len() == 0 {
        Seq::empty()
    } else {
        let n = position_of(text, '\n');
        if 0 <= n < text.len() {
            seq![strip_cr(text.take(n))] + lines_of(text.skip(n + 1))
        } else {
            seq![text]
        }
    }
}

/// A line that opens a paragraph.
pub open spec fn is_indented(line: Seq<char>) -> bool {
    line.len() > 0 && line[0] == INDENT
}

/// A line that holds a full stop.
pub open spec fn has_stop(line: Seq<char>) -> bool {
    position_of(line, STOP) < line.len()
}

/// A line the excerpt may be taken from: one that opens a paragraph and,
/// where `need_stop` asks for it, holds a full stop.
pub open spec fn qualifies(line: Seq<char>, need_stop: bool) -> bool {
    is_indented(line) && (need_stop ==> has_stop(line))
}

/// The first of `lines` that qualifies.
pub open spec fn first_line(lines: Seq<Seq<char>>, need_stop: bool) -> Option<Seq<char>>
    decreases lines.len(),
{
    if lines.len() == 0 {
        None
    } else if qualifies(lines[0], need_stop) {
        Some(lines[0])
    } else {
        first_line(lines.drop_first(), need_stop)
    }
}

/// A line without its indent.
pub open spec fn body_of(line: Seq<char>) -> Seq<char> {
    trim_start_char(line, INDENT)
}

/// A line without its indent, up to and including its first full stop.
pub open spec fn sentence_of(line: Seq<char>) -> Seq<char> {
    body_of(line).take(position_of(body_of(line), STOP) + 1)
}

/// The excerpt of `text`. With `AtFirstStop`: the first indented line that
/// holds a full stop, without its indent and cut after that stop; where no
/// indented line holds one, the first indented line without its indent. With
/// `WholeLine`: the first indented line without its indent. Empty where no
/// line is indented.
pub open spec fn excerpt_of(text: Seq<char>, policy: Truncation) -> Seq<char> {
    let lines = lines_of(text);
    match (policy, first_line(lines, true), first_line(lines, false)) {
        (Truncation::AtFirstStop, Some(line), _) => sentence_of(line),
        (_, _, Some(line)) => body_of(line),
        (_, _, None) => Seq::empty(),
    }
}

/// The lines that the ranges `ranges` cut out of `text`.
pub open spec fn cut_out(text: Seq<char>, ranges: Seq<(usize, usize)>) -> Seq<Seq<char>> {
    Seq::new(ranges.len(), |i: int| text.subrange(ranges[i].0 as int, ranges[i].1 as int))
}

/// Before the first line that qualifies there is none.
pub proof fn lemma_first_line_at(lines: Seq<Seq<char>>, need_stop: bool, i: int)
    requires
        0 <= i <= lines.len(),
        forall|j: int| 0 <= j < i ==> !qualifies(#[trigger] lines[j], need_stop),
    ensures
        i < lines.len() && qualifies(lines[i], need_stop) ==> first_line(lines, need_stop)
            == Some(lines[i]),
        i == lines.len() ==> first_line(lines, need_stop) is None,
    decreases i,
{
    if i > 0 {
        let rest = lines.drop_first();
        assert(!qualifies(lines[0], need_stop));
        assert forall|j: int| 0 <= j < i - 1 implies !qualifies(#[trigger] rest[j], need_stop) by {
            assert(rest[j] == lines[j + 1]);
        }
        lemma_first_line_at(rest, need_stop, i - 1);
        if i < lines.len() {
            assert(rest[i - 1] == lines[i]);
        }
    }
}

/// The indent of a line hides no full stop: a line that holds one holds it
/// after its indent.
pub proof fn lemma_body_keeps_stop(line: Seq<char>)
    requires
        has_stop(line),
    ensures
        has_stop(body_of(line)),
    decreases line.len(),
{
    if line.len() > 0 && line[0] == INDENT {
        lemma_body_keeps_stop(line.drop_first());
    }
}

/// Where an indented line holds a full stop, the excerpt cut at the stop is
/// the first such line without its indent, up to its first full stop: it
/// begins the line's body, ends with a full stop, and holds no other.
pub proof fn lemma_excerpt_is_the_first_sentence(text: Seq<char>, line: Seq<char>)
    requires
        first_line(lines_of(text), true) == Some(line),
        has_stop(line),
    ensures
        excerpt_of(text, Truncation::AtFirstStop) == sentence_of(line),
        sentence_of(line).len() > 0,
        sentence_of(line) == body_of(line).take(sentence_of(line).len() as int),
        sentence_of(line).last() == STOP,
        forall|i: int| 0 <= i < sentence_of(line).len() - 1 ==> sentence_of(line)[i] != STOP,
{
    lemma_body_keeps_stop(line);
    lemma_position_of_bounds(body_of(line), STOP);
}

/// A text none of whose lines is indented has no excerpt, under either
/// policy.
pub proof fn lemma_no_indented_line_no_excerpt(text: Seq<char>, policy: Truncation)
    requires
        forall|i: int| 0 <= i < lines_of(text).len() ==> !is_indented(#[trigger] lines_of(text)[i]),
    ensures
        excerpt_of(text, policy) == Seq::<char>::empty(),
{
    let lines = lines_of(text);
    lemma_first_line_at(lines, true, lines.len() as int);
    lemma_first_line_at(lines, false, lines.len() as int);
}

/// Where each line of `text` begins and ends.
pub fn line_ranges(text: &Vec<char>) -> (out: Vec<(usize, usize)>)
    ensures
        cut_out(text@, out@) == lines_of(text@),
        forall|i: int| 0 <= i < out.len() ==> (#[trigger] out[i]).0 <= out[i].1 <= text.len(),
{
    let mut out: Vec<(usize, usize)> = Vec::new();
    let mut a: usize = 0;
    proof {
        assert(text@.skip(0) =~= text@);
        assert(cut_out(text@, out@) + lines_of(text@) =~= lines_of(text@));
    }
    while a < text.len()
        invariant
            a <= text.len(),
            forall|i: int| 0 <= i < out.len() ==> (#[trigger] out[i]).0 <= out[i].1 <= text.len(),
            cut_out(text@, out@) + lines_of(text@.skip(a as int)) == lines_of(text@),
        decreases text.len() - a,
    {
        let ghost rest = text@.skip(a as int);
        let ghost before = out@;
        let b = scan(text, a, text.len(), '\n');
        assert(text@.subrange(a as int, text.len() as int) =~= rest);
        if b < text.len() {
            let e: usize = if b > a && text[b - 1] == '\r' {
                (b - 1) as usize
            } else {
                b
            };
            out.push((a, e));
            proof {
                let line = rest.take(b - a);
                assert(line =~= text@.subrange(a as int, b as int));
                if b > a {
                    assert(line.last() == text@[b - 1]);
                    assert(line.drop_last() =~= text@.subrange(a as int, b - 1));
                }
                assert(strip_cr(line) == text@.subrange(a as int, e as int));
                assert(rest.skip(b - a + 1) =~= text@.skip(b + 1));
                assert(cut_out(text@, out@) =~= cut_out(text@, before) + seq![strip_cr(line)]);
                assert(cut_out(text@, out@) + lines_of(text@.skip(b + 1)) =~= cut_out(
                    text@,
                    before,
                ) + (seq![strip_cr(line)] + lines_of(text@.skip(b + 1))));
            }
            a = b + 1;
        } else {
            out.push((a, b));
            proof {
                assert(cut_out(text@, out@) =~= cut_out(text@, before) + seq![rest]);
                assert(text@.skip(b as int).len() == 0);
                assert(cut_out(text@, out@) + lines_of(text@.skip(b as int)) =~= cut_out(
                    text@,
                    before,
                ) + seq![rest]);
            }
            a = b;
        }
    }
    proof {
        assert(text@.skip(a as int).len() == 0);
        assert(cut_out(text@, out@) + lines_of(text@.skip(a as int)) =~= cut_out(text@, out@));
    }
    out
}

/// Whether the line of `text` from `a` up to `e` qualifies.
fn line_qualifies(text: &Vec<char>, a: usize, e: usize, need_stop: bool) -> (r: bool)
    requires
        a <= e <= text.len(),
    ensures
        r == qualifies(text@.subrange(a as int, e as int), need_stop),
{
    if a == e || text[a] != INDENT {
        return false;
    }
    if need_stop {
        scan(text, a, e, STOP) < e
    } else {
        true
    }
}

/// The place, among the lines `ranges` of `text`, of the first that
/// qualifies.
fn find_line(text: &Vec<char>, ranges: &Vec<(usize, usize)>, need_stop: bool) -> (r: Option<usize>)
    requires
        forall|i: int|
            0 <= i < ranges.len() ==> (#[trigger] ranges[i]).0 <= ranges[i].1 <= text.len(),
    ensures
        match r {
            Some(i) => i < ranges.len() && qualifies(cut_out(text@, ranges@)[i as int], need_stop)
                && first_line(cut_out(text@, ranges@), need_stop) == Some(
                cut_out(text@, ranges@)[i as int],
            ),
            None => first_line(cut_out(text@, ranges@), need_stop) is None,
        },
{
    let ghost lines = cut_out(text@, ranges@);
    let mut i: usize = 0;
    while i < ranges.len()
        invariant
            i <= ranges.len(),
            lines == cut_out(text@, ranges@),
            forall|k: int|
                0 <= k < ranges.len() ==> (#[trigger] ranges[k]).0 <= ranges[k].1 <= text.len(),
            forall|j: int| 0 <= j < i ==> !qualifies(#[trigger] lines[j], need_stop),
        decreases ranges.len() - i,
    {
        let (a, e) = ranges[i];
        if line_qualifies(text, a, e, need_stop) {
            proof {
                lemma_first_line_at(lines, need_stop, i as int);
            }
            return Some(i);
        }
        i += 1;
    }
    proof {
        lemma_first_line_at(lines, need_stop, i as int);
    }
    None
}

/// How many ruby marks `《` a line of an archived text may leave open at one
/// place. The converter goes one call deeper for each of them.
pub const MAX_RUBY_MARKS: usize = 256;

/// The mark that opens a ruby.
pub const RUBY_OPEN: char = '\u{300a}';

/// The mark that closes a ruby.
pub const RUBY_CLOSE: char = '\u{300b}';

/// The mark before a note on a character.
pub const NOTE_MARK: char = '\u{203b}';

/// The bracket that opens a note.
pub const NOTE_OPEN: char = '\u{ff3b}';

/// The bracket that closes a note.
pub const NOTE_CLOSE: char = '\u{ff3d}';

/// The sign that follows the opening bracket of a note.
pub const NOTE_SIGN: char = '\u{ff03}';

/// How many ruby marks stand open after the first `n` characters of `text`:
/// those opened since the last closing mark, or since the line began.
pub open spec fn open_rubies(text: Seq<char>, n: int) -> nat
    decreases n,
{
    if n <= 0 {
        0
    } else if text[n - 1] == '\n' || text[n - 1] == RUBY_CLOSE {
        0
    } else if text[n - 1] == RUBY_OPEN {
        open_rubies(text, n - 1) + 1
    } else {
        open_rubies(text, n - 1)
    }
}

/// The first `n` characters of `text` end with the three marks that begin a
/// note on a character.
pub open spec fn begins_note(text: Seq<char>, n: int) -> bool {
    &&& 3 <= n <= text.len()
    &&& text[n - 3] == NOTE_MARK
    &&& text[n - 2] == NOTE_OPEN
    &&& text[n - 1] == NOTE_SIGN
}

/// How deep in the brackets of a note on a character the place after the
/// first `n` characters of `text` lies; 0 outside such a note. A note runs
/// from its three marks to the bracket that closes it, brackets inside it
/// counted, or to the end of the line.
pub open spec fn note_depth(text: Seq<char>, n: int) -> nat
    decreases n,
{
    if n <= 0 {
        0
    } else if text[n - 1] == '\n' {
        0
    } else if note_depth(text, n - 1) == 0 {
        if begins_note(text, n) {
            1
        } else {
            0
        }
    } else if text[n - 1] == NOTE_OPEN {
        note_depth(text, n - 1) + 1
    } else if text[n - 1] == NOTE_CLOSE {
        (note_depth(text, n - 1) - 1) as nat
    } else {
        note_depth(text, n - 1)
    }
}

/// A character from one of these ranges, in each of which the capital of
/// every character is as long in UTF-8 as the character: U+0000 to U+00FF,
/// U+2000 to U+2BFF, U+2E80 to U+A4CF, U+F900 to U+FAFF, U+FE30 to U+FE4F,
/// U+FEFF, U+FF00 to U+FFEF, and U+20000 to U+3FFFF. Other characters may
/// keep their length too; they are not listed.
pub open spec fn keeps_length(c: char) -> bool {
    let n = c as int;
    ||| n <= 0xff
    ||| 0x2000 <= n <= 0x2bff
    ||| 0x2e80 <= n <= 0xa4cf
    ||| 0xf900 <= n <= 0xfaff
    ||| 0xfe30 <= n <= 0xfe4f
    ||| n == 0xfeff
    ||| 0xff00 <= n <= 0xffef
    ||| 0x20000 <= n <= 0x3ffff
}

/// A text that the converter can take: nowhere more than `MAX_RUBY_MARKS`
/// ruby marks stand open, and the characters inside notes on characters are
/// of those listed as keeping their length.
pub open spec fn calm_text(text: Seq<char>) -> bool {
    &&& forall|n: int| 0 <= n <= text.len() ==> #[trigger] open_rubies(text, n) <= MAX_RUBY_MARKS
    &&& forall|n: int|
        0 <= n < text.len() && #[trigger] note_depth(text, n) > 0 ==> keeps_length(text[n])
}

/// The first byte of a character of two bytes in Shift_JIS.
pub open spec fn is_lead(b: u8) -> bool {
    0x81 <= b <= 0x9f || 0xe0 <= b <= 0xfc
}

/// After the first `n` bytes, read as Shift_JIS, the first byte of a
/// character of two bytes waits for its second. Whatever byte follows such a
/// first byte, none waits after it.
pub open spec fn lead_pending(bytes: Seq<u8>, n: int) -> bool
    decreases n,
{
    if n <= 0 {
        false
    } else {
        !lead_pending(bytes, n - 1) && is_lead(bytes[n - 1])
    }
}

/// At position `i` of `bytes`, read as Shift_JIS, begins the character of the
/// two bytes `81` and `second`.
pub open spec fn pair_at(bytes: Seq<u8>, i: int, second: u8) -> bool {
    &&& 0 <= i
    &&& i + 1 < bytes.len()
    &&& !lead_pending(bytes, i)
    &&& bytes[i] == 0x81
    &&& bytes[i + 1] == second
}

/// How many ruby marks stand open after the first `n` bytes, read as
/// Shift_JIS, where `81 73` opens a ruby and `81 74` closes one.
pub open spec fn open_rubies_sjis(bytes: Seq<u8>, n: int) -> nat
    decreases n,
{
    if n <= 0 {
        0
    } else if bytes[n - 1] == 0x0a || pair_at(bytes, n - 1, 0x74) {
        0
    } else if pair_at(bytes, n - 1, 0x73) {
        open_rubies_sjis(bytes, n - 1) + 1
    } else {
        open_rubies_sjis(bytes, n - 1)
    }
}

/// Bytes in Shift_JIS that the converter can take: nowhere more than
/// `MAX_RUBY_MARKS` ruby marks stand open.
pub open spec fn calm_sjis(bytes: Seq<u8>) -> bool {
    forall|n: int|
        0 <= n <= bytes.len() ==> #[trigger] open_rubies_sjis(bytes, n) <= MAX_RUBY_MARKS
}

/// The bytes begin with a byte order mark: `FF FE`, `FE FF` or `EF BB BF`.
pub open spec fn starts_with_bom(bytes: Seq<u8>) -> bool {
    ||| bytes.len() >= 2 && bytes[0] == 0xff && bytes[1] == 0xfe
    ||| bytes.len() >= 2 && bytes[0] == 0xfe && bytes[1] == 0xff
    ||| bytes.len() >= 3 && bytes[0] == 0xef && bytes[1] == 0xbb && bytes[2] == 0xbf
}

/// The archived texts that are handed to the converter: a text in UTF-8 that
/// is calm, or bytes that are not UTF-8, begin with no byte order mark, and
/// are calm as Shift_JIS.
pub open spec fn can_be_stripped(bytes: Seq<u8>) -> bool {
    if valid_utf8(bytes) {
        calm_text(decode_utf8(bytes))
    } else {
        !starts_with_bom(bytes) && calm_sjis(bytes)
    }
}

/// The plain text that `aozora2::strip::convert` makes of the bytes of an
/// archived text: decoded, without front and back matter, ruby and notes.
pub uninterp spec fn stripped_text(bytes: Seq<u8>) -> Seq<char>;

/// Calls `std::str::from_utf8`. As its documentation says: bytes that are
/// UTF-8 come back as the string that they encode, and other bytes do not
/// come back.
#[verifier::external_body]
pub(crate) fn utf8_text<'a>(bytes: &'a [u8]) -> (r: Option<&'a str>)
    ensures
        r is Some <==> valid_utf8(bytes@),
        r is Some ==> r.unwrap().spec_bytes() == bytes@,
{
    std::str::from_utf8(bytes).ok()
}

/// Calls `aozora2::strip::convert`, which reads UTF-8 as such, after a byte
/// order mark or without one, and hands other bytes to `encoding_rs`: those
/// are read as Shift_JIS unless they begin with a byte order mark, which
/// makes them UTF-16 or UTF-8 with faults. Left out are the texts on which
/// the converter may not return, and those that are not seen through here.
/// - It calls itself once more for each ruby mark that stands open: inside a
///   ruby, the text up to the next closing mark or the end of the line is
///   converted by a call of its own.
/// - Where a note on a character names a code point by `U+`, it looks for
///   that in the capitals of the note and cuts the note itself there, which
///   goes wrong where a capital is longer or shorter than its character.
///   Shift_JIS has no such character.
/// - Bytes that are not UTF-8 and begin with a byte order mark are left out
///   whole.
///
/// Trusted: that the call returns on the texts that are left, and that what
/// it returns depends on `bytes` alone, which is what the name
/// `stripped_text` stands for.
#[verifier::external_body]
pub(crate) fn strip_markup(bytes: &[u8]) -> (out: String)
    requires
        can_be_stripped(bytes@),
    ensures
        out@ == stripped_text(bytes@),
{
    aozora2::strip::convert(bytes)
}

/// Whether `c` is of the characters listed as keeping their length.
pub fn keeps_its_length(c: char) -> (r: bool)
    ensures
        r == keeps_length(c),
{
    let n: u32 = code(c);
    n <= 0xff || (0x2000 <= n && n <= 0x2bff) || (0x2e80 <= n && n <= 0xa4cf) || (0xf900 <= n
        && n <= 0xfaff) || (0xfe30 <= n && n <= 0xfe4f) || n == 0xfeff || (0xff00 <= n && n
        <= 0xffef) || (0x20000 <= n && n <= 0x3ffff)
}

/// Whether the text `text` is calm.
pub fn is_calm_text(text: &Vec<char>) -> (r: bool)
    ensures
        r == calm_text(text@),
{
    let mut run: usize = 0;
    let mut depth: usize = 0;
    let mut i: usize = 0;
    while i < text.len()
        invariant
            i <= text.len(),
            run == open_rubies(text@, i as int),
            depth == note_depth(text@, i as int),
            run <= MAX_RUBY_MARKS,
            depth <= i,
            forall|n: int| 0 <= n <= i ==> #[trigger] open_rubies(text@, n) <= MAX_RUBY_MARKS,
            forall|n: int|
                0 <= n < i && #[trigger] note_depth(text@, n) > 0 ==> keeps_length(text@[n]),
        decreases text.len() - i,
    {
        let c: char = text[i];
        if depth > 0 && !keeps_its_length(c) {
            assert(note_depth(text@, i as int) > 0 && !keeps_length(text@[i as int]));
            return false;
        }
        let starts = i >= 2 && text[i - 2] == NOTE_MARK && text[i - 1] == NOTE_OPEN && c
            == NOTE_SIGN;
        assert(starts == begins_note(text@, i + 1));
        if c == '\n' || c == RUBY_CLOSE {
            run = 0;
        } else if c == RUBY_OPEN {
            if run == MAX_RUBY_MARKS {
                assert(open_rubies(text@, i + 1) > MAX_RUBY_MARKS);
                return false;
            }
            run = run + 1;
        }
        if c == '\n' {
            depth = 0;
        } else if depth == 0 {
            if starts {
                depth = 1;
            }
        } else if c == NOTE_OPEN {
            depth = depth + 1;
        } else if c == NOTE_CLOSE {
            depth = depth - 1;
        }
        i += 1;
    }
    true
}

/// Whether the bytes `bytes` are calm as Shift_JIS.
pub fn is_calm_sjis(bytes: &[u8]) -> (r: bool)
    ensures
        r == calm_sjis(bytes@),
{
    let n = bytes.len();
    let mut run: usize = 0;
    let mut pending: bool = false;
    let mut i: usize = 0;
    while i < n
        invariant
            i <= n,
            n == bytes@.len(),
            run == open_rubies_sjis(bytes@, i as int),
            pending == lead_pending(bytes@, i as int),
            run <= MAX_RUBY_MARKS,
            forall|k: int|
                0 <= k <= i ==> #[trigger] open_rubies_sjis(bytes@, k) <= MAX_RUBY_MARKS,
        decreases n - i,
    {
        let b: u8 = bytes[i];
        let first = !pending && b == 0x81 && n - i > 1;
        let closes = first && bytes[i + 1] == 0x74;
        let opens = first && bytes[i + 1] == 0x73;
        assert(closes == pair_at(bytes@, i as int, 0x74));
        assert(opens == pair_at(bytes@, i as int, 0x73));
        if b == 0x0a || closes {
            run = 0;
        } else if opens {
            if run == MAX_RUBY_MARKS {
                assert(open_rubies_sjis(bytes@, i + 1) > MAX_RUBY_MARKS);
                return false;
            }
            run = run + 1;
        }
        pending = !pending && ((0x81 <= b && b <= 0x9f) || (0xe0 <= b && b <= 0xfc));
        i += 1;
    }
    true
}

/// Whether `bytes` begin with a byte order mark.
pub fn has_bom(bytes: &[u8]) -> (r: bool)
    ensures
        r == starts_with_bom(bytes@),
{
    let n = bytes.len();
    (n >= 2 && bytes[0] == 0xff && bytes[1] == 0xfe) || (n >= 2 && bytes[0] == 0xfe && bytes[1]
        == 0xff) || (n >= 3 && bytes[0] == 0xef && bytes[1] == 0xbb && bytes[2] == 0xbf)
}

/// Whether the archived text `bytes` is one that is handed to the converter.
pub fn can_strip(bytes: &[u8]) -> (r: bool)
    ensures
        r == can_be_stripped(bytes@),
{
    match utf8_text(bytes) {
        None => !has_bom(bytes) && is_calm_sjis(bytes),
        Some(text) => {
            let chars = chars_of(text);
            proof {
                encode_utf8_decode_utf8(text@);
                assert(text.spec_bytes() == encode_utf8(text@));
                assert(chars@ == decode_utf8(bytes@));
            }
            is_calm_text(&chars)
        },
    }
}

/// The excerpt of the archived text `bytes` under the policy `policy`: the
/// excerpt of its plain text. A text that is not handed to the converter
/// has no excerpt.
pub fn extract_text(bytes: &[u8], policy: Truncation) -> (out: String)
    ensures
        out@ == if can_be_stripped(bytes@) {
            excerpt_of(stripped_text(bytes@), policy)
        } else {
            Seq::<char>::empty()
        },
{
    if can_strip(bytes) {
        let text = strip_markup(bytes);
        excerpt(text.as_str(), policy)
    } else {
        String::new()
    }
}

/// The opening of the work whose archive holds the text `bytes`: the first
/// indented line of its plain text, cut after its first full stop. A text
/// that is not handed to the converter has no opening.
pub fn extract_text_from_zip(bytes: &[u8]) -> (out: String)
    ensures
        out@ == if can_be_stripped(bytes@) {
            excerpt_of(stripped_text(bytes@), Truncation::AtFirstStop)
        } else {
            Seq::<char>::empty()
        },
{
    extract_text(bytes, Truncation::AtFirstStop)
}

/// The excerpt of `text` under the policy `policy`: see `excerpt_of`.
pub fn excerpt(text: &str, policy: Truncation) -> (out: String)
    ensures
        out@ == excerpt_of(text@, policy),
{
    let h = chars_of(text);
    let ranges = line_ranges(&h);
    let ghost lines = lines_of(text@);
    if let Truncation::AtFirstStop = policy {
        if let Some(i) = find_line(&h, &ranges, true) {
            let (a, e) = ranges[i];
            let k = skip_run(&h, a, e, INDENT);
            let m = scan(&h, k, e, STOP);
            proof {
                let line = h@.subrange(a as int, e as int);
                assert(line == lines[i as int]);
                let body = h@.subrange(k as int, e as int);
                lemma_position_of_bounds(line, STOP);
                let p = position_of(line, STOP);
                assert(line[p] == h@[a + p]);
                assert(forall|j: int| a <= j < k ==> h@[j] == INDENT) by {
                    lemma_indent_run(h@, a as int, e as int, k as int);
                }
                assert(k <= a + p);
                assert(m < e);
                assert(body.take(m - k + 1) =~= h@.subrange(k as int, m + 1));
            }
            return cut(text, k, m + 1);
        }
    }
    match find_line(&h, &ranges, false) {
        Some(i) => {
            let (a, e) = ranges[i];
            let k = skip_run(&h, a, e, INDENT);
            assert(h@.subrange(a as int, e as int) == lines[i as int]);
            cut(text, k, e)
        },
        None => String::new(),
    }
}

/// What `trim_start_char` cuts off is a run of the character.
pub proof fn lemma_indent_run(s: Seq<char>, from: int, to: int, r: int)
    requires
        0 <= from <= r <= to <= s.len(),
        s.subrange(r, to) == trim_start_char(s.subrange(from, to), INDENT),
    ensures
        forall|j: int| from <= j < r ==> s[j] == INDENT,
    decreases to - from,
{
    let part = s.subrange(from, to);
    if part.len() > 0 && part[0] == INDENT {
        assert(part.drop_first() =~= s.subrange(from + 1, to));
        if r == from {
            // the trimmed text would be as long as the untrimmed one
            lemma_trim_shorter(s.subrange(from + 1, to), INDENT);
            assert(s.subrange(r, to).len() == to - from);
            assert(false);
        }
        lemma_indent_run(s, from + 1, to, r);
        assert(s[from] == part[0]);
    } else {
        assert(s.subrange(r, to).len() == part.len());
    }
}

/// Trimming makes a text no longer.
pub proof fn lemma_trim_shorter(s: Seq<char>, c: char)
    ensures
        trim_start_char(s, c).len() <= s.len(),
    decreases s.len(),
{
    if s.len() > 0 && s[0] == c {
        lemma_trim_shorter(s.drop_first(), c);
    }
}

} // verus!
