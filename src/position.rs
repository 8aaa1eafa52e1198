//! Points and spans in the source text, and the arithmetic on them.
use unicode_segmentation::UnicodeSegmentation;
use vstd::prelude::*;
use vstd::string::StringSliceAdditionalSpecFns;
use vstd::utf8::*;

verus! {

broadcast use vstd::seq_lib::group_seq_properties;

/// A point in text. All coordinates are 0-indexed; `offset` is a byte index
/// and is the one used for slicing.
#[derive(Clone, Copy, Debug, Default, PartialEq, Eq, Structural)]
pub struct Position {
    pub line: usize,
    pub column: usize,
    pub offset: usize,
}

/// The half-open span `[start.offset, end.offset)` of the source text.
#[derive(Clone, Copy, Debug, Default, PartialEq, Eq, Structural)]
pub struct BlockRange {
    pub start: Position,
    pub end: Position,
}

impl BlockRange {
    /// Whether this span covers the span `other`, by byte offsets.
    pub open spec fn contains(self, other: BlockRange) -> bool {
        self.start.offset <= other.start.offset && other.end.offset <= self.end.offset
    }
}

/// Number of line feeds in `b`.
pub open spec fn count_newlines(b: Seq<u8>) -> nat
    decreases b.len(),
{
    if b.len() == 0 {
        0
    } else {
        count_newlines(b.drop_last()) + if b.last() == 10u8 { 1nat } else { 0nat }
    }
}

/// Byte index at which the last line of `b` starts.
pub open spec fn last_line_start(b: Seq<u8>) -> nat
    decreases b.len(),
{
    if b.len() == 0 {
        0
    } else if b.last() == 10u8 {
        b.len()
    } else {
        last_line_start(b.drop_last())
    }
}

/// The position just past the last byte of `b`.
pub open spec fn end_position_of(b: Seq<u8>) -> Position {
    Position {
        line: count_newlines(b) as usize,
        column: (b.len() - last_line_start(b)) as usize,
        offset: b.len() as usize,
    }
}

/// Byte length of the last extended grapheme cluster of `s` (0 when `s` is empty).
pub uninterp spec fn last_grapheme_len(s: Seq<char>) -> nat;

/// Relies on unicode_segmentation's `graphemes(true).next_back()`: the last
/// extended grapheme cluster of `prefix`, a non-empty suffix of it when `prefix`
/// is not empty, and none otherwise.
#[verifier::external_body]
fn trailing_grapheme_len(prefix: &str) -> (r: usize)
    ensures
        r == last_grapheme_len(prefix@),
        prefix@.len() == 0 ==> r == 0,
        prefix@.len() > 0 ==> 0 < r <= prefix.spec_bytes().len(),
{
    prefix.graphemes(true).next_back().map(|g| g.len()).unwrap_or(0)
}

/// The chars of the first `offset` bytes of `bytes`.
pub open spec fn chars_before(bytes: Seq<u8>, offset: usize) -> Seq<char> {
    decode_utf8(bytes.subrange(0, offset as int))
}

/// The offset at which the grapheme cluster just before `offset` starts.
pub open spec fn prior_offset(bytes: Seq<u8>, offset: usize) -> int {
    offset - last_grapheme_len(chars_before(bytes, offset))
}

/// The position one user-perceived character before `p`: the column goes back
/// by one, and from column 0 it rolls to the end of the previous line; the
/// very first position stays where it is.
pub open spec fn prior_position_of(bytes: Seq<u8>, p: Position) -> Position {
    let off = prior_offset(bytes, p.offset);
    if p.column > 0 {
        Position { line: p.line, column: (p.column - 1) as usize, offset: off as usize }
    } else if p.line > 0 {
        Position {
            line: (p.line - 1) as usize,
            column: end_position_of(bytes.subrange(0, off)).column,
            offset: off as usize,
        }
    } else {
        p
    }
}

proof fn lemma_line_start_bound(b: Seq<u8>)
    ensures
        last_line_start(b) <= b.len(),
        count_newlines(b) <= b.len(),
    decreases b.len(),
{
    if b.len() > 0 {
        lemma_line_start_bound(b.drop_last());
    }
}

/// Helpers on positions and ranges.
pub struct PositionUtils {}

/// Helpers on whole texts.
pub struct TextUtils {}

impl TextUtils {
    /// The position just past the end of `text`: the number of line feeds as
    /// line, the byte length of the last line as column, the byte length as offset.
    pub fn get_end_position(text: &str) -> (r: Position)
        ensures
            r == end_position_of(text.spec_bytes()),
    {
        let bytes = text.as_bytes();
        let n = bytes.len();
        let mut lines: usize = 0;
        let mut line_start: usize = 0;
        let mut i: usize = 0;
        while i < n
            invariant
                n == bytes@.len(),
                bytes@ == text.spec_bytes(),
                i <= n,
                lines == count_newlines(bytes@.take(i as int)),
                line_start == last_line_start(bytes@.take(i as int)),
                lines <= i,
                line_start <= i,
            decreases n - i,
        {
            assert(bytes@.take(i + 1).drop_last() =~= bytes@.take(i as int));
            if bytes[i] == 10u8 {
                lines = lines + 1;
                line_start = i + 1;
            }
            i = i + 1;
        }
        assert(bytes@.take(n as int) =~= bytes@);
        Position { line: lines, column: n - line_start, offset: n }
    }
}

/// Byte index at which the line holding byte `end - 1` starts, scanning back.
fn line_start_before(bytes: &[u8], end: usize) -> (r: usize)
    requires
        end <= bytes@.len(),
    ensures
        r == last_line_start(bytes@.subrange(0, end as int)),
{
    let mut j: usize = end;
    while j > 0 && bytes[j - 1] != 10u8
        invariant
            j <= end <= bytes@.len(),
            last_line_start(bytes@.subrange(0, end as int)) == last_line_start(
                bytes@.subrange(0, j as int),
            ),
        decreases j,
    {
        assert(bytes@.subrange(0, j as int).drop_last() =~= bytes@.subrange(0, j - 1));
        j = j - 1;
    }
    j
}

impl PositionUtils {
    /// A range from the start of `start_range` to the end of `end_range`.
    pub fn merge_range(start_range: &BlockRange, end_range: &BlockRange) -> (r: BlockRange)
        ensures
            r.start == start_range.start,
            r.end == end_range.end,
    {
        BlockRange { start: start_range.start, end: end_range.end }
    }

    /// The position one user-perceived character (grapheme cluster) before
    /// `current_position` in `text`.
    pub fn get_immediate_prior_position(text: &str, current_position: &Position) -> (r: Position)
        requires
            current_position.offset <= text.spec_bytes().len(),
            is_char_boundary(text.spec_bytes(), current_position.offset as int),
        ensures
            r == prior_position_of(text.spec_bytes(), *current_position),
            r.offset <= current_position.offset,
    {
        let (prefix, _) = text.split_at(current_position.offset);
        proof {
            broadcast use group_utf8_lib;

            assert(prefix@ == decode_utf8(prefix.spec_bytes()));
        }
        let g = trailing_grapheme_len(prefix);
        let new_offset = current_position.offset - g;
        if current_position.column > 0 {
            Position {
                line: current_position.line,
                column: current_position.column - 1,
                offset: new_offset,
            }
        } else if current_position.line > 0 {
            let bytes = text.as_bytes();
            let start = line_start_before(bytes, new_offset);
            proof {
                lemma_line_start_bound(bytes@.subrange(0, new_offset as int));
            }
            Position { line: current_position.line - 1, column: new_offset - start, offset: new_offset }
        } else {
            *current_position
        }
    }

    /// The text that `range` covers: bytes `start.offset .. end.offset` of `text`.
    pub fn get_text_by_range<'a>(text: &'a str, range: &BlockRange) -> (r: &'a str)
        requires
            range.start.offset <= range.end.offset <= text.spec_bytes().len(),
            is_char_boundary(text.spec_bytes(), range.start.offset as int),
            is_char_boundary(text.spec_bytes(), range.end.offset as int),
        ensures
            r.spec_bytes() == text.spec_bytes().subrange(
                range.start.offset as int,
                range.end.offset as int,
            ),
    {
        let (head, _) = text.split_at(range.end.offset);
        proof {
            broadcast use group_utf8_lib;

            let b = text.spec_bytes();
            let hb = head.spec_bytes();
            let st = range.start.offset as int;
            encode_utf8_valid_utf8(text@);
            encode_utf8_valid_utf8(head@);
            assert(hb == b.subrange(0, range.end.offset as int));
            if st == hb.len() {
                is_char_boundary_start_end_of_seq(hb);
            } else if 0 < st {
                assert(hb[st] == b[st]);
                is_char_boundary_iff_not_is_continuation_byte(b, st);
                is_char_boundary_iff_not_is_continuation_byte(hb, st);
            }
        }
        let (_, r) = head.split_at(range.start.offset);
        proof {
            assert(r.spec_bytes() =~= text.spec_bytes().subrange(
                range.start.offset as int,
                range.end.offset as int,
            ));
        }
        r
    }
}

} // verus!
