//! Code regions: 1-based line and byte-column intervals of one source file,
//! and the mapping from byte spans to them.

use crate::source_map::{
    ceil_boundary, ceil_char_boundary, file_index_at, floor_boundary, floor_char_boundary,
    last_at_or_before, SourceFile, SourceMap,
};
use crate::span::Span;
use vstd::prelude::*;
use vstd::string::StringSliceAdditionalSpecFns;

verus! {

/// A source interval, given by 1-based line and byte-column coordinates.
#[derive(Clone, Debug, PartialEq, Eq)]
pub struct CodeRegion {
    pub file_name: String,
    pub start_line: u32,
    pub start_col: u32,
    pub end_line: u32,
    pub end_col: u32,
}

/// Whether the position `(l1, c1)` comes no later than `(l2, c2)`.
pub open spec fn position_le(l1: int, c1: int, l2: int, c2: int) -> bool {
    l1 < l2 || (l1 == l2 && c1 <= c2)
}

impl CodeRegion {
    /// A region that a report tool reads as written: every coordinate is at
    /// least 1, the end column is below 2^31 (its highest bit marks a gap
    /// region), and the start is not after the end.
    pub open spec fn well_formed(&self) -> bool {
        &&& self.start_line != 0
        &&& self.start_col != 0
        &&& self.end_line != 0
        &&& self.end_col != 0
        &&& self.end_col < 0x8000_0000
        &&& position_le(
            self.start_line as int,
            self.start_col as int,
            self.end_line as int,
            self.end_col as int,
        )
    }
}

/// Keeps a region only if it is well formed.
pub fn check_code_region(code_region: CodeRegion) -> (res: Option<CodeRegion>)
    ensures
        res == (if code_region.well_formed() {
            Some(code_region)
        } else {
            None
        }),
{
    let all_nonzero = code_region.start_line != 0 && code_region.start_col != 0
        && code_region.end_line != 0 && code_region.end_col != 0;
    let end_col_has_high_bit_unset = code_region.end_col < 0x8000_0000;
    let is_ordered = code_region.start_line < code_region.end_line || (code_region.start_line
        == code_region.end_line && code_region.start_col <= code_region.end_col);
    if all_nonzero && end_col_has_high_bit_unset && is_ordered {
        Some(code_region)
    } else {
        None
    }
}

/// Where `pos` lies in `file`: its position relative to the start of the
/// file, its 1-based line and its 1-based byte column. Nothing for a position
/// before the file or before its first line.
pub open spec fn line_and_column(file: SourceFile, pos: u32) -> Option<(int, int, int)> {
    if pos < file.start_pos {
        None
    } else {
        let rpos = pos - file.start_pos;
        match last_at_or_before(file.lines@, rpos) {
            Some(i) => Some((rpos, i + 1, rpos - file.lines@[i] + 1)),
            None => None,
        }
    }
}

/// The width in bytes of the character that starts at `rpos`; 0 at the end
/// of the text.
pub open spec fn forward_nudge(bytes: Seq<u8>, rpos: int) -> int {
    if rpos >= bytes.len() {
        0
    } else {
        ceil_char_boundary(bytes, rpos + 1) - rpos
    }
}

/// The width in bytes of the character that ends at `rpos`; 0 at the start
/// of the text.
pub open spec fn backward_nudge(bytes: Seq<u8>, rpos: int) -> int {
    if rpos <= 0 {
        0
    } else {
        rpos - floor_char_boundary(bytes, rpos - 1)
    }
}

/// The start and end columns of `span` after widening an empty span.
///
/// An empty span inside the body, in a file whose text is at hand, grows by
/// one character: forward if it does not end the body, else backward if it
/// does not begin the body, the start column never falling below 1.
pub open spec fn nudged_columns(
    file: SourceFile,
    span: Span,
    body_span: Span,
    lo_rpos: int,
    start_col: int,
    hi_rpos: int,
    end_col: int,
) -> (int, int) {
    if span.is_empty() && body_span.contains(span) && file.src is Some {
        let bytes = vstd::utf8::encode_utf8(file.src->0@);
        if span.hi < body_span.hi {
            (start_col, end_col + forward_nudge(bytes, hi_rpos))
        } else if span.lo > body_span.lo {
            let back = start_col - backward_nudge(bytes, lo_rpos);
            (if back < 1 { 1 } else { back }, end_col)
        } else {
            (start_col, end_col)
        }
    } else {
        (start_col, end_col)
    }
}

/// The four coordinates of `span` in `file`, before they are checked:
/// start line, start column, end line, end column.
pub open spec fn region_coordinates(file: SourceFile, span: Span, body_span: Span) -> Option<
    (int, int, int, int),
> {
    if !file.contains(span.hi) {
        None
    } else {
        match (line_and_column(file, span.lo), line_and_column(file, span.hi)) {
            (Some((lo_rpos, start_line, start_col)), Some((hi_rpos, end_line, end_col))) => {
                let (sc, ec) = nudged_columns(
                    file,
                    span,
                    body_span,
                    lo_rpos,
                    start_col,
                    hi_rpos,
                    end_col,
                );
                Some(
                    (
                        file.spec_doctest_offset_line(start_line),
                        sc,
                        file.spec_doctest_offset_line(end_line),
                        ec,
                    ),
                )
            },
            _ => None,
        }
    }
}

/// The region of `span` in `file`: its coordinates, if each fits in 32 bits
/// and together they make a well-formed region.
pub open spec fn code_region_in_file(
    file: SourceFile,
    file_name: String,
    span: Span,
    body_span: Span,
) -> Option<CodeRegion> {
    match region_coordinates(file, span, body_span) {
        Some((sl, sc, el, ec)) => {
            let region = CodeRegion {
                file_name,
                start_line: sl as u32,
                start_col: sc as u32,
                end_line: el as u32,
                end_col: ec as u32,
            };
            if 0 <= sl <= u32::MAX && 0 <= sc <= u32::MAX && 0 <= el <= u32::MAX && 0 <= ec
                <= u32::MAX && region.well_formed() {
                Some(region)
            } else {
                None
            }
        },
        None => None,
    }
}

/// The region of `span`, looked up in the file of `source_map` that holds
/// the start of the span.
pub open spec fn code_region_of(
    source_map: SourceMap,
    file_name: String,
    span: Span,
    body_span: Span,
) -> Option<CodeRegion> {
    match file_index_at(source_map.files@, span.lo as int) {
        Some(i) => code_region_in_file(source_map.files@[i], file_name, span, body_span),
        None => None,
    }
}

fn resolve_position(file: &SourceFile, pos: u32) -> (r: Option<(u32, i128, i128)>)
    ensures
        match r {
            Some((rpos, line, col)) => line_and_column(*file, pos) == Some(
                (rpos as int, line as int, col as int),
            ) && 1 <= line <= 0x1_0000_0000_0000_0000 && 1 <= col <= 0x1_0000_0000,
            None => line_and_column(*file, pos) is None,
        },
{
    if pos < file.start_pos {
        return None;
    }
    let rpos: u32 = pos - file.start_pos;
    match file.lookup_line(rpos) {
        None => None,
        Some(i) => {
            let line_start: u32 = file.lines[i];
            let line: i128 = i as i128 + 1;
            let col: i128 = (rpos - line_start) as i128 + 1;
            assert(line_and_column(*file, pos) == Some((rpos as int, line as int, col as int)));
            Some((rpos, line, col))
        },
    }
}

fn width_of_char_from(text: &str, rpos: usize) -> (r: usize)
    ensures
        r == forward_nudge(text.spec_bytes(), rpos as int),
{
    if rpos >= text.as_bytes().len() {
        0
    } else {
        ceil_boundary(text, rpos + 1) - rpos
    }
}

fn width_of_char_before(text: &str, rpos: usize) -> (r: usize)
    ensures
        r == backward_nudge(text.spec_bytes(), rpos as int),
{
    if rpos == 0 {
        0
    } else {
        rpos - floor_boundary(text, rpos - 1)
    }
}

fn offset_line(file: &SourceFile, line: i128) -> (r: i128)
    requires
        0 <= line <= 0x1_0000_0000_0000_0000,
    ensures
        r == file.spec_doctest_offset_line(line as int),
{
    match file.doctest_offset {
        Some(offset) => line + offset as i128,
        None => line,
    }
}

/// Converts `span` into the region of `file` that it covers, in 1-based lines
/// and byte columns.
///
/// Gives nothing when the span does not end in `file`, when one of its ends
/// lies before the file's first line, or when the coordinates do not make a
/// well-formed region.
pub fn make_code_region_in_file(
    file: &SourceFile,
    file_name: String,
    span: Span,
    body_span: Span,
) -> (res: Option<CodeRegion>)
    ensures
        res == code_region_in_file(*file, file_name, span, body_span),
        res matches Some(region) ==> region.well_formed() && region.file_name == file_name,
{
    if !file.contains(span.hi) {
        return None;
    }
    let (lo_rpos, start_line, start_col) = match resolve_position(file, span.lo) {
        Some(t) => t,
        None => { return None; },
    };
    let (hi_rpos, end_line, end_col) = match resolve_position(file, span.hi) {
        Some(t) => t,
        None => { return None; },
    };
    let mut start_col: i128 = start_col;
    let mut end_col: i128 = end_col;
    if span.is_empty() && body_span.contains(span) {
        match &file.src {
            Some(src) => {
                let text: &str = src.as_str();
                if span.hi < body_span.hi {
                    end_col = end_col + width_of_char_from(text, hi_rpos as usize) as i128;
                } else if span.lo > body_span.lo {
                    start_col = start_col - width_of_char_before(text, lo_rpos as usize) as i128;
                    if start_col < 1 {
                        start_col = 1;
                    }
                }
            },
            None => {},
        }
    }
    let start_line: i128 = offset_line(file, start_line);
    let end_line: i128 = offset_line(file, end_line);
    if start_line < 0 || start_line > 0xffff_ffff || start_col < 0 || start_col > 0xffff_ffff
        || end_line < 0 || end_line > 0xffff_ffff || end_col < 0 || end_col > 0xffff_ffff {
        return None;
    }
    check_code_region(
        CodeRegion {
            file_name,
            start_line: start_line as u32,
            start_col: start_col as u32,
            end_line: end_line as u32,
            end_col: end_col as u32,
        },
    )
}

/// Converts `span` into a region of the file that holds its start.
///
/// Gives nothing when no file of `source_map` starts at or before the span,
/// and otherwise what [`make_code_region_in_file`] gives for that file.
pub fn make_code_region(
    source_map: &SourceMap,
    file_name: String,
    span: Span,
    body_span: Span,
) -> (res: Option<CodeRegion>)
    ensures
        res == code_region_of(*source_map, file_name, span, body_span),
        res matches Some(region) ==> region.well_formed() && region.file_name == file_name,
{
    match source_map.lookup_source_file_idx(span.lo) {
        Some(i) => make_code_region_in_file(&source_map.files[i], file_name, span, body_span),
        None => None,
    }
}

} // verus!
