//! Source files as the region mapper reads them: where each file sits in the
//! address space of byte positions, where its lines begin, and its text.

use vstd::prelude::*;
use vstd::string::StringSliceAdditionalSpecFns;

verus! {

/// One source file of a [`SourceMap`].
///
/// `lines` holds the position of each line's first byte, relative to
/// `start_pos`. A file taken from documentation carries the number of lines
/// by which its numbering differs from that of the enclosing document.
#[derive(Clone, Debug, PartialEq, Eq)]
pub struct SourceFile {
    pub name: String,
    pub doctest_offset: Option<isize>,
    pub src: Option<String>,
    pub start_pos: u32,
    pub end_pos: u32,
    pub lines: Vec<u32>,
}

/// The files of a compilation, in the order in which they were loaded.
#[derive(Clone, Debug, PartialEq, Eq)]
pub struct SourceMap {
    pub files: Vec<SourceFile>,
}

/// A byte that continues a multi-byte UTF-8 character.
pub open spec fn is_continuation_byte(b: u8) -> bool {
    0x80 <= b < 0xC0
}

/// Whether a character starts at `index`, or the text ends there.
pub open spec fn is_char_boundary(bytes: Seq<u8>, index: int) -> bool {
    index == 0 || index == bytes.len() || (0 < index < bytes.len() && !is_continuation_byte(
        bytes[index],
    ))
}

/// The nearest character boundary at or after `index`: the end of the text
/// where `index` lies beyond it.
pub open spec fn ceil_char_boundary(bytes: Seq<u8>, index: int) -> int
    decreases bytes.len() - index,
{
    if index >= bytes.len() {
        bytes.len() as int
    } else if is_char_boundary(bytes, index) {
        index
    } else {
        ceil_char_boundary(bytes, index + 1)
    }
}

/// The nearest character boundary at or before `index`.
pub open spec fn floor_char_boundary(bytes: Seq<u8>, index: int) -> int
    decreases index,
{
    if index >= bytes.len() {
        bytes.len() as int
    } else if index <= 0 || is_char_boundary(bytes, index) {
        index
    } else {
        floor_char_boundary(bytes, index - 1)
    }
}

/// The index of the last entry of `starts` that is at most `pos`.
pub open spec fn last_at_or_before(starts: Seq<u32>, pos: int) -> Option<int>
    decreases starts.len(),
{
    if starts.len() == 0 {
        None
    } else if starts.last() <= pos {
        Some(starts.len() - 1)
    } else {
        last_at_or_before(starts.drop_last(), pos)
    }
}

fn is_boundary_at(bytes: &[u8], index: usize) -> (b: bool)
    requires
        index <= bytes@.len(),
    ensures
        b == is_char_boundary(bytes@, index as int),
{
    if index == 0 || index == bytes.len() {
        true
    } else {
        let byte: u8 = bytes[index];
        !(0x80 <= byte && byte < 0xC0)
    }
}

/// The nearest character boundary of `text` at or after `index`.
pub fn ceil_boundary(text: &str, index: usize) -> (r: usize)
    ensures
        r == ceil_char_boundary(text.spec_bytes(), index as int),
        r <= text.spec_bytes().len(),
        index <= text.spec_bytes().len() ==> index <= r,
{
    let bytes = text.as_bytes();
    let mut i: usize = index;
    while i < bytes.len() && !is_boundary_at(bytes, i)
        invariant
            index <= i,
            bytes@ == text.spec_bytes(),
            ceil_char_boundary(bytes@, i as int) == ceil_char_boundary(bytes@, index as int),
        decreases bytes@.len() - i,
    {
        i = i + 1;
    }
    if i >= bytes.len() {
        bytes.len()
    } else {
        i
    }
}

/// The nearest character boundary of `text` at or before `index`.
pub fn floor_boundary(text: &str, index: usize) -> (r: usize)
    ensures
        r == floor_char_boundary(text.spec_bytes(), index as int),
        r <= text.spec_bytes().len(),
        r <= index,
{
    let bytes = text.as_bytes();
    if index >= bytes.len() {
        return bytes.len();
    }
    let mut i: usize = index;
    while i > 0 && !is_boundary_at(bytes, i)
        invariant
            i <= index < bytes@.len(),
            bytes@ == text.spec_bytes(),
            floor_char_boundary(bytes@, i as int) == floor_char_boundary(bytes@, index as int),
        decreases i,
    {
        i = i - 1;
    }
    i
}

impl SourceFile {
    /// Whether `pos` lies in this file. The position just behind the last
    /// byte counts as inside.
    #[verifier::allow_in_spec]
    pub fn contains(&self, pos: u32) -> bool
        returns
            self.start_pos <= pos && pos <= self.end_pos,
    {
        self.start_pos <= pos && pos <= self.end_pos
    }

    /// The index of the line that holds the file-relative position `rpos`:
    /// the last line that begins at or before it.
    pub fn lookup_line(&self, rpos: u32) -> (r: Option<usize>)
        ensures
            match r {
                Some(i) => last_at_or_before(self.lines@, rpos as int) == Some(i as int) && i
                    < self.lines@.len() && self.lines@[i as int] <= rpos,
                None => last_at_or_before(self.lines@, rpos as int) is None,
            },
    {
        let mut i: usize = self.lines.len();
        assert(self.lines@.take(i as int) =~= self.lines@);
        while i > 0
            invariant
                i <= self.lines@.len(),
                last_at_or_before(self.lines@, rpos as int) == last_at_or_before(
                    self.lines@.take(i as int),
                    rpos as int,
                ),
            decreases i,
        {
            assert(self.lines@.take(i as int).drop_last() =~= self.lines@.take(i - 1));
            if self.lines[i - 1] <= rpos {
                return Some(i - 1);
            }
            i = i - 1;
        }
        None
    }

    /// The line number that a report shows for line `line` of this file.
    pub open spec fn spec_doctest_offset_line(&self, line: int) -> int {
        match self.doctest_offset {
            Some(offset) => line + offset,
            None => line,
        }
    }
}

/// The index of the last file of `files` that starts at or before `pos`.
pub open spec fn file_index_at(files: Seq<SourceFile>, pos: int) -> Option<int>
    decreases files.len(),
{
    if files.len() == 0 {
        None
    } else if files.last().start_pos <= pos {
        Some(files.len() - 1)
    } else {
        file_index_at(files.drop_last(), pos)
    }
}

impl SourceMap {
    /// The index of the file that holds position `pos`: the last one that
    /// starts at or before it, if there is one.
    pub fn lookup_source_file_idx(&self, pos: u32) -> (r: Option<usize>)
        ensures
            match r {
                Some(i) => file_index_at(self.files@, pos as int) == Some(i as int) && i
                    < self.files@.len(),
                None => file_index_at(self.files@, pos as int) is None,
            },
    {
        let mut i: usize = self.files.len();
        assert(self.files@.take(i as int) =~= self.files@);
        while i > 0
            invariant
                i <= self.files@.len(),
                file_index_at(self.files@, pos as int) == file_index_at(
                    self.files@.take(i as int),
                    pos as int,
                ),
            decreases i,
        {
            assert(self.files@.take(i as int).drop_last() =~= self.files@.take(i - 1));
            if self.files[i - 1].start_pos <= pos {
                return Some(i - 1);
            }
            i = i - 1;
        }
        None
    }
}

} // verus!
