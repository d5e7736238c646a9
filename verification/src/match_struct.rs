//! One located occurrence of the search string inside a file.

use vstd::prelude::*;
use vstd::string::StrSliceExecFns;
use vstd::utf8::decode_utf8;
use vstd::utf8::encode_utf8;
use vstd::utf8::is_char_boundary;
use vstd::utf8::valid_utf8;

use crate::text::byte_index_of_char;
use crate::text::lemma_encode_utf8_concat;
use crate::text::lemma_valid_prefix_boundary;

verus! {

broadcast use vstd::utf8::group_utf8_lib;

/// Mathematical image of a [`Match`]: strings as character sequences, offsets
/// as unbounded integers.
pub ghost struct MatchView {
    pub filepath: Seq<char>,
    pub file_index_start: int,
    pub match_length: int,
    pub start_on_line: int,
    pub end_on_line: int,
    pub replacement: Seq<char>,
    pub line: Seq<char>,
    pub line_num: int,
}

/// One occurrence of the search string: where it sits in the file (byte
/// offsets, for splicing) and where it sits on its line (character offsets,
/// for display), together with the line itself.
#[derive(Debug, Clone)]
pub struct Match {
    filepath: String,
    file_index_start: usize,
    match_length: usize,
    start_on_line: usize,
    end_on_line: usize,
    replacement: String,
    line: String,
    line_num: usize,
}

impl View for Match {
    type V = MatchView;

    closed spec fn view(&self) -> MatchView {
        MatchView {
            filepath: self.filepath@,
            file_index_start: self.file_index_start as int,
            match_length: self.match_length as int,
            start_on_line: self.start_on_line as int,
            end_on_line: self.end_on_line as int,
            replacement: self.replacement@,
            line: self.line@,
            line_num: self.line_num as int,
        }
    }
}

impl MatchView {
    /// The character offsets are consistent with the line they index into.
    pub open spec fn line_wf(self) -> bool {
        0 <= self.start_on_line <= self.end_on_line <= self.line.len()
    }
}

impl Match {
    pub fn new(
        filepath: String,
        file_index_start: usize,
        match_length: usize,
        start_on_line: usize,
        end_on_line: usize,
        replacement: String,
        line: String,
        line_num: usize,
    ) -> (m: Self)
        ensures
            m@ == (MatchView {
                filepath: filepath@,
                file_index_start: file_index_start as int,
                match_length: match_length as int,
                start_on_line: start_on_line as int,
                end_on_line: end_on_line as int,
                replacement: replacement@,
                line: line@,
                line_num: line_num as int,
            }),
    {
        Self {
            filepath,
            file_index_start,
            match_length,
            start_on_line,
            end_on_line,
            replacement,
            line,
            line_num,
        }
    }

    /// Byte offsets into the line that correspond to the character offsets
    /// `start_on_line` and `end_on_line`, for slicing the line around the
    /// match. A start offset past the last character falls back to 0; an end
    /// offset past the last character falls back to the line's byte length.
    pub fn get_byte_indices(&self) -> (r: (usize, usize))
        ensures
            r.0 == if self@.start_on_line < self@.line.len() {
                encode_utf8(self@.line.subrange(0, self@.start_on_line)).len()
            } else {
                0
            },
            r.1 == if self@.end_on_line < self@.line.len() {
                encode_utf8(self@.line.subrange(0, self@.end_on_line)).len()
            } else {
                encode_utf8(self@.line).len()
            },
            is_char_boundary(self@.line_bytes(), r.0 as int),
            is_char_boundary(self@.line_bytes(), r.1 as int),
    {
        let bytes = self.line.as_str().as_bytes_vec();
        proof {
            assert(valid_utf8(bytes@));
            vstd::utf8::encode_utf8_decode_utf8(self.line@);
            assert(decode_utf8(bytes@) == self.line@);
        }
        let start_byte_index = match byte_index_of_char(&bytes, self.start_on_line) {
            Some(p) => p,
            None => 0,
        };
        let end_byte_index = match byte_index_of_char(&bytes, self.end_on_line) {
            Some(p) => p,
            None => bytes.len(),
        };
        proof {
            assert(is_char_boundary(bytes@, 0));
            assert(is_char_boundary(bytes@, bytes@.len() as int));
        }
        (start_byte_index, end_byte_index)
    }

    pub fn set_replacement(&mut self, replacement: String)
        ensures
            final(self)@ == (MatchView { replacement: replacement@, ..old(self)@ }),
    {
        self.replacement = replacement;
    }

    pub fn get_filepath(&self) -> (r: &str)
        ensures
            r@ == self@.filepath,
    {
        &self.filepath
    }

    pub fn get_replacement(&self) -> (r: &str)
        ensures
            r@ == self@.replacement,
    {
        &self.replacement
    }

    pub fn get_file_index_start(&self) -> (r: usize)
        ensures
            r == self@.file_index_start,
    {
        self.file_index_start
    }

    pub fn get_match_length(&self) -> (r: usize)
        ensures
            r == self@.match_length,
    {
        self.match_length
    }

    pub fn get_start_on_line(&self) -> (r: usize)
        ensures
            r == self@.start_on_line,
    {
        self.start_on_line
    }

    pub fn get_end_on_line(&self) -> (r: usize)
        ensures
            r == self@.end_on_line,
    {
        self.end_on_line
    }

    pub fn get_line(&self) -> (r: &str)
        ensures
            r@ == self@.line,
    {
        &self.line
    }

    pub fn get_line_num(&self) -> (r: usize)
        ensures
            r == self@.line_num,
    {
        self.line_num
    }
}

/// The numeric fields of a record are machine integers, so their
/// mathematical images are never negative and fit in a `usize`.
pub broadcast proof fn lemma_match_view_bounds(m: Match)
    ensures
        0 <= (#[trigger] m@).file_index_start <= usize::MAX,
        0 <= m@.match_length <= usize::MAX,
        0 <= m@.start_on_line <= usize::MAX,
        0 <= m@.end_on_line <= usize::MAX,
        0 <= m@.line_num <= usize::MAX,
{
}

impl MatchView {
    /// The UTF-8 bytes of the stored line.
    pub open spec fn line_bytes(self) -> Seq<u8> {
        encode_utf8(self.line)
    }
}

/// Slicing a well-formed record's line at the byte offsets that
/// `get_byte_indices` reports always lands on character boundaries and in
/// order, so the line can be split into pre-match, match, and post-match
/// parts without breaking a character.
pub proof fn lemma_byte_indices_slice_line(m: MatchView, s: int, e: int)
    requires
        m.line_wf(),
        s == if m.start_on_line < m.line.len() {
            encode_utf8(m.line.subrange(0, m.start_on_line)).len() as int
        } else {
            0
        },
        e == if m.end_on_line < m.line.len() {
            encode_utf8(m.line.subrange(0, m.end_on_line)).len() as int
        } else {
            encode_utf8(m.line).len() as int
        },
    ensures
        0 <= s <= e <= m.line_bytes().len(),
        is_char_boundary(m.line_bytes(), s),
        is_char_boundary(m.line_bytes(), e),
{
    lemma_char_prefix_boundary(m.line, m.start_on_line);
    lemma_char_prefix_boundary(m.line, m.end_on_line);
    if m.start_on_line < m.line.len() {
        lemma_encode_prefix_len_monotone(m.line, m.start_on_line, m.end_on_line);
    }
}

/// The encoding of a character-prefix is a prefix of the encoding, and its
/// length is a character boundary of the whole encoding.
pub proof fn lemma_char_prefix_boundary(chars: Seq<char>, n: int)
    requires
        0 <= n <= chars.len(),
    ensures
        encode_utf8(chars.subrange(0, n)).len() <= encode_utf8(chars).len(),
        encode_utf8(chars).subrange(0, encode_utf8(chars.subrange(0, n)).len() as int)
            == encode_utf8(chars.subrange(0, n)),
        is_char_boundary(encode_utf8(chars), encode_utf8(chars.subrange(0, n)).len() as int),
{
    let pre = chars.subrange(0, n);
    let post = chars.subrange(n, chars.len() as int);
    assert(chars =~= pre + post);
    lemma_encode_utf8_concat(pre, post);
    assert(encode_utf8(chars) == encode_utf8(pre) + encode_utf8(post));
    assert(encode_utf8(chars).subrange(0, encode_utf8(pre).len() as int) =~= encode_utf8(pre));
    lemma_valid_prefix_boundary(encode_utf8(chars), encode_utf8(pre).len() as int);
}

/// Encoding a longer character-prefix never yields fewer bytes.
pub proof fn lemma_encode_prefix_len_monotone(chars: Seq<char>, a: int, b: int)
    requires
        0 <= a <= b <= chars.len(),
    ensures
        encode_utf8(chars.subrange(0, a)).len() <= encode_utf8(chars.subrange(0, b)).len(),
{
    let pre = chars.subrange(0, a);
    let mid = chars.subrange(a, b);
    assert(chars.subrange(0, b) =~= pre + mid);
    lemma_encode_utf8_concat(pre, mid);
}

} // verus!
