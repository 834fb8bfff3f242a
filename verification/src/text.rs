//! The text input of a parser, with the metadata needed to translate
//! between byte offsets and line/column positions.
//!
//! A `Text` owns an immutable UTF-8 buffer together with the eagerly
//! computed table of its line-start offsets.  All line and column
//! numbers are 1-based; offsets into the content are 0-based and count
//! bytes.

use vstd::prelude::*;
use vstd::string::StrSliceExecFns;
use vstd::string::StringSliceAdditionalSpecFns;
use vstd::utf8::*;

use crate::lines::find_line_at;
use crate::lines::find_lines_in;
use crate::lines::lemma_line_of_props;
use crate::lines::lemma_line_starts;
use crate::lines::line_of;
use crate::lines::line_starts;
use crate::lines::starts_match;
use crate::lines::to_ints;
use crate::scalars::char_at;
use crate::scalars::char_count;
use crate::scalars::lemma_boundary_gap;
use crate::scalars::lemma_boundary_shift;
use crate::scalars::lemma_char_count_bounds;
use crate::scalars::lemma_char_count_step;
use crate::scalars::lemma_scalar_at;
use crate::scalars::scalar_info_at;
use crate::scalars::width_at;
use crate::span::TextPosition;
use crate::span::TextSpan;

verus! {

broadcast use vstd::utf8::group_utf8_lib;

/// A character sequence encodes to no bytes exactly when it is empty.
pub proof fn lemma_encode_empty(chars: Seq<char>)
    ensures
        (encode_utf8(chars).len() == 0) <==> (chars.len() == 0),
{
    if chars.len() != 0 {
        vstd::utf8::char_is_scalar(chars[0]);
        assert(encode_scalar(chars[0] as u32).len() >= 1);
        assert(encode_utf8(chars) == encode_scalar(chars[0] as u32) + encode_utf8(
            chars.drop_first(),
        ));
    }
}

/// Returns the part of `s` between the byte offsets `from` and `to`,
/// which must both be character boundaries.
pub fn sub_str<'a>(s: &'a str, from: usize, to: usize) -> (r: &'a str)
    requires
        from <= to <= s.spec_bytes().len(),
        is_char_boundary(s.spec_bytes(), from as int),
        is_char_boundary(s.spec_bytes(), to as int),
    ensures
        r.spec_bytes() == s.spec_bytes().subrange(from as int, to as int),
        r@ == decode_utf8(s.spec_bytes().subrange(from as int, to as int)),
{
    let ghost b = s.spec_bytes();
    let (_, tail) = s.split_at(from);
    proof {
        assert(valid_utf8(b));
        assert(tail.spec_bytes() =~= b.subrange(from as int, b.len() as int));
        lemma_boundary_shift(b, from as int, (to - from) as int);
    }
    let (head, _) = tail.split_at(to - from);
    proof {
        assert(head.spec_bytes() =~= b.subrange(from as int, to as int));
        encode_utf8_decode_utf8(head@);
    }
    head
}

/// The offset reached from `i` after walking over `k` code points.
pub open spec fn advance_chars(b: Seq<u8>, i: int, k: nat) -> int
    decreases k,
{
    if k == 0 {
        i
    } else {
        advance_chars(b, i + width_at(b, i), (k - 1) as nat)
    }
}

/// Walking `k` code points from a boundary stays inside the buffer,
/// lands on a boundary, and passes exactly `k` decoded characters.
pub proof fn lemma_advance_chars(b: Seq<u8>, a: int, k: nat)
    requires
        valid_utf8(b),
        0 <= a <= b.len(),
        is_char_boundary(b, a),
        k <= char_count(b, a, b.len() as int),
    ensures
        ({
            let r = advance_chars(b, a, k);
            &&& a <= r <= b.len()
            &&& is_char_boundary(b, r)
            &&& char_count(b, a, r) == k
            &&& char_count(b, r, b.len() as int) == char_count(b, a, b.len() as int) - k
        }),
    decreases k,
{
    let n = b.len() as int;
    assert(is_char_boundary(b, n));
    lemma_char_count_bounds(b, a, n);
    if k == 0 {
        lemma_char_count_bounds(b, a, a);
        assert(char_count(b, a, a) == 0);
    } else {
        assert(char_count(b, a, n) >= 1);
        if a == n {
            lemma_char_count_bounds(b, a, a);
            assert(false);
        }
        let w = width_at(b, a);
        lemma_scalar_at(b, a);
        lemma_char_count_step(b, a, a);
        lemma_char_count_bounds(b, a, a);
        lemma_advance_chars(b, a + w, (k - 1) as nat);
        let r = advance_chars(b, a, k);
        assert(r == advance_chars(b, a + w, (k - 1) as nat));
        // chars between `a` and `r` split at `a + w`
        crate::scalars::lemma_decode_split3(b, a, a + w, r);
        crate::scalars::lemma_single_scalar_decode(b, a);
        assert(b.subrange(a, a + w) =~= b.subrange(a, r).subrange(0, w));
        assert(char_count(b, a, r) == char_count(b, a, a + w) + char_count(b, a + w, r));
        assert(char_count(b, a, a + w) == 1) by {
            lemma_char_count_step(b, a, a);
            lemma_char_count_bounds(b, a, a);
        }
    }
}

/// Walking as many code points as a range holds lands exactly at the
/// end of that range.
pub proof fn lemma_advance_char_count(b: Seq<u8>, a: int, x: int)
    requires
        valid_utf8(b),
        0 <= a <= x <= b.len(),
        is_char_boundary(b, a),
        is_char_boundary(b, x),
    ensures
        advance_chars(b, a, char_count(b, a, x) as nat) == x,
    decreases x - a,
{
    lemma_char_count_bounds(b, a, x);
    if a == x {
    } else {
        let w = width_at(b, a);
        lemma_scalar_at(b, a);
        lemma_boundary_gap(b, a, x);
        lemma_char_count_step(b, a, a);
        crate::scalars::lemma_decode_split3(b, a, a + w, x);
        crate::scalars::lemma_single_scalar_decode(b, a);
        assert(char_count(b, a, x) == char_count(b, a, a + w) + char_count(b, a + w, x));
        assert(char_count(b, a, a + w) == 1) by {
            lemma_char_count_bounds(b, a, a);
        }
        lemma_advance_char_count(b, a + w, x);
    }
}

/// Walks `count` code points forward from the boundary `from`.
pub fn advance_in(b: &[u8], from: usize, count: usize) -> (r: usize)
    requires
        valid_utf8(b@),
        from <= b@.len(),
        is_char_boundary(b@, from as int),
        count <= char_count(b@, from as int, b@.len() as int),
    ensures
        r == advance_chars(b@, from as int, count as nat),
        from <= r <= b@.len(),
        is_char_boundary(b@, r as int),
        char_count(b@, from as int, r as int) == count,
{
    proof {
        lemma_advance_chars(b@, from as int, count as nat);
    }
    let n_exec = b.len();
    let ghost n = b@.len() as int;
    let mut j: usize = from;
    let mut cnt: usize = 0;
    while cnt < count
        invariant
            valid_utf8(b@),
            n == b@.len(),
            n == n_exec,
            from <= j <= b@.len(),
            cnt <= count,
            is_char_boundary(b@, j as int),
            advance_chars(b@, from as int, count as nat) == advance_chars(
                b@,
                j as int,
                (count - cnt) as nat,
            ),
            count - cnt <= char_count(b@, j as int, n),
        decreases count - cnt,
    {
        proof {
            lemma_char_count_bounds(b@, j as int, n);
            if j as int == n {
                assert(false);
            }
        }
        let (_, w) = scalar_info_at(b, j);
        proof {
            lemma_char_count_step(b@, j as int, j as int);
            assert(advance_chars(b@, j as int, (count - cnt) as nat) == advance_chars(
                b@,
                j + w,
                (count - cnt - 1) as nat,
            ));
        }
        j = j + w;
        cnt = cnt + 1;
    }
    j
}

/// The input of a parser, together with the table of its line starts.
/// All line and column numbers are 1-based; indices into the content
/// are 0-based byte offsets.
#[derive(Debug, Clone)]
pub struct Text {
    /// The full content of the input
    content: String,
    /// Cache of the starting indices of each line within the text
    lines: Vec<usize>,
}

impl Text {
    /// The UTF-8 bytes of the content.
    pub closed spec fn spec_bytes(&self) -> Seq<u8> {
        encode_utf8(self.content@)
    }

    /// The characters of the content.
    pub closed spec fn spec_chars(&self) -> Seq<char> {
        self.content@
    }

    /// The line-start table.
    pub closed spec fn spec_lines(&self) -> Seq<int> {
        to_ints(self.lines@)
    }

    /// The structural invariant: the line table is exactly the table
    /// of line starts of the content, and the content leaves room to
    /// count positions one past its end.
    pub closed spec fn wf(&self) -> bool {
        &&& self.spec_bytes().len() < usize::MAX
        &&& starts_match(self.lines@, line_starts(self.spec_bytes()))
    }

    /// Every text satisfies the line-index invariant: its content is
    /// valid UTF-8, its characters are the decoding of its bytes, its
    /// line table starts at offset 0, is strictly increasing, stays
    /// within the content, and sits on character boundaries.
    pub proof fn lemma_wf_facts(&self)
        requires
            self.wf(),
        ensures
            valid_utf8(self.spec_bytes()),
            self.spec_chars() == decode_utf8(self.spec_bytes()),
            self.spec_lines() == line_starts(self.spec_bytes()),
            self.spec_lines().len() >= 1,
            self.spec_lines()[0] == 0,
            forall|k: int|
                0 <= k < self.spec_lines().len() - 1 ==> #[trigger] self.spec_lines()[k]
                    < self.spec_lines()[k + 1],
            forall|k: int|
                0 <= k < self.spec_lines().len() ==> 0 <= #[trigger] self.spec_lines()[k]
                    <= self.spec_bytes().len(),
            forall|k: int|
                0 <= k < self.spec_lines().len() ==> is_char_boundary(
                    self.spec_bytes(),
                    #[trigger] self.spec_lines()[k],
                ),
            self.spec_lines().len() <= self.spec_bytes().len() + 1,
            self.spec_bytes().len() < usize::MAX,
    {
        lemma_line_starts(self.spec_bytes());
        encode_utf8_decode_utf8(self.spec_chars());
    }

    /// The content as a borrowed string slice.
    pub(crate) fn content_str<'a>(&'a self) -> (r: &'a str)
        ensures
            r@ == self.spec_chars(),
            r.spec_bytes() == self.spec_bytes(),
    {
        self.content.as_str()
    }

    /// The content as a borrowed byte slice.
    pub(crate) fn content_bytes<'a>(&'a self) -> (r: &'a [u8])
        ensures
            r@ == self.spec_bytes(),
    {
        self.content.as_str().as_bytes()
    }

    /// Initializes this text from a borrowed string.
    pub fn from_str(content: &str) -> (t: Text)
        requires
            content.spec_bytes().len() < usize::MAX,
        ensures
            t.wf(),
            t.spec_bytes() == content.spec_bytes(),
            t.spec_chars() == content@,
    {
        let lines = find_lines_in(content);
        let owned = content.to_owned();
        Text { content: owned, lines }
    }

    /// Initializes this text from an owned string.
    pub fn from_string(content: String) -> (t: Text)
        requires
            encode_utf8(content@).len() < usize::MAX,
        ensures
            t.wf(),
            t.spec_bytes() == encode_utf8(content@),
            t.spec_chars() == content@,
    {
        let lines = find_lines_in(content.as_str());
        Text { content, lines }
    }

    /// Gets the number of lines.
    pub fn get_line_count(&self) -> (r: usize)
        requires
            self.wf(),
        ensures
            r == line_starts(self.spec_bytes()).len(),
    {
        self.lines.len()
    }

    /// Gets whether the text is empty.
    pub fn is_empty(&self) -> (r: bool)
        ensures
            r == (self.spec_bytes().len() == 0),
    {
        proof {
            lemma_encode_empty(self.content@);
        }
        self.content.as_str().is_empty()
    }

    /// Gets the size of the content in bytes.
    pub fn len(&self) -> (r: usize)
        requires
            self.wf(),
        ensures
            r == self.spec_bytes().len(),
    {
        self.content.as_str().len()
    }

    /// Gets whether the specified index is after the end of the text.
    pub fn is_end(&self, index: usize) -> (r: bool)
        requires
            self.wf(),
        ensures
            r == (index >= self.spec_bytes().len()),
    {
        index >= self.content.as_str().len()
    }

    /// Gets the character at the specified byte index.
    pub fn at(&self, index: usize) -> (r: char)
        requires
            self.wf(),
            index < self.spec_bytes().len(),
            is_char_boundary(self.spec_bytes(), index as int),
        ensures
            r == char_at(self.spec_bytes(), index as int),
    {
        proof {
            self.lemma_wf_facts();
        }
        let ghost b = self.spec_bytes();
        let (_, tail) = self.content.as_str().split_at(index);
        proof {
            assert(tail.spec_bytes() =~= b.subrange(index as int, b.len() as int));
            encode_utf8_decode_utf8(tail@);
            assert(tail@ == decode_utf8(b.subrange(index as int, b.len() as int)));
            valid_utf8_split(b, index as int);
            assert(tail@.len() >= 1);
        }
        tail.get_char(0)
    }

    /// Gets the substring beginning at the given byte index with the
    /// given byte length.
    pub fn get_value<'a>(&'a self, index: usize, length: usize) -> (r: &'a str)
        requires
            self.wf(),
            index + length <= self.spec_bytes().len(),
            is_char_boundary(self.spec_bytes(), index as int),
            is_char_boundary(self.spec_bytes(), index + length),
        ensures
            r.spec_bytes() == self.spec_bytes().subrange(index as int, index + length),
            r@ == decode_utf8(self.spec_bytes().subrange(index as int, index + length)),
    {
        proof {
            self.lemma_wf_facts();
        }
        sub_str(self.content.as_str(), index, index + length)
    }

    /// Gets the substring corresponding to the specified span.
    pub fn get_value_for<'a>(&'a self, span: TextSpan) -> (r: &'a str)
        requires
            self.wf(),
            span.index + span.length <= self.spec_bytes().len(),
            is_char_boundary(self.spec_bytes(), span.index as int),
            is_char_boundary(self.spec_bytes(), span.index + span.length),
        ensures
            r.spec_bytes() == self.spec_bytes().subrange(
                span.index as int,
                span.index + span.length,
            ),
            r@ == decode_utf8(
                self.spec_bytes().subrange(span.index as int, span.index + span.length),
            ),
    {
        self.get_value(span.index, span.length)
    }

    /// The starting offset of the 1-based line `line`.
    pub open spec fn spec_line_start(&self, line: int) -> int {
        line_starts(self.spec_bytes())[line - 1]
    }

    /// The offset one past the end of the 1-based line `line`,
    /// terminator included: the start of the next line, or the end of
    /// the content for the last line.
    pub open spec fn spec_line_end(&self, line: int) -> int {
        if line == line_starts(self.spec_bytes()).len() {
            self.spec_bytes().len() as int
        } else {
            line_starts(self.spec_bytes())[line]
        }
    }

    /// The byte offset addressed by a position: the start of its line,
    /// advanced by one code point per column counted beyond 1.
    pub open spec fn spec_offset_at(&self, position: TextPosition) -> int {
        advance_chars(
            self.spec_bytes(),
            self.spec_line_start(position.line as int),
            (position.column - 1) as nat,
        )
    }

    /// True when a position names a line of this text, a column no
    /// less than 1, and a column that walks at most to the end of the
    /// content.
    pub open spec fn position_in_range(&self, position: TextPosition) -> bool {
        &&& 1 <= position.line <= line_starts(self.spec_bytes()).len()
        &&& position.column >= 1
        &&& position.column - 1 <= char_count(
            self.spec_bytes(),
            self.spec_line_start(position.line as int),
            self.spec_bytes().len() as int,
        )
    }

    /// Gets the starting byte index of the i-th line.
    pub fn get_line_index(&self, line: usize) -> (r: usize)
        requires
            self.wf(),
            1 <= line <= line_starts(self.spec_bytes()).len(),
        ensures
            r == self.spec_line_start(line as int),
    {
        self.lines[line - 1]
    }

    /// Gets the byte length of the i-th line, terminator included.
    pub fn get_line_length(&self, line: usize) -> (r: usize)
        requires
            self.wf(),
            1 <= line <= line_starts(self.spec_bytes()).len(),
        ensures
            r == self.spec_line_end(line as int) - self.spec_line_start(line as int),
    {
        proof {
            self.lemma_wf_facts();
            let st = self.spec_lines();
            assert(st[line - 1] == self.lines@[line - 1] as int);
            assert(st[line - 1] <= self.spec_bytes().len());
            if (line as int) < st.len() {
                assert(st[line as int] == self.lines@[line as int] as int);
                assert(st[line - 1] < st[line as int]);
            }
        }
        if line == self.lines.len() {
            self.content.as_str().len() - self.lines[line - 1]
        } else {
            self.lines[line] - self.lines[line - 1]
        }
    }

    /// Gets the raw content of the i-th line, terminator included.
    pub fn get_line_content<'a>(&'a self, line: usize) -> (r: &'a str)
        requires
            self.wf(),
            1 <= line <= line_starts(self.spec_bytes()).len(),
        ensures
            r.spec_bytes() == self.spec_bytes().subrange(
                self.spec_line_start(line as int),
                self.spec_line_end(line as int),
            ),
            r@ == decode_utf8(
                self.spec_bytes().subrange(
                    self.spec_line_start(line as int),
                    self.spec_line_end(line as int),
                ),
            ),
    {
        proof {
            self.lemma_wf_facts();
        }
        let start = self.get_line_index(line);
        let length = self.get_line_length(line);
        proof {
            if (line as int) < line_starts(self.spec_bytes()).len() {
                assert(self.spec_lines()[line as int] <= self.spec_bytes().len());
            }
        }
        sub_str(self.content.as_str(), start, start + length)
    }

    /// The position addressed by a byte offset: the 1-based index of
    /// the line holding the offset, and 1 plus the number of code
    /// points between the line start and the offset.
    pub open spec fn spec_position_at(&self, index: int) -> TextPosition {
        let b = self.spec_bytes();
        let l = line_of(line_starts(b), index);
        TextPosition {
            line: (l + 1) as usize,
            column: (char_count(b, line_starts(b)[l], index) + 1) as usize,
        }
    }

    /// The position addressed by a byte offset names a line of this
    /// text and a column no less than 1, and round-trips: walking its
    /// column back from its line start lands on the same offset.
    pub proof fn lemma_position_at_in_range(&self, index: int)
        requires
            self.wf(),
            0 <= index <= self.spec_bytes().len(),
            is_char_boundary(self.spec_bytes(), index),
        ensures
            self.position_in_range(self.spec_position_at(index)),
            self.spec_offset_at(self.spec_position_at(index)) == index,
    {
        let b = self.spec_bytes();
        let st = line_starts(b);
        self.lemma_wf_facts();
        lemma_line_of_props(st, index);
        let l = line_of(st, index);
        let ls = st[l];
        lemma_char_count_bounds(b, ls, index);
        lemma_char_count_bounds(b, ls, b.len() as int);
        crate::scalars::lemma_decode_split3(b, ls, index, b.len() as int);
        assert(char_count(b, ls, b.len() as int) == char_count(b, ls, index) + char_count(
            b,
            index,
            b.len() as int,
        ));
        assert(char_count(b, index, b.len() as int) >= 0) by {
            lemma_char_count_bounds(b, index, b.len() as int);
        }
        let p = self.spec_position_at(index);
        assert(p.line == l + 1);
        assert(p.column == char_count(b, ls, index) + 1);
        lemma_advance_char_count(b, ls, index);
    }

    /// Gets the position at the given byte index.
    pub fn get_position_at(&self, index: usize) -> (r: TextPosition)
        requires
            self.wf(),
            index <= self.spec_bytes().len(),
            is_char_boundary(self.spec_bytes(), index as int),
        ensures
            r == self.spec_position_at(index as int),
            self.position_in_range(r),
            self.spec_offset_at(r) == index,
    {
        proof {
            self.lemma_wf_facts();
            lemma_line_of_props(line_starts(self.spec_bytes()), index as int);
            self.lemma_position_at_in_range(index as int);
        }
        let ghost b = self.spec_bytes();
        let ghost n = b.len() as int;
        let line = find_line_at(self.lines.as_slice(), index);
        let ls = self.lines[line];
        let bytes = self.content.as_str().as_bytes();
        proof {
            assert(bytes@ == b);
            lemma_char_count_bounds(b, ls as int, index as int);
        }
        let mut j: usize = ls;
        let mut cnt: usize = 0;
        while j < index
            invariant
                valid_utf8(b),
                bytes@ == b,
                n == b.len(),
                ls <= j <= index <= n,
                is_char_boundary(b, j as int),
                is_char_boundary(b, index as int),
                is_char_boundary(b, ls as int),
                cnt == char_count(b, ls as int, j as int),
                cnt <= j - ls,
            decreases index - j,
        {
            let (_, w) = scalar_info_at(bytes, j);
            proof {
                lemma_char_count_step(b, ls as int, j as int);
                lemma_boundary_gap(b, j as int, index as int);
            }
            j = j + w;
            cnt = cnt + 1;
        }
        TextPosition { line: line + 1, column: cnt + 1 }
    }

    /// Gets the position reached from a starting position after `length`
    /// more bytes: the position of the byte offset that the starting
    /// position addresses, advanced by `length`.
    pub fn get_position_for(&self, position: TextPosition, length: usize) -> (r: TextPosition)
        requires
            self.wf(),
            self.position_in_range(position),
            self.spec_offset_at(position) + length <= self.spec_bytes().len(),
            is_char_boundary(self.spec_bytes(), self.spec_offset_at(position) + length),
        ensures
            r == self.spec_position_at(self.spec_offset_at(position) + length),
    {
        proof {
            self.lemma_wf_facts();
        }
        let ls = self.lines[position.line - 1];
        let bytes = self.content.as_str().as_bytes();
        proof {
            lemma_advance_chars(self.spec_bytes(), ls as int, (position.column - 1) as nat);
        }
        let start = advance_in(bytes, ls, position.column - 1);
        self.get_position_at(start + length)
    }

    /// Get the substring starting at the byte offset addressed by the
    /// given position, with the given byte length.
    pub fn get_value_at<'a>(&'a self, position: TextPosition, length: usize) -> (r: &'a str)
        requires
            self.wf(),
            self.position_in_range(position),
            self.spec_offset_at(position) + length <= self.spec_bytes().len(),
            is_char_boundary(self.spec_bytes(), self.spec_offset_at(position) + length),
        ensures
            r.spec_bytes() == self.spec_bytes().subrange(
                self.spec_offset_at(position),
                self.spec_offset_at(position) + length,
            ),
            r@ == decode_utf8(
                self.spec_bytes().subrange(
                    self.spec_offset_at(position),
                    self.spec_offset_at(position) + length,
                ),
            ),
    {
        proof {
            self.lemma_wf_facts();
        }
        let ls = self.lines[position.line - 1];
        let bytes = self.content.as_str().as_bytes();
        proof {
            lemma_advance_chars(self.spec_bytes(), ls as int, (position.column - 1) as nat);
        }
        let start = advance_in(bytes, ls, position.column - 1);
        sub_str(self.content.as_str(), start, start + length)
    }
}

} // verus!
