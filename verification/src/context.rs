//! The context extractor: one-line diagnostic snippets with an
//! aligned caret pointer.
//!
//! Given a position and a match length, the extractor takes the raw
//! line, strips its trailing line-terminator characters one code point
//! at a time, maps the column to a byte offset by walking code points,
//! and builds a pointer string of one space per code point before the
//! match and one caret per code point of the match that falls within
//! the visible line.  All counting is in code points, never bytes.

use vstd::prelude::*;
use vstd::string::StrSliceExecFns;
use vstd::string::StringExecFns;
use vstd::string::StringSliceAdditionalSpecFns;
use vstd::utf8::*;

use crate::lines::line_ending_scalar;
use crate::lines::line_starts;
use crate::scalars::lemma_boundary_gap;
use crate::scalars::lemma_boundary_subrange;
use crate::scalars::lemma_scalar_at;
use crate::scalars::lemma_scalar_at_subrange;
use crate::scalars::scalar_at;
use crate::scalars::scalar_info_at;
use crate::scalars::width_at;
use crate::span::TextContext;
use crate::span::TextPosition;
use crate::span::TextSpan;
use crate::text::sub_str;
use crate::text::Text;

verus! {

broadcast use vstd::utf8::group_utf8_lib;

/// The last code point of a valid buffer: its width as found by
/// scanning back over continuation bytes, the boundary it starts at,
/// and its agreement with forward decoding.
pub proof fn lemma_last_scalar(s: Seq<u8>)
    requires
        valid_utf8(s),
        s.len() > 0,
    ensures
        ({
            let w = length_of_last_scalar(s);
            let p = s.len() - w;
            &&& 1 <= w <= s.len()
            &&& is_char_boundary(s, p)
            &&& width_at(s, p) == w
            &&& scalar_at(s, p) == decode_last_scalar(s)
        }),
    decreases s.len(),
{
    let n = s.len() as int;
    let w1 = length_of_first_scalar(s);
    let t = pop_first_scalar(s);
    assert(valid_first_scalar(s));
    assert(w1 <= n);
    assert(t.len() == n - w1);
    assert(forall|j: int| 0 <= j < t.len() ==> #[trigger] t[j] == s[j + w1]);
    if t.len() == 0 {
        // the buffer is a single code point
        assert(w1 == n);
        assert(forall|j: int| 0 < j < w1 ==> is_continuation_byte(s[j]));
        assert(!is_continuation_byte(s[0]));
        assert(length_of_last_scalar(s) == w1);
        assert(s.subrange(0, n) =~= s);
        assert(width_at(s, 0) == w1);
        assert(scalar_at(s, 0) == decode_first_scalar(s));
        assert(decode_last_scalar(s) == decode_first_scalar(s));
    } else {
        lemma_last_scalar(t);
        let tn = t.len() as int;
        let w = length_of_last_scalar(t);
        let p = n - w;
        assert(w <= tn);
        assert(s[n - 1] == t[tn - 1]);
        assert(length_of_last_scalar(s) == w) by {
            if w == 1 {
                assert(!is_continuation_byte(t[tn - 1]));
            } else if w == 2 {
                assert(s[n - 2] == t[tn - 2]);
            } else if w == 3 {
                assert(s[n - 2] == t[tn - 2] && s[n - 3] == t[tn - 3]);
            } else {
                assert(s[n - 2] == t[tn - 2] && s[n - 3] == t[tn - 3]);
            }
        }
        assert(is_char_boundary(s, p)) by {
            assert(p - w1 == tn - w);
            assert(is_char_boundary(t, tn - w));
        }
        assert(s.subrange(p, n) =~= t.subrange(tn - w, tn));
        assert(width_at(s, p) == width_at(t, tn - w));
        assert(scalar_at(s, p) == scalar_at(t, tn - w));
        assert(decode_last_scalar(s) == decode_last_scalar(t)) by {
            if w == 1 {
            } else if w == 2 {
                assert(s[n - 2] == t[tn - 2]);
            } else if w == 3 {
                assert(s[n - 2] == t[tn - 2] && s[n - 3] == t[tn - 3]);
            } else {
                assert(s[n - 2] == t[tn - 2] && s[n - 3] == t[tn - 3] && s[n - 4] == t[tn
                    - 4]);
            }
        }
    }
}

/// The byte length that remains of a line after stripping trailing
/// line-terminator code points one at a time.
pub open spec fn strip_len(s: Seq<u8>) -> int
    decreases s.len(),
        when valid_utf8(s)
        via strip_len_decreases
{
    if s.len() == 0 {
        0
    } else {
        let w = length_of_last_scalar(s);
        if line_ending_scalar(decode_last_scalar(s)) {
            strip_len(s.subrange(0, s.len() - w))
        } else {
            s.len() as int
        }
    }
}

#[via_fn]
proof fn strip_len_decreases(s: Seq<u8>) {
    if s.len() != 0 {
        lemma_last_scalar(s);
    }
}

/// The offset reached from `i` after walking over `k` code points,
/// stopping early at `end`.
pub open spec fn advance_capped(b: Seq<u8>, i: int, end: int, k: nat) -> int
    decreases k,
{
    if k == 0 || i >= end {
        i
    } else {
        advance_capped(b, i + width_at(b, i), end, (k - 1) as nat)
    }
}

/// The number of code points counted from `j`, having started at
/// `from`, whose byte offset relative to `from` stays below `length`,
/// stopping at `end`.
pub open spec fn caret_count(b: Seq<u8>, from: int, j: int, end: int, length: int) -> int
    decreases end - j,
        when valid_utf8(b) && 0 <= j <= end <= b.len() && is_char_boundary(b, j)
            && is_char_boundary(b, end)
        via caret_count_decreases
{
    if j >= end || j - from >= length {
        0
    } else {
        1 + caret_count(b, from, j + width_at(b, j), end, length)
    }
}

#[via_fn]
proof fn caret_count_decreases(b: Seq<u8>, from: int, j: int, end: int, length: int) {
    if !(j >= end || j - from >= length) {
        lemma_scalar_at(b, j);
        lemma_boundary_gap(b, j, end);
    }
}

/// The characters of a pointer line: spaces followed by carets.
pub open spec fn pointer_chars(blanks: int, carets: int) -> Seq<char> {
    Seq::new(blanks as nat, |k: int| ' ') + Seq::new(carets as nat, |k: int| '^')
}

/// True when byte `x` has the form of a UTF-8 continuation byte.
pub fn is_cont_byte(x: u8) -> (r: bool)
    ensures
        r == is_continuation_byte(x),
{
    0x80 <= x && x <= 0xbf
}

/// Strips the trailing line-terminator code points of the line held in
/// `b` between the boundaries `ls` and `le`, returning the offset that
/// ends the stripped line.
pub fn stripped_end_of(b: &[u8], ls: usize, le: usize) -> (r: usize)
    requires
        valid_utf8(b@),
        ls <= le <= b@.len(),
        is_char_boundary(b@, ls as int),
        is_char_boundary(b@, le as int),
    ensures
        r == ls + strip_len(b@.subrange(ls as int, le as int)),
        ls <= r <= le,
        is_char_boundary(b@, r as int),
{
    let mut end = le;
    loop
        invariant
            valid_utf8(b@),
            ls <= end <= le <= b@.len(),
            is_char_boundary(b@, ls as int),
            is_char_boundary(b@, end as int),
            strip_len(b@.subrange(ls as int, le as int)) == strip_len(
                b@.subrange(ls as int, end as int),
            ),
        ensures
            ls <= end <= le,
            is_char_boundary(b@, end as int),
            end - ls == strip_len(b@.subrange(ls as int, le as int)),
        decreases end - ls,
    {
        let ghost cur = b@.subrange(ls as int, end as int);
        proof {
            lemma_boundary_subrange(b@, ls as int, end as int, 0);
            assert(valid_utf8(cur));
        }
        if end == ls {
            proof {
                assert(cur =~= Seq::<u8>::empty());
                assert(strip_len(cur) == 0);
            }
            break ;
        }
        proof {
            lemma_last_scalar(cur);
            assert(cur[cur.len() - 1] == b@[end - 1]);
        }
        let w: usize = if !is_cont_byte(b[end - 1]) {
            1
        } else {
            proof {
                assert(is_continuation_byte(cur[cur.len() - 1]));
                assert(length_of_last_scalar(cur) >= 2);
                assert(end - ls >= 2);
                assert(cur[cur.len() - 2] == b@[end - 2]);
            }
            if !is_cont_byte(b[end - 2]) {
                2
            } else {
                proof {
                    assert(length_of_last_scalar(cur) >= 3);
                    assert(end - ls >= 3);
                    assert(cur[cur.len() - 3] == b@[end - 3]);
                }
                if !is_cont_byte(b[end - 3]) {
                    3
                } else {
                    proof {
                        assert(length_of_last_scalar(cur) >= 4);
                        assert(end - ls >= 4);
                    }
                    4
                }
            }
        };
        proof {
            assert(w == length_of_last_scalar(cur));
        }
        let p = end - w;
        proof {
            assert(is_char_boundary(cur, cur.len() - w));
            lemma_boundary_subrange(b@, ls as int, end as int, p - ls);
            assert(is_char_boundary(b@, p as int));
            lemma_scalar_at_subrange(b@, ls as int, end as int, p as int);
            assert(scalar_at(b@, p as int) == decode_last_scalar(cur));
        }
        let (cp, _) = scalar_info_at(b, p);
        if crate::lines::is_line_ending_char(cp) {
            proof {
                assert(strip_len(cur) == strip_len(cur.subrange(0, cur.len() - w)));
                assert(cur.subrange(0, cur.len() - w) =~= b@.subrange(ls as int, p as int));
            }
            end = p;
        } else {
            proof {
                assert(strip_len(cur) == cur.len());
            }
            break ;
        }
    }
    end
}

/// Walks at most `count` code points forward from `from`, stopping at
/// `end`.
pub fn advance_capped_in(b: &[u8], from: usize, end: usize, count: usize) -> (r: usize)
    requires
        valid_utf8(b@),
        from <= end <= b@.len(),
        is_char_boundary(b@, from as int),
        is_char_boundary(b@, end as int),
    ensures
        r == advance_capped(b@, from as int, end as int, count as nat),
        from <= r <= end,
        is_char_boundary(b@, r as int),
{
    let mut j = from;
    let mut cnt: usize = 0;
    while cnt < count && j < end
        invariant
            valid_utf8(b@),
            from <= j <= end <= b@.len(),
            cnt <= count,
            is_char_boundary(b@, j as int),
            is_char_boundary(b@, end as int),
            advance_capped(b@, from as int, end as int, count as nat) == advance_capped(
                b@,
                j as int,
                end as int,
                (count - cnt) as nat,
            ),
        decreases count - cnt,
    {
        let (_, w) = scalar_info_at(b, j);
        proof {
            lemma_boundary_gap(b@, j as int, end as int);
            assert(advance_capped(b@, j as int, end as int, (count - cnt) as nat)
                == advance_capped(b@, j + w, end as int, (count - cnt - 1) as nat));
        }
        j = j + w;
        cnt = cnt + 1;
    }
    proof {
        assert(advance_capped(b@, j as int, end as int, (count - cnt) as nat) == j);
    }
    j
}

/// Counts the code points starting at `from` whose relative byte
/// offset stays below `length`, stopping at `end`.
pub fn count_carets(b: &[u8], from: usize, end: usize, length: usize) -> (r: usize)
    requires
        valid_utf8(b@),
        from <= end <= b@.len(),
        is_char_boundary(b@, from as int),
        is_char_boundary(b@, end as int),
    ensures
        r == caret_count(b@, from as int, from as int, end as int, length as int),
{
    let mut j = from;
    let mut cnt: usize = 0;
    while j < end && (j - from) < length
        invariant
            valid_utf8(b@),
            from <= j <= end <= b@.len(),
            cnt <= j - from || (cnt == 0 && j == from),
            is_char_boundary(b@, j as int),
            is_char_boundary(b@, end as int),
            caret_count(b@, from as int, from as int, end as int, length as int) == cnt
                + caret_count(b@, from as int, j as int, end as int, length as int),
        decreases end - j,
    {
        let (_, w) = scalar_info_at(b, j);
        proof {
            lemma_boundary_gap(b@, j as int, end as int);
            assert(caret_count(b@, from as int, j as int, end as int, length as int) == 1
                + caret_count(b@, from as int, j + w, end as int, length as int));
        }
        j = j + w;
        cnt = cnt + 1;
    }
    proof {
        assert(caret_count(b@, from as int, j as int, end as int, length as int) == 0);
    }
    cnt
}

/// Builds a pointer line of `blanks` spaces followed by `carets`
/// carets.
pub fn build_pointer(blanks: usize, carets: usize) -> (r: String)
    ensures
        r@ == pointer_chars(blanks as int, carets as int),
{
    proof {
        reveal_strlit(" ");
        reveal_strlit("^");
    }
    let mut s = String::new();
    let mut k: usize = 0;
    while k < blanks
        invariant
            k <= blanks,
            s@ == Seq::new(k as nat, |i: int| ' '),
        decreases blanks - k,
    {
        s.append(" ");
        k = k + 1;
        proof {
            reveal_strlit(" ");
            assert(" "@ =~= seq![' ']);
            assert(s@ =~= Seq::new(k as nat, |i: int| ' '));
        }
    }
    let mut m: usize = 0;
    while m < carets
        invariant
            m <= carets,
            s@ == Seq::new(blanks as nat, |i: int| ' ') + Seq::new(m as nat, |i: int| '^'),
        decreases carets - m,
    {
        s.append("^");
        m = m + 1;
        proof {
            reveal_strlit("^");
            assert("^"@ =~= seq!['^']);
            assert(s@ =~= Seq::new(blanks as nat, |i: int| ' ') + Seq::new(
                m as nat,
                |i: int| '^',
            ));
        }
    }
    s
}

impl Text {
    /// The offset that ends the line `line` once its trailing
    /// terminator code points are stripped.
    pub open spec fn spec_stripped_end(&self, line: int) -> int {
        self.spec_line_start(line) + strip_len(
            self.spec_bytes().subrange(self.spec_line_start(line), self.spec_line_end(line)),
        )
    }

    /// The byte offset where the carets of a context start: the line
    /// start advanced by one code point per column counted beyond 1,
    /// stopping at the stripped line end.
    pub open spec fn spec_caret_start(&self, position: TextPosition) -> int {
        advance_capped(
            self.spec_bytes(),
            self.spec_line_start(position.line as int),
            self.spec_stripped_end(position.line as int),
            (position.column - 1) as nat,
        )
    }

    /// The number of carets of a context: one per code point of the
    /// match that falls within the stripped line.
    pub open spec fn spec_caret_count(&self, position: TextPosition, length: int) -> int {
        caret_count(
            self.spec_bytes(),
            self.spec_caret_start(position),
            self.spec_caret_start(position),
            self.spec_stripped_end(position.line as int),
            length,
        )
    }

    /// Gets the context description for the text at the specified
    /// position, pointing at `length` bytes of matched text: the
    /// stripped content of the position's line, and a pointer of
    /// `column - 1` spaces followed by one caret per matched code
    /// point on that line.
    pub fn get_context_for<'a>(&'a self, position: TextPosition, length: usize) -> (r:
        TextContext<'a>)
        requires
            self.wf(),
            1 <= position.line <= line_starts(self.spec_bytes()).len(),
            position.column >= 1,
        ensures
            r.content.spec_bytes() == self.spec_bytes().subrange(
                self.spec_line_start(position.line as int),
                self.spec_stripped_end(position.line as int),
            ),
            r.content@ == decode_utf8(
                self.spec_bytes().subrange(
                    self.spec_line_start(position.line as int),
                    self.spec_stripped_end(position.line as int),
                ),
            ),
            r.pointer@ == pointer_chars(
                position.column - 1,
                self.spec_caret_count(position, length as int),
            ),
    {
        proof {
            self.lemma_wf_facts();
        }
        let ls = self.get_line_index(position.line);
        let line_length = self.get_line_length(position.line);
        let le = ls + line_length;
        let bytes = self.content_bytes();
        proof {
            assert(le as int == self.spec_line_end(position.line as int));
            if (position.line as int) < line_starts(self.spec_bytes()).len() {
                assert(is_char_boundary(self.spec_bytes(), le as int));
            } else {
                assert(le == self.spec_bytes().len());
            }
        }
        let end = stripped_end_of(bytes, ls, le);
        let start = advance_capped_in(bytes, ls, end, position.column - 1);
        let carets = count_carets(bytes, start, end, length);
        let pointer = build_pointer(position.column - 1, carets);
        let content = sub_str(self.content_str(), ls, end);
        TextContext { content, pointer }
    }

    /// Gets the context description for the text at the specified
    /// position, pointing at one byte of matched text.
    pub fn get_context_at<'a>(&'a self, position: TextPosition) -> (r: TextContext<'a>)
        requires
            self.wf(),
            1 <= position.line <= line_starts(self.spec_bytes()).len(),
            position.column >= 1,
        ensures
            r.content.spec_bytes() == self.spec_bytes().subrange(
                self.spec_line_start(position.line as int),
                self.spec_stripped_end(position.line as int),
            ),
            r.content@ == decode_utf8(
                self.spec_bytes().subrange(
                    self.spec_line_start(position.line as int),
                    self.spec_stripped_end(position.line as int),
                ),
            ),
            r.pointer@ == pointer_chars(
                position.column - 1,
                self.spec_caret_count(position, 1),
            ),
    {
        self.get_context_for(position, 1)
    }

    /// Gets the context description for the text at the specified
    /// span: the context of the position of the span's start, pointing
    /// at the span's length of matched text.
    pub fn get_context_of<'a>(&'a self, span: TextSpan) -> (r: TextContext<'a>)
        requires
            self.wf(),
            span.index <= self.spec_bytes().len(),
            is_char_boundary(self.spec_bytes(), span.index as int),
        ensures
            ({
                let position = self.spec_position_at(span.index as int);
                &&& r.content.spec_bytes() == self.spec_bytes().subrange(
                    self.spec_line_start(position.line as int),
                    self.spec_stripped_end(position.line as int),
                )
                &&& r.content@ == decode_utf8(
                    self.spec_bytes().subrange(
                        self.spec_line_start(position.line as int),
                        self.spec_stripped_end(position.line as int),
                    ),
                )
                &&& r.pointer@ == pointer_chars(
                    position.column - 1,
                    self.spec_caret_count(position, span.length as int),
                )
            }),
    {
        proof {
            self.lemma_wf_facts();
            self.lemma_position_at_in_range(span.index as int);
            crate::lines::lemma_line_of_props(
                line_starts(self.spec_bytes()),
                span.index as int,
            );
        }
        let position = self.get_position_at(span.index);
        self.get_context_for(position, span.length)
    }
}

} // verus!
