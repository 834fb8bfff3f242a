//! The line index: recognizing line terminators and locating the
//! starting offset of every line of an input.
//!
//! A line break is recognized by looking at each adjacent pair of code
//! points `(previous, current)`.  The five single-character terminators
//! VT, FF, NEL, LS and PS, a LF, and the CRLF pair all start the next
//! line immediately after the current character; a CR followed by
//! anything other than LF starts the next line at the current
//! character.  Detection is one character delayed, so a lone CR at the
//! very end of the input registers no trailing break.

use vstd::prelude::*;
use vstd::string::StringSliceAdditionalSpecFns;
use vstd::utf8::*;

use crate::scalars::lemma_boundary_gap;
use crate::scalars::scalar_info_at;

verus! {

broadcast use vstd::utf8::group_utf8_lib;

/// True when the code point `c` belongs to the line-terminator set:
/// VT, FF, NEL, LS, PS, CR or LF.
pub open spec fn line_ending_scalar(c: u32) -> bool {
    c == 0x0b || c == 0x0c || c == 0x85 || c == 0x2028 || c == 0x2029 || c == 0x0d || c == 0x0a
}

/// True when the adjacent code points `(c1, c2)` mark a line break at
/// the position of `c2`.
pub open spec fn line_ending_pair(c1: u32, c2: u32) -> bool {
    c2 == 0x0b || c2 == 0x0c || c2 == 0x85 || c2 == 0x2028 || c2 == 0x2029 || c1 == 0x0d || c2
        == 0x0a
}

/// The offset at which the new line starts for a break recognized at
/// the pair `(prev, cur)`, where `cur` starts at offset `off` and is
/// `w` bytes wide: at `cur` itself for a CR not followed by LF, right
/// after `cur` otherwise.
pub open spec fn break_entry(prev: u32, cur: u32, off: int, w: int) -> int {
    if prev == 0x0d && cur != 0x0a {
        off
    } else {
        off + w
    }
}

/// The offsets at which new lines start in the suffix `s`, whose first
/// byte sits at absolute offset `base` and whose preceding code point
/// was `prev`.
pub open spec fn scan_breaks(s: Seq<u8>, base: int, prev: u32) -> Seq<int>
    decreases s.len(),
        when valid_utf8(s)
        via scan_breaks_decreases
{
    if s.len() == 0 {
        seq![]
    } else {
        let cur = decode_first_scalar(s);
        let w = length_of_first_scalar(s);
        let rest = scan_breaks(pop_first_scalar(s), base + w, cur);
        if line_ending_pair(prev, cur) {
            seq![break_entry(prev, cur, base, w)] + rest
        } else {
            rest
        }
    }
}

#[via_fn]
proof fn scan_breaks_decreases(s: Seq<u8>, base: int, prev: u32) {
    if s.len() != 0 {
        assert(length_of_first_scalar(s) <= s.len());
    }
}

/// The ascending offsets of the line starts of a buffer: offset 0,
/// followed by one entry per recognized line break.
pub open spec fn line_starts(b: Seq<u8>) -> Seq<int> {
    seq![0int] + scan_breaks(b, 0, 0)
}

/// The mathematical image of a vector of offsets.
pub open spec fn to_ints(v: Seq<usize>) -> Seq<int> {
    Seq::new(v.len(), |k: int| v[k] as int)
}

/// True when the vector `v` holds exactly the offsets `s`.
pub open spec fn starts_match(v: Seq<usize>, s: Seq<int>) -> bool {
    to_ints(v) == s
}

/// Every entry of a break scan lies in `(base, base + |s|]` except
/// that a pending CR may place the first entry at `base` itself; the
/// entries are strictly increasing and all sit on character
/// boundaries of `s`.
pub proof fn lemma_scan_bounds(s: Seq<u8>, base: int, prev: u32)
    requires
        valid_utf8(s),
    ensures
        ({
            let sc = scan_breaks(s, base, prev);
            &&& forall|k: int| 0 <= k < sc.len() ==> base <= #[trigger] sc[k] <= base + s.len()
            &&& forall|k: int| 0 <= k < sc.len() - 1 ==> #[trigger] sc[k] < sc[k + 1]
            &&& (sc.len() > 0 && sc[0] == base ==> prev == 0x0d)
            &&& forall|k: int|
                0 <= k < sc.len() ==> is_char_boundary(s, #[trigger] sc[k] - base)
        }),
    decreases s.len(),
{
    if s.len() == 0 {
    } else {
        let cur = decode_first_scalar(s);
        let w = length_of_first_scalar(s);
        let t = pop_first_scalar(s);
        assert(w <= s.len());
        assert(t.len() == s.len() - w);
        lemma_scan_bounds(t, base + w, cur);
        let rest = scan_breaks(t, base + w, cur);
        let sc = scan_breaks(s, base, prev);
        assert(is_char_boundary(s, 0));
        assert(is_char_boundary(s, w)) by {
            reveal_with_fuel(is_char_boundary, 2);
        }
        // a boundary of the popped suffix is a boundary of s
        assert forall|j: int| w <= j <= s.len() && is_char_boundary(t, j - w) implies is_char_boundary(
            s,
            j,
        ) by {
            assert(is_char_boundary(s, j) == is_char_boundary(t, j - w));
        }
        if line_ending_pair(prev, cur) {
            let e = break_entry(prev, cur, base, w);
            assert(sc == seq![e] + rest);
            assert(sc[0] == e);
            assert(forall|k: int| 0 <= k < rest.len() ==> sc[k + 1] == #[trigger] rest[k]);
            if rest.len() > 0 && e == base + w {
                // the next entry cannot also be `base + w`
                assert(!(prev == 0x0d && cur != 0x0a));
                if rest[0] == base + w {
                    assert(cur == 0x0d);
                    assert(false);
                }
            }
        } else {
            assert(sc == rest);
            if sc.len() > 0 {
                assert(sc[0] >= base + w);
            }
        }
    }
}

/// A CRLF pair is one line break, never two: the line after it starts
/// right after the LF, and no line starts between the CR and the LF.
pub proof fn lemma_scan_crlf(s: Seq<u8>, base: int, prev: u32, j: int)
    requires
        valid_utf8(s),
        0 <= j,
        j + 2 <= s.len(),
        is_char_boundary(s, j),
        s[j] == 0x0d,
        s[j + 1] == 0x0a,
    ensures
        scan_breaks(s, base, prev).contains(base + j + 2),
        !scan_breaks(s, base, prev).contains(base + j + 1),
    decreases s.len(),
{
    let cur = decode_first_scalar(s);
    let w = length_of_first_scalar(s);
    let t = pop_first_scalar(s);
    assert(w <= s.len());
    let rest = scan_breaks(t, base + w, cur);
    let sc = scan_breaks(s, base, prev);
    if j == 0 {
        assert(is_leading_byte_width_1(s[0]));
        assert(w == 1);
        assert(cur == (s[0] & 0x7f) as u32);
        assert(cur == 0x0d) by (bit_vector)
            requires
                cur == (0x0du8 & 0x7f) as u32,
        ;
        // the LF right after decodes as its own one-byte code point
        assert(t.len() == s.len() - 1 >= 1);
        assert(t[0] == s[1] == 0x0a);
        assert(is_leading_byte_width_1(t[0]));
        let cur2 = decode_first_scalar(t);
        let w2 = length_of_first_scalar(t);
        assert(w2 == 1);
        assert(cur2 == (t[0] & 0x7f) as u32);
        assert(cur2 == 0x0a) by (bit_vector)
            requires
                cur2 == (0x0au8 & 0x7f) as u32,
        ;
        let t2 = pop_first_scalar(t);
        let rest2 = scan_breaks(t2, base + 2, cur2);
        assert(valid_utf8(t));
        assert(line_ending_pair(cur, cur2));
        assert(break_entry(cur, cur2, base + 1, 1) == base + 2);
        assert(rest == seq![base + 2] + rest2);
        assert(rest[0] == base + 2);
        if line_ending_pair(prev, cur) {
            assert(sc == seq![break_entry(prev, cur, base, 1)] + rest);
            assert(break_entry(prev, cur, base, 1) == base);
            assert(sc[1] == base + 2);
        } else {
            assert(sc == rest);
            assert(sc[0] == base + 2);
        }
        assert(sc.contains(base + 2));
        // and nothing starts at `base + 1`
        lemma_scan_bounds(t2, base + 2, cur2);
        assert(valid_utf8(t2));
        assert forall|k: int| 0 <= k < sc.len() implies #[trigger] sc[k] != base + 1 by {
            lemma_scan_bounds(s, base, prev);
            if sc[k] == base + 1 {
                if line_ending_pair(prev, cur) {
                    if k == 0 {
                        assert(sc[k] == base);
                    } else if k == 1 {
                        assert(sc[k] == base + 2);
                    } else {
                        assert(sc[k] == rest2[k - 2]);
                        assert(rest2[k - 2] >= base + 2);
                    }
                } else {
                    if k == 0 {
                        assert(sc[k] == base + 2);
                    } else {
                        assert(sc[k] == rest2[k - 1]);
                        assert(rest2[k - 1] >= base + 2);
                    }
                }
            }
        }
        if sc.contains(base + 1) {
            let k = choose|k: int| 0 <= k < sc.len() && sc[k] == base + 1;
            assert(false);
        }
    } else {
        // the pair sits beyond the first code point: recurse
        assert(is_char_boundary(t, j - w));
        assert(valid_utf8(t));
        assert(w <= j) by {
            lemma_boundary_gap(s, 0, j);
        }
        assert(t[j - w] == s[j] && t[j - w + 1] == s[j + 1]);
        lemma_scan_crlf(t, base + w, cur, j - w);
        assert(rest.contains(base + j + 2));
        assert(!rest.contains(base + j + 1));
        let i0 = choose|k: int| 0 <= k < rest.len() && rest[k] == base + j + 2;
        if line_ending_pair(prev, cur) {
            let sc0 = seq![break_entry(prev, cur, base, w)] + rest;
            assert(scan_breaks(s, base, prev) == sc0);
            assert(sc0[i0 + 1] == base + j + 2);
            assert(sc0.contains(base + j + 2));
            assert forall|k: int| 0 <= k < sc0.len() implies #[trigger] sc0[k] != base + j + 1 by {
                if k == 0 {
                    assert(sc0[0] == break_entry(prev, cur, base, w));
                    assert(sc0[0] <= base + w);
                    assert(base + w <= base + j);
                } else {
                    assert(sc0[k] == rest[k - 1]);
                    if rest[k - 1] == base + j + 1 {
                        assert(rest.contains(base + j + 1));
                    }
                }
            }
            if sc0.contains(base + j + 1) {
                let k = choose|k: int| 0 <= k < sc0.len() && sc0[k] == base + j + 1;
                assert(false);
            }
        } else {
            assert(scan_breaks(s, base, prev) == rest);
        }
    }
}

/// A lone CR at the very end of the input registers no trailing line
/// break: no line ever starts at the end of a CR-terminated buffer.
pub proof fn lemma_scan_trailing_cr(s: Seq<u8>, base: int, prev: u32)
    requires
        valid_utf8(s),
        s.len() > 0,
        s[s.len() - 1] == 0x0d,
    ensures
        !scan_breaks(s, base, prev).contains(base + s.len()),
    decreases s.len(),
{
    let cur = decode_first_scalar(s);
    let w = length_of_first_scalar(s);
    let t = pop_first_scalar(s);
    assert(w <= s.len());
    let rest = scan_breaks(t, base + w, cur);
    let sc = scan_breaks(s, base, prev);
    if t.len() > 0 {
        assert(t[t.len() - 1] == s[s.len() - 1]);
        lemma_scan_trailing_cr(t, base + w, cur);
        assert(!rest.contains(base + s.len()));
        assert forall|k: int| 0 <= k < sc.len() implies #[trigger] sc[k] != base + s.len() by {
            if line_ending_pair(prev, cur) {
                if k == 0 {
                    assert(sc[0] == break_entry(prev, cur, base, w));
                    assert(sc[0] <= base + w < base + s.len());
                } else {
                    assert(sc[k] == rest[k - 1]);
                    if rest[k - 1] == base + s.len() {
                        assert(rest.contains(base + s.len()));
                    }
                }
            } else {
                assert(sc[k] == rest[k]);
                if rest[k] == base + s.len() {
                    assert(rest.contains(base + s.len()));
                }
            }
        }
        if sc.contains(base + s.len()) {
            let k = choose|k: int| 0 <= k < sc.len() && sc[k] == base + s.len();
            assert(false);
        }
    } else {
        // the buffer is one code point, the CR itself
        assert(w == s.len());
        if w > 1 {
            assert(is_continuation_byte(s[w - 1]));
            assert(false);
        }
        assert(w == 1);
        assert(is_leading_byte_width_1(s[0]));
        assert(cur == (s[0] & 0x7f) as u32);
        assert(cur == 0x0d) by (bit_vector)
            requires
                cur == (0x0du8 & 0x7f) as u32,
        ;
        if line_ending_pair(prev, cur) {
            assert(prev == 0x0d);
            assert(sc == seq![base] + rest);
            assert(sc.len() == 1);
            if sc.contains(base + 1) {
                let k = choose|k: int| 0 <= k < sc.len() && sc[k] == base + 1;
                assert(sc[0] == base);
                assert(false);
            }
        } else {
            assert(sc == rest);
            assert(sc.len() == 0);
            if sc.contains(base + 1) {
                let k = choose|k: int| 0 <= k < sc.len() && sc[k] == base + 1;
                assert(false);
            }
        }
    }
}

/// A CRLF pair in the input counts as exactly one line break, never
/// two: a line starts right after the LF, and none starts between the
/// CR and the LF.
pub proof fn lemma_crlf_one_break(b: Seq<u8>, i: int)
    requires
        valid_utf8(b),
        0 <= i,
        i + 2 <= b.len(),
        b[i] == 0x0d,
        b[i + 1] == 0x0a,
    ensures
        line_starts(b).contains(i + 2),
        !line_starts(b).contains(i + 1),
{
    assert(is_char_boundary(b, i)) by {
        is_char_boundary_iff_not_is_continuation_byte(b, i);
    }
    lemma_scan_crlf(b, 0, 0, i);
    let sc = scan_breaks(b, 0, 0);
    let st = line_starts(b);
    assert(st[0] == 0);
    assert(forall|k: int| 0 <= k < sc.len() ==> st[k + 1] == #[trigger] sc[k]);
    let k0 = choose|k: int| 0 <= k < sc.len() && sc[k] == i + 2;
    assert(st[k0 + 1] == i + 2);
    assert(st.contains(i + 2));
    if st.contains(i + 1) {
        let k = choose|k: int| 0 <= k < st.len() && st[k] == i + 1;
        if k == 0 {
            assert(i + 1 == 0);
        } else {
            assert(sc[k - 1] == i + 1);
            assert(sc.contains(i + 1));
        }
        assert(false);
    }
}

/// A lone CR at the very end of the input registers no trailing line
/// break: no line ever starts at the end of a CR-terminated buffer.
pub proof fn lemma_trailing_cr_no_break(b: Seq<u8>)
    requires
        valid_utf8(b),
        b.len() > 0,
        b[b.len() - 1] == 0x0d,
    ensures
        !line_starts(b).contains(b.len() as int),
{
    lemma_scan_trailing_cr(b, 0, 0);
    let sc = scan_breaks(b, 0, 0);
    let st = line_starts(b);
    if st.contains(b.len() as int) {
        let k = choose|k: int| 0 <= k < st.len() && st[k] == b.len();
        if k == 0 {
            assert(st[0] == 0);
        } else {
            assert(sc[k - 1] == b.len());
            assert(sc.contains(b.len() as int));
        }
        assert(false);
    }
}

/// The line starts of any buffer begin with 0, are strictly
/// increasing, stay within the buffer, and all sit on character
/// boundaries.
pub proof fn lemma_line_starts(b: Seq<u8>)
    requires
        valid_utf8(b),
    ensures
        ({
            let st = line_starts(b);
            &&& st.len() >= 1
            &&& st[0] == 0
            &&& forall|k: int| 0 <= k < st.len() - 1 ==> #[trigger] st[k] < st[k + 1]
            &&& forall|k: int| 0 <= k < st.len() ==> 0 <= #[trigger] st[k] <= b.len()
            &&& forall|k: int| 0 <= k < st.len() ==> is_char_boundary(b, #[trigger] st[k])
            &&& st.len() <= b.len() + 1
        }),
{
    let st = line_starts(b);
    let sc = scan_breaks(b, 0, 0);
    lemma_scan_bounds(b, 0, 0);
    assert(st[0] == 0);
    assert(forall|k: int| 0 <= k < sc.len() ==> st[k + 1] == #[trigger] sc[k]);
    assert(forall|k: int| 0 <= k < st.len() - 1 ==> #[trigger] st[k] < st[k + 1]) by {
        if sc.len() > 0 {
            assert(sc[0] != 0);
        }
    }
    assert(is_char_boundary(b, 0));
    // strictly increasing entries bounded by b.len() cannot outnumber b.len() + 1
    assert(st.len() <= b.len() + 1) by {
        lemma_increasing_card(st, 0, b.len() as int);
    }
}

/// A strictly increasing sequence of integers drawn from `[lo, hi]`
/// has at most `hi - lo + 1` entries.
proof fn lemma_increasing_card(s: Seq<int>, lo: int, hi: int)
    requires
        forall|k: int| 0 <= k < s.len() - 1 ==> #[trigger] s[k] < s[k + 1],
        forall|k: int| 0 <= k < s.len() ==> lo <= #[trigger] s[k] <= hi,
        lo <= hi,
    ensures
        s.len() <= hi - lo + 1,
    decreases s.len(),
{
    if s.len() > 1 {
        let t = s.subrange(1, s.len() as int);
        assert(forall|k: int| 0 <= k < t.len() ==> #[trigger] t[k] == s[k + 1]);
        assert(forall|k: int| 0 <= k < t.len() - 1 ==> #[trigger] t[k] < t[k + 1]);
        assert forall|k: int| 0 <= k < t.len() implies lo + 1 <= #[trigger] t[k] <= hi by {
            assert(s[k] < s[k + 1]);
            assert(lo <= s[k]);
        }
        assert(lo + 1 <= t[0] <= hi);
        lemma_increasing_card(t, lo + 1, hi);
    }
}

/// True when the pair of code points `(c1, c2)` forms a line ending at
/// `c2`.
#[verifier::when_used_as_spec(line_ending_pair)]
pub fn is_line_ending(c1: u32, c2: u32) -> (r: bool)
    ensures
        r == line_ending_pair(c1, c2),
{
    (c2 == 0x0b || c2 == 0x0c || c2 == 0x85 || c2 == 0x2028 || c2 == 0x2029) || (c1 == 0x0d || c2
        == 0x0a)
}

/// True when the code point `c` is part of a line ending sequence.
#[verifier::when_used_as_spec(line_ending_scalar)]
pub fn is_line_ending_char(c: u32) -> (r: bool)
    ensures
        r == line_ending_scalar(c),
{
    (c == 0x0b || c == 0x0c || c == 0x85 || c == 0x2028 || c == 0x2029) || c == 0x0d || c == 0x0a
}

/// Finds the starting offsets of all the lines of the given content.
pub fn find_lines_in(content: &str) -> (r: Vec<usize>)
    ensures
        starts_match(r@, line_starts(content.spec_bytes())),
{
    let b = content.as_bytes();
    let n = b.len();
    let mut r: Vec<usize> = Vec::new();
    r.push(0);
    let mut i: usize = 0;
    let mut prev: u32 = 0;
    proof {
        assert(valid_utf8(b@));
        assert(b@.subrange(0, n as int) =~= b@);
        assert(to_ints(r@) =~= seq![0int]);
        assert(to_ints(r@) + scan_breaks(b@, 0, 0) =~= line_starts(b@));
    }
    while i < n
        invariant
            valid_utf8(b@),
            n == b@.len(),
            i <= n,
            is_char_boundary(b@, i as int),
            to_ints(r@) + scan_breaks(b@.subrange(i as int, n as int), i as int, prev)
                == line_starts(b@),
        decreases n - i,
    {
        let (cur, w) = scalar_info_at(b, i);
        proof {
            let s = b@.subrange(i as int, n as int);
            valid_utf8_split(b@, i as int);
            assert(valid_utf8(s));
            assert(decode_first_scalar(s) == cur);
            assert(length_of_first_scalar(s) == w);
            assert(pop_first_scalar(s) =~= b@.subrange(i + w, n as int));
            assert(scan_breaks(s, i as int, prev) == if line_ending_pair(prev, cur) {
                seq![break_entry(prev, cur, i as int, w as int)] + scan_breaks(
                    b@.subrange(i + w, n as int),
                    i + w,
                    cur,
                )
            } else {
                scan_breaks(b@.subrange(i + w, n as int), i + w, cur)
            });
        }
        if is_line_ending(prev, cur) {
            let e: usize = if prev == 0x0d && cur != 0x0a {
                i
            } else {
                i + w
            };
            proof {
                assert(e as int == break_entry(prev, cur, i as int, w as int));
            }
            let ghost old_r = r@;
            r.push(e);
            proof {
                assert(to_ints(r@) =~= to_ints(old_r) + seq![e as int]);
                assert(to_ints(r@) + scan_breaks(b@.subrange(i + w, n as int), i + w, cur)
                    =~= line_starts(b@));
            }
        }
        prev = cur;
        i = i + w;
    }
    proof {
        assert(b@.subrange(i as int, n as int) =~= Seq::<u8>::empty());
        assert(scan_breaks(b@.subrange(i as int, n as int), i as int, prev) =~= Seq::<
            int,
        >::empty());
        assert(to_ints(r@) =~= line_starts(b@));
    }
    r
}

/// The index, counted from 1, at which the search for the line that
/// holds `index` settles: the first entry that exceeds `index` ends
/// the search one step earlier, and the last line catches everything
/// beyond the table.
pub open spec fn find_line_rec(starts: Seq<int>, index: int, j: int) -> int
    decreases starts.len() - j,
{
    if j >= starts.len() {
        starts.len() - 1
    } else if index < starts[j] {
        j - 1
    } else {
        find_line_rec(starts, index, j + 1)
    }
}

/// The 0-based index of the line that holds offset `index`: the
/// greatest line whose start does not exceed `index`.
pub open spec fn line_of(starts: Seq<int>, index: int) -> int {
    find_line_rec(starts, index, 1)
}

/// The settled line index is the greatest one whose start does not
/// exceed `index`.
pub proof fn lemma_find_line_rec_props(starts: Seq<int>, index: int, j: int)
    requires
        1 <= j <= starts.len(),
        forall|k: int| 0 <= k < starts.len() - 1 ==> #[trigger] starts[k] < starts[k + 1],
        starts[j - 1] <= index,
    ensures
        ({
            let l = find_line_rec(starts, index, j);
            &&& j - 1 <= l < starts.len()
            &&& starts[l] <= index
            &&& l + 1 < starts.len() ==> index < starts[l + 1]
        }),
    decreases starts.len() - j,
{
    if j >= starts.len() {
    } else if index < starts[j] {
    } else {
        lemma_find_line_rec_props(starts, index, j + 1);
    }
}

/// Properties of `line_of` on a line-start table.
pub proof fn lemma_line_of_props(starts: Seq<int>, index: int)
    requires
        starts.len() >= 1,
        starts[0] <= index,
        forall|k: int| 0 <= k < starts.len() - 1 ==> #[trigger] starts[k] < starts[k + 1],
    ensures
        ({
            let l = line_of(starts, index);
            &&& 0 <= l < starts.len()
            &&& starts[l] <= index
            &&& l + 1 < starts.len() ==> index < starts[l + 1]
        }),
{
    lemma_find_line_rec_props(starts, index, 1);
}

/// Finds the index of the line that holds the given input offset.
pub fn find_line_at(lines: &[usize], index: usize) -> (r: usize)
    requires
        lines@.len() >= 1,
    ensures
        r == line_of(to_ints(lines@), index as int),
{
    let ghost starts = to_ints(lines@);
    let n = lines.len();
    let mut j: usize = 1;
    while j < n
        invariant
            1 <= j <= n,
            n == lines@.len(),
            line_of(starts, index as int) == find_line_rec(starts, index as int, j as int),
            starts == to_ints(lines@),
        decreases n - j,
    {
        if index < lines[j] {
            proof {
                assert(starts[j as int] == lines@[j as int] as int);
                assert(find_line_rec(starts, index as int, j as int) == j - 1);
            }
            return j - 1;
        }
        proof {
            assert(starts[j as int] == lines@[j as int] as int);
            assert(find_line_rec(starts, index as int, j as int) == find_line_rec(
                starts,
                index as int,
                j + 1,
            ));
        }
        j = j + 1;
    }
    proof {
        assert(find_line_rec(starts, index as int, j as int) == starts.len() - 1);
    }
    n - 1
}

} // verus!
