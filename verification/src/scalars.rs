//! Byte-level reasoning about UTF-8 encoded text.
//!
//! The whole engine addresses its input by byte offsets into a UTF-8
//! encoded buffer.  This module provides the one exec decoding
//! primitive, `scalar_info_at`, which reads the scalar value and byte
//! width of the code point starting at a character boundary, and the
//! lemmas that connect byte offsets, character boundaries and decoded
//! character counts.

use vstd::prelude::*;
use vstd::utf8::*;

verus! {

broadcast use vstd::utf8::group_utf8_lib;

/// The byte width of the code point that starts at offset `i`.
pub open spec fn width_at(b: Seq<u8>, i: int) -> int {
    length_of_first_scalar(b.subrange(i, b.len() as int))
}

/// The scalar value of the code point that starts at offset `i`.
pub open spec fn scalar_at(b: Seq<u8>, i: int) -> u32 {
    decode_first_scalar(b.subrange(i, b.len() as int))
}

/// The character that starts at offset `i`.
pub open spec fn char_at(b: Seq<u8>, i: int) -> char {
    scalar_at(b, i) as char
}

/// The number of code points encoded between offsets `a` and `x`.
pub open spec fn char_count(b: Seq<u8>, a: int, x: int) -> int {
    decode_utf8(b.subrange(a, x)).len() as int
}

/// A character boundary of the whole buffer is a character boundary of
/// the suffix that starts at an earlier boundary, and conversely.
pub proof fn lemma_boundary_shift(b: Seq<u8>, i: int, k: int)
    requires
        valid_utf8(b),
        0 <= i <= b.len(),
        is_char_boundary(b, i),
        0 <= k <= b.len() - i,
    ensures
        is_char_boundary(b, i + k) <==> is_char_boundary(
            b.subrange(i, b.len() as int),
            k,
        ),
{
    let s = b.subrange(i, b.len() as int);
    assert(valid_utf8(s));
    if i + k == b.len() {
        assert(is_char_boundary(b, i + k));
        assert(is_char_boundary(s, k));
    } else {
        assert(b[i + k] == s[k]);
        assert(is_char_boundary(b, i + k) <==> !is_continuation_byte(b[i + k])) by {
            is_char_boundary_iff_not_is_continuation_byte(b, i + k);
        }
        assert(is_char_boundary(s, k) <==> !is_continuation_byte(s[k])) by {
            is_char_boundary_iff_not_is_continuation_byte(s, k);
        }
    }
}

/// A character boundary of the whole buffer is a character boundary of
/// a prefix that ends at a later boundary, and conversely.
pub proof fn lemma_boundary_prefix(b: Seq<u8>, e: int, j: int)
    requires
        valid_utf8(b),
        0 <= e <= b.len(),
        is_char_boundary(b, e),
        0 <= j <= e,
    ensures
        is_char_boundary(b, j) <==> is_char_boundary(b.subrange(0, e), j),
{
    let p = b.subrange(0, e);
    assert(valid_utf8(p));
    if j == e {
        assert(is_char_boundary(p, j));
    } else {
        assert(b[j] == p[j]);
        assert(is_char_boundary(b, j) <==> !is_continuation_byte(b[j])) by {
            is_char_boundary_iff_not_is_continuation_byte(b, j);
        }
        assert(is_char_boundary(p, j) <==> !is_continuation_byte(p[j])) by {
            is_char_boundary_iff_not_is_continuation_byte(p, j);
        }
    }
}

/// Facts about the code point that starts at a character boundary: its
/// width, its scalar value, the continuation bytes it spans, and the
/// boundary that follows it.
pub proof fn lemma_scalar_at(b: Seq<u8>, i: int)
    requires
        valid_utf8(b),
        0 <= i < b.len(),
        is_char_boundary(b, i),
    ensures
        ({
            let w = width_at(b, i);
            let cp = scalar_at(b, i);
            &&& 1 <= w <= 4
            &&& i + w <= b.len()
            &&& is_char_boundary(b, i + w)
            &&& forall|j: int| i < j < i + w ==> is_continuation_byte(b[j])
            &&& forall|j: int| i < j < i + w ==> !is_char_boundary(b, j)
            &&& !is_continuation_byte(b[i])
            &&& valid_first_scalar(b.subrange(i, b.len() as int))
            &&& is_scalar(cp)
            &&& encode_scalar(cp).len() == w
            &&& char_at(b, i) as u32 == cp
        }),
{
    let s = b.subrange(i, b.len() as int);
    assert(valid_utf8(s));
    assert(valid_first_scalar(s));
    let w = length_of_first_scalar(s);
    let cp = decode_first_scalar(s);
    let b1 = s[0];
    assert(1 <= w <= 4);
    assert(w <= s.len());
    assert(forall|j: int| 0 < j < w ==> is_continuation_byte(s[j]));
    assert(forall|j: int| i < j < i + w ==> is_continuation_byte(b[j]));
    assert(!is_continuation_byte(b[i])) by {
        is_char_boundary_iff_not_is_continuation_byte(b, i);
    }
    assert(is_char_boundary(s, w)) by {
        reveal_with_fuel(is_char_boundary, 2);
    }
    lemma_boundary_shift(b, i, w);
    assert forall|j: int| i < j < i + w implies !is_char_boundary(b, j) by {
        is_char_boundary_iff_not_is_continuation_byte(b, j);
    }
    assert(is_scalar(cp) && encode_scalar(cp).len() == w) by {
        if is_leading_byte_width_1(b1) {
            assert(cp == leading_bits_width_1(b1));
            assert(cp <= 0x7f) by (bit_vector)
                requires
                    cp == (b1 & 0x7f) as u32,
            ;
        } else if is_leading_byte_width_2(b1) {
            let b2 = s[1];
            assert(cp == codepoint_width_2(b1, b2));
            assert(cp <= 0x7ff) by (bit_vector)
                requires
                    cp == ((b1 & 0x1f) as u32) << 6 | (b2 & 0x3f) as u32,
            ;
            assert(0x80 <= cp);
        } else if is_leading_byte_width_3(b1) {
            let b2 = s[1];
            let b3 = s[2];
            assert(cp == codepoint_width_3(b1, b2, b3));
            assert(cp <= 0xffff) by (bit_vector)
                requires
                    cp == ((b1 & 0x0f) as u32) << 12 | ((b2 & 0x3f) as u32) << 6 | (b3
                        & 0x3f) as u32,
            ;
            assert(0x800 <= cp);
            assert(not_surrogate(cp));
        } else {
            assert(is_leading_byte_width_4(b1));
            assert(0x10000 <= cp <= 0x10ffff);
        }
    }
    assert(char_at(b, i) as u32 == cp);
}

/// Decoding a valid buffer yields at most one character per byte.
pub proof fn lemma_decode_len_le(b: Seq<u8>)
    requires
        valid_utf8(b),
    ensures
        decode_utf8(b).len() <= b.len(),
    decreases b.len(),
{
    if b.len() != 0 {
        lemma_decode_len_le(pop_first_scalar(b));
    }
}

/// The single code point that starts at a boundary decodes, on its own
/// bytes, to exactly one character.
pub proof fn lemma_single_scalar_decode(b: Seq<u8>, i: int)
    requires
        valid_utf8(b),
        0 <= i < b.len(),
        is_char_boundary(b, i),
    ensures
        ({
            let w = width_at(b, i);
            &&& valid_utf8(b.subrange(i, i + w))
            &&& decode_utf8(b.subrange(i, i + w)) == seq![char_at(b, i)]
        }),
{
    lemma_scalar_at(b, i);
    let n = b.len() as int;
    let w = width_at(b, i);
    let s = b.subrange(i, n);
    let v = b.subrange(i, i + w);
    assert(valid_utf8(s));
    assert(is_char_boundary(s, w)) by {
        lemma_boundary_shift(b, i, w);
    }
    valid_utf8_split(s, w);
    assert(s.subrange(0, w) =~= v);
    assert(valid_utf8(v));
    // the first scalar of the suffix and of its own bytes agree
    assert(v[0] == s[0]);
    assert(length_of_first_scalar(v) == length_of_first_scalar(s));
    assert(decode_first_scalar(v) == decode_first_scalar(s)) by {
        if is_leading_byte_width_1(v[0]) {
        } else if is_leading_byte_width_2(v[0]) {
            assert(v[1] == s[1]);
        } else if is_leading_byte_width_3(v[0]) {
            assert(v[1] == s[1] && v[2] == s[2]);
        } else {
            assert(v[1] == s[1] && v[2] == s[2] && v[3] == s[3]);
        }
    }
    assert(pop_first_scalar(v) =~= Seq::<u8>::empty());
    assert(decode_utf8(v) =~= seq![char_at(b, i)]);
}

/// Decoding between boundaries splits at any boundary in the middle.
pub proof fn lemma_decode_split3(b: Seq<u8>, a: int, m: int, x: int)
    requires
        valid_utf8(b),
        0 <= a <= m <= x <= b.len(),
        is_char_boundary(b, a),
        is_char_boundary(b, m),
        is_char_boundary(b, x),
    ensures
        valid_utf8(b.subrange(a, x)),
        valid_utf8(b.subrange(a, m)),
        valid_utf8(b.subrange(m, x)),
        decode_utf8(b.subrange(a, x)) == decode_utf8(b.subrange(a, m)) + decode_utf8(
            b.subrange(m, x),
        ),
{
    let n = b.len() as int;
    let p = b.subrange(0, x);
    assert(valid_utf8(p)) by {
        valid_utf8_split(b, x);
    }
    assert(is_char_boundary(p, a)) by {
        lemma_boundary_prefix(b, x, a);
    }
    assert(is_char_boundary(p, m)) by {
        lemma_boundary_prefix(b, x, m);
    }
    let s = p.subrange(a, x);
    assert(s =~= b.subrange(a, x));
    assert(valid_utf8(s)) by {
        valid_utf8_split(p, a);
        assert(p.subrange(a, p.len() as int) =~= s);
    }
    assert(is_char_boundary(s, m - a)) by {
        lemma_boundary_shift(p, a, m - a);
        assert(p.subrange(a, p.len() as int) =~= s);
    }
    valid_utf8_split(s, m - a);
    decode_utf8_split(s, m - a);
    assert(s.subrange(0, m - a) =~= b.subrange(a, m));
    assert(s.subrange(m - a, s.len() as int) =~= b.subrange(m, x));
}

/// Between two boundaries there is room for the whole code point that
/// starts at the earlier one.
pub proof fn lemma_boundary_gap(b: Seq<u8>, i: int, j: int)
    requires
        valid_utf8(b),
        0 <= i < j <= b.len(),
        is_char_boundary(b, i),
        is_char_boundary(b, j),
    ensures
        i + width_at(b, i) <= j,
{
    lemma_scalar_at(b, i);
}

/// Stepping over one code point adds exactly one decoded character.
pub proof fn lemma_char_count_step(b: Seq<u8>, a: int, i: int)
    requires
        valid_utf8(b),
        0 <= a <= i < b.len(),
        is_char_boundary(b, a),
        is_char_boundary(b, i),
    ensures
        char_count(b, a, i + width_at(b, i)) == char_count(b, a, i) + 1,
        char_count(b, i, b.len() as int) == 1 + char_count(
            b,
            i + width_at(b, i),
            b.len() as int,
        ),
{
    let n = b.len() as int;
    let w = width_at(b, i);
    lemma_scalar_at(b, i);
    lemma_single_scalar_decode(b, i);
    lemma_decode_split3(b, a, i, i + w);
    assert(is_char_boundary(b, n));
    lemma_decode_split3(b, i, i + w, n);
}

/// An empty range holds no characters; a non-empty range holds some.
pub proof fn lemma_char_count_bounds(b: Seq<u8>, a: int, x: int)
    requires
        valid_utf8(b),
        0 <= a <= x <= b.len(),
        is_char_boundary(b, a),
        is_char_boundary(b, x),
    ensures
        char_count(b, a, a) == 0,
        char_count(b, a, x) <= x - a,
        a < x ==> char_count(b, a, x) >= 1,
{
    assert(b.subrange(a, a) =~= Seq::<u8>::empty());
    assert(decode_utf8(Seq::<u8>::empty()) =~= Seq::<char>::empty());
    lemma_decode_split3(b, a, a, x);
    lemma_decode_len_le(b.subrange(a, x));
    if a < x {
        let w = width_at(b, a);
        lemma_scalar_at(b, a);
        lemma_boundary_gap(b, a, x);
        lemma_char_count_step(b, a, a);
        lemma_decode_split3(b, a, a + w, x);
        assert(char_count(b, a, x) == char_count(b, a, a + w) + char_count(b, a + w, x));
        assert(char_count(b, a + w, x) >= 0);
    }
}

/// A character boundary of the whole buffer is a character boundary of
/// a subrange cut between two boundaries, and conversely.
pub proof fn lemma_boundary_subrange(b: Seq<u8>, x: int, e: int, j: int)
    requires
        valid_utf8(b),
        0 <= x <= e <= b.len(),
        is_char_boundary(b, x),
        is_char_boundary(b, e),
        0 <= j <= e - x,
    ensures
        valid_utf8(b.subrange(x, e)),
        is_char_boundary(b, x + j) <==> is_char_boundary(b.subrange(x, e), j),
{
    let p = b.subrange(0, e);
    assert(valid_utf8(p)) by {
        valid_utf8_split(b, e);
    }
    lemma_boundary_prefix(b, e, x + j);
    lemma_boundary_prefix(b, e, x);
    lemma_boundary_shift(p, x, j);
    assert(p.subrange(x, p.len() as int) =~= b.subrange(x, e));
    lemma_decode_split3(b, x, e, e);
}

/// The code point starting inside a subrange cut between two
/// boundaries decodes to the same value, with the same width, as in
/// the whole buffer.
pub proof fn lemma_scalar_at_subrange(b: Seq<u8>, x: int, e: int, p: int)
    requires
        valid_utf8(b),
        0 <= x <= p < e <= b.len(),
        is_char_boundary(b, x),
        is_char_boundary(b, e),
        is_char_boundary(b, p),
    ensures
        width_at(b.subrange(x, e), p - x) == width_at(b, p),
        scalar_at(b.subrange(x, e), p - x) == scalar_at(b, p),
{
    lemma_scalar_at(b, p);
    lemma_boundary_gap(b, p, e);
    let w = width_at(b, p);
    let c = b.subrange(x, e);
    let s1 = b.subrange(p, b.len() as int);
    let s2 = c.subrange(p - x, c.len() as int);
    assert(forall|j: int| 0 <= j < e - p ==> s2[j] == #[trigger] s1[j]);
    assert(s2[0] == s1[0]);
    if is_leading_byte_width_1(s1[0]) {
    } else if is_leading_byte_width_2(s1[0]) {
        assert(s2[1] == s1[1]);
    } else if is_leading_byte_width_3(s1[0]) {
        assert(s2[1] == s1[1] && s2[2] == s1[2]);
    } else {
        assert(is_leading_byte_width_4(s1[0]));
        assert(s2[1] == s1[1] && s2[2] == s1[2] && s2[3] == s1[3]);
    }
}

/// Reads the scalar value and the byte width of the code point that
/// starts at byte offset `i` of a valid UTF-8 buffer.
pub fn scalar_info_at(b: &[u8], i: usize) -> (r: (u32, usize))
    requires
        valid_utf8(b@),
        i < b@.len(),
        is_char_boundary(b@, i as int),
    ensures
        r.0 == scalar_at(b@, i as int),
        r.1 == width_at(b@, i as int),
        1 <= r.1 <= 4,
        i + r.1 <= b@.len(),
        is_char_boundary(b@, i + r.1),
        is_scalar(r.0),
        encode_scalar(r.0).len() == r.1,
{
    proof {
        lemma_scalar_at(b@, i as int);
    }
    let ghost s = b@.subrange(i as int, b@.len() as int);
    let b1 = b[i];
    proof {
        assert(b1 == s[0]);
    }
    if b1 < 0x80 {
        ((b1 & 0x7f) as u32, 1)
    } else if b1 < 0xe0 {
        proof {
            assert(is_leading_byte_width_2(b1));
            assert(s[1] == b@[i + 1]);
        }
        let b2 = b[i + 1];
        let cp = ((b1 & 0x1f) as u32) << 6u32 | (b2 & 0x3f) as u32;
        (cp, 2)
    } else if b1 < 0xf0 {
        proof {
            assert(is_leading_byte_width_3(b1));
            assert(s[1] == b@[i + 1] && s[2] == b@[i + 2]);
        }
        let b2 = b[i + 1];
        let b3 = b[i + 2];
        let cp = ((b1 & 0x0f) as u32) << 12u32 | ((b2 & 0x3f) as u32) << 6u32 | (b3
            & 0x3f) as u32;
        (cp, 3)
    } else {
        proof {
            assert(is_leading_byte_width_4(b1));
            assert(s[1] == b@[i + 1] && s[2] == b@[i + 2] && s[3] == b@[i + 3]);
        }
        let b2 = b[i + 1];
        let b3 = b[i + 2];
        let b4 = b[i + 3];
        let cp = ((b1 & 0x07) as u32) << 18u32 | ((b2 & 0x3f) as u32) << 12u32 | ((b3
            & 0x3f) as u32) << 6u32 | (b4 & 0x3f) as u32;
        (cp, 4)
    }
}

} // verus!
