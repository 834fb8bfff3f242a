//! The code-unit sequencer: a forward-only producer of UTF-16 code
//! units tagged with source byte lengths.
//!
//! Each code point of the input either fits in a single UTF-16 unit,
//! which is tagged with the code point's full UTF-8 byte length, or
//! needs a surrogate pair, in which case the high surrogate is tagged
//! with 1 and the low surrogate with the remaining byte length, so
//! that a consumer advancing one unit at a time can reconstruct
//! exactly how many source bytes it has passed.

use vstd::prelude::*;
use vstd::string::StringSliceAdditionalSpecFns;
use vstd::utf8::*;

use crate::scalars::scalar_info_at;
use crate::text::lemma_encode_empty;
use crate::text::Text;

verus! {

broadcast use vstd::utf8::group_utf8_lib;

/// The UTF-16 units yielded for one code point, each paired with the
/// number of source bytes it accounts for.
pub open spec fn utf16_units_of_char(c: char) -> Seq<(u16, usize)> {
    let cp = c as u32;
    let w = encode_scalar(cp).len() as int;
    if cp < 0x10000 {
        seq![((cp as u16), (w as usize))]
    } else {
        seq![
            (((0xd800 + (cp - 0x10000) / 0x400) as u16), 1usize),
            (((0xdc00 + (cp - 0x10000) % 0x400) as u16), ((w - 1) as usize)),
        ]
    }
}

/// The UTF-16 units yielded for a character sequence.
pub open spec fn utf16_units(chars: Seq<char>) -> Seq<(u16, usize)>
    decreases chars.len(),
{
    if chars.len() == 0 {
        seq![]
    } else {
        utf16_units_of_char(chars[0]) + utf16_units(chars.drop_first())
    }
}

/// A code point outside the Basic Multilingual Plane yields exactly
/// two units: the high surrogate accounts for one source byte, the low
/// surrogate for the rest, and together they account for the code
/// point's whole UTF-8 byte length.
pub proof fn lemma_surrogate_pair_lengths(c: char)
    requires
        c as u32 >= 0x10000,
    ensures
        utf16_units_of_char(c).len() == 2,
        utf16_units_of_char(c)[0].1 as int + utf16_units_of_char(c)[1].1 as int
            == encode_scalar(c as u32).len(),
        utf16_units_of_char(c)[0].1 == 1,
        utf16_units_of_char(c)[1].1 as int == encode_scalar(c as u32).len() - 1,
{
    char_is_scalar(c);
    assert(has_width_4_encoding(c as u32));
    assert(encode_scalar(c as u32).len() == 4);
}

/// An iterator over the UTF-16 code units of a text, yielding pairs
/// of a code unit and the number of source bytes it accounts for.
pub struct Utf16Iter<'a> {
    /// The input not yet decoded
    rest: &'a str,
    /// The pending low surrogate, if the last decoded code point
    /// needed a pair
    pending: Option<(u16, usize)>,
}

impl<'a> Utf16Iter<'a> {
    /// The units this iterator has yet to yield.
    pub closed spec fn units(&self) -> Seq<(u16, usize)> {
        (match self.pending {
            Some(p) => seq![p],
            None => Seq::empty(),
        }) + utf16_units(self.rest@)
    }

    /// Yields the next code unit and its source byte length, or
    /// nothing once the input is exhausted.
    pub fn next(&mut self) -> (r: Option<(u16, usize)>)
        ensures
            old(self).units().len() == 0 ==> r is None && final(self).units() == old(self).units(),
            old(self).units().len() > 0 ==> r == Some(old(self).units()[0]) && final(self).units()
                == old(self).units().drop_first(),
    {
        match self.pending {
            Some(p) => {
                self.pending = None;
                proof {
                    assert(old(self).units()[0] == p);
                    assert(final(self).units() =~= old(self).units().drop_first());
                }
                Some(p)
            },
            None => {
                if self.rest.is_empty() {
                    proof {
                        assert(old(self).units() =~= utf16_units(self.rest@));
                    }
                    None
                } else {
                    let ghost b = self.rest.spec_bytes();
                    let ghost chars = self.rest@;
                    proof {
                        assert(valid_utf8(b));
                        encode_utf8_decode_utf8(chars);
                        lemma_encode_empty(chars);
                        assert(b.len() > 0);
                        assert(is_char_boundary(b, 0));
                        assert(decode_utf8(b)[0] == decode_first_scalar(b) as char);
                        assert(b.subrange(0, b.len() as int) =~= b);
                    }
                    let bytes = self.rest.as_bytes();
                    let (cp, w) = scalar_info_at(bytes, 0);
                    proof {
                        assert(cp == decode_first_scalar(b));
                        assert(chars[0] == (cp as char));
                        assert((cp as char) as u32 == cp);
                        assert(w as int == encode_scalar(cp).len());
                    }
                    let (_, tail) = self.rest.split_at(w);
                    proof {
                        assert(tail.spec_bytes() =~= pop_first_scalar(b));
                        encode_utf8_decode_utf8(tail@);
                        assert(decode_utf8(b) == seq![chars[0]] + decode_utf8(
                            pop_first_scalar(b),
                        ));
                        assert(tail@ =~= chars.drop_first());
                        assert(utf16_units(chars) == utf16_units_of_char(chars[0])
                            + utf16_units(chars.drop_first()));
                    }
                    self.rest = tail;
                    if cp < 0x10000 {
                        proof {
                            assert(utf16_units_of_char((cp as char)) =~= seq![
                                ((cp as u16), w),
                            ]);
                            assert(old(self).units()[0] == ((cp as u16), w));
                            assert(final(self).units() =~= old(self).units().drop_first());
                        }
                        Some((cp as u16, w))
                    } else {
                        let high = 0xd800 + (cp - 0x10000) / 0x400;
                        let low = 0xdc00 + (cp - 0x10000) % 0x400;
                        proof {
                            assert(cp <= 0x10ffff);
                            assert(encode_scalar(cp).len() == 4);
                            assert(w == 4);
                            assert(high < 0x10000 && low < 0x10000);
                        }
                        self.pending = Some((low as u16, w - 1));
                        proof {
                            assert(utf16_units_of_char((cp as char)) =~= seq![
                                ((high as u16), 1usize),
                                ((low as u16), (w - 1) as usize),
                            ]);
                            assert(old(self).units()[0] == ((high as u16), 1usize));
                            assert(final(self).units() =~= old(self).units().drop_first());
                        }
                        Some((high as u16, 1))
                    }
                }
            },
        }
    }
}

impl Text {
    /// Gets an iterator over the UTF-16 code units of the content
    /// starting at the given byte offset.
    pub fn iter_utf16_from<'a>(&'a self, from: usize) -> (r: Utf16Iter<'a>)
        requires
            self.wf(),
            from <= self.spec_bytes().len(),
            is_char_boundary(self.spec_bytes(), from as int),
        ensures
            r.units() == utf16_units(
                decode_utf8(
                    self.spec_bytes().subrange(from as int, self.spec_bytes().len() as int),
                ),
            ),
    {
        proof {
            self.lemma_wf_facts();
        }
        let (_, tail) = self.content_str().split_at(from);
        proof {
            assert(tail.spec_bytes() =~= self.spec_bytes().subrange(
                from as int,
                self.spec_bytes().len() as int,
            ));
            encode_utf8_decode_utf8(tail@);
        }
        let r = Utf16Iter { rest: tail, pending: None };
        proof {
            assert(r.units() =~= utf16_units(tail@));
        }
        r
    }
}

} // verus!
