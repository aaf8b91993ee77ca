//! Reading fixed-width code units out of the byte window.
use crate::window::SlidingWindow;
use vstd::prelude::*;

verus! {

/// Order of the bytes within a code unit wider than one byte.
#[derive(Clone, Copy, Debug, PartialEq, Eq)]
pub enum ByteOrder {
    Little,
    Big,
}

/// The code unit of width `w` (1, 2 or 4) whose first byte is `s[i]`.
pub open spec fn code_unit(s: Seq<u8>, i: int, w: int, order: ByteOrder) -> int {
    if w == 1 {
        s[i] as int
    } else if w == 2 {
        match order {
            ByteOrder::Little => s[i] + 256 * s[i + 1],
            ByteOrder::Big => 256 * s[i] + s[i + 1],
        }
    } else {
        match order {
            ByteOrder::Little => s[i] + 256 * s[i + 1] + 65536 * s[i + 2] + 16777216 * s[i + 3],
            ByteOrder::Big => 16777216 * s[i] + 65536 * s[i + 1] + 256 * s[i + 2] + s[i + 3],
        }
    }
}

/// A code unit read inside a suffix of `s` is the one read in `s` itself.
pub proof fn lemma_code_unit_suffix(s: Seq<u8>, a: int, i: int, w: int, order: ByteOrder)
    requires
        0 <= a,
        0 <= i,
        w == 1 || w == 2 || w == 4,
        a + i + w <= s.len(),
    ensures
        code_unit(s.subrange(a, s.len() as int), i, w, order) == code_unit(s, a + i, w, order),
{
    let t = s.subrange(a, s.len() as int);
    assert(t[i] == s[a + i]);
    if w >= 2 {
        assert(t[i + 1] == s[a + i + 1]);
    }
    if w == 4 {
        assert(t[i + 2] == s[a + i + 2]);
        assert(t[i + 3] == s[a + i + 3]);
    }
}

/// Whether `u` is a Unicode scalar value.
pub open spec fn valid_scalar(u: int) -> bool {
    0 <= u <= 0x10FFFF && !(0xD800 <= u <= 0xDFFF)
}

/// The character a code unit stands for; the replacement character where it
/// is no scalar value.
pub open spec fn char_of(u: int) -> char {
    if valid_scalar(u) {
        (u as u32) as char
    } else {
        '\u{FFFD}'
    }
}

/// Relies on `char::from_u32`: `Some` exactly for scalar values, holding that value.
#[verifier::external_body]
fn scalar_of(u: u32) -> (r: Option<char>)
    ensures
        r is Some <==> valid_scalar(u as int),
        r matches Some(c) ==> c as u32 == u,
{
    char::from_u32(u)
}

/// The character a code unit stands for.
pub fn decode_char(u: u32) -> (r: char)
    ensures
        r == char_of(u as int),
{
    match scalar_of(u) {
        Some(c) => {
            proof {
                vstd::utf8::char_u32_cast(c, u);
            }
            assert(((u as int) as u32) == u);
            c
        },
        None => '\u{FFFD}',
    }
}

/// The code unit of width `w` starting at position `i` of the window.
pub fn unit_at(win: &SlidingWindow, i: usize, w: usize, order: ByteOrder) -> (r: u32)
    requires
        w == 1 || w == 2 || w == 4,
        i + w <= win.contents().len(),
        win.contents().len() <= usize::MAX,
    ensures
        r as int == code_unit(win.contents(), i as int, w as int, order),
{
    if w == 1 {
        win.get(i) as u32
    } else if w == 2 {
        let b0 = win.get(i) as u32;
        let b1 = win.get(i + 1) as u32;
        match order {
            ByteOrder::Little => b0 + 256 * b1,
            ByteOrder::Big => 256 * b0 + b1,
        }
    } else {
        let b0 = win.get(i) as u32;
        let b1 = win.get(i + 1) as u32;
        let b2 = win.get(i + 2) as u32;
        let b3 = win.get(i + 3) as u32;
        match order {
            ByteOrder::Little => b0 + 256 * b1 + 65536 * b2 + 16777216 * b3,
            ByteOrder::Big => 16777216 * b0 + 65536 * b1 + 256 * b2 + b3,
        }
    }
}

} // verus!
