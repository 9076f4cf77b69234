//! Well-formed UTF-8: no overlong forms, no surrogates, nothing above
//! U+10FFFF.
use vstd::prelude::*;

verus! {

pub open spec fn is_cont(b: u8) -> bool {
    0x80 <= b <= 0xBF
}

/// The bounds of the second byte of a multi-byte sequence led by `b0`.
pub open spec fn second_lo(b0: u8) -> u8 {
    if b0 == 0xE0 {
        0xA0
    } else if b0 == 0xF0 {
        0x90
    } else {
        0x80
    }
}

pub open spec fn second_hi(b0: u8) -> u8 {
    if b0 == 0xED {
        0x9F
    } else if b0 == 0xF4 {
        0x8F
    } else {
        0xBF
    }
}

/// The length of the well-formed character at the front of `s`; 0 when
/// there is none.
pub open spec fn char_len(s: Seq<u8>) -> nat {
    if s.len() == 0 {
        0
    } else {
        let b0 = s[0];
        if b0 < 0x80 {
            1
        } else if 0xC2 <= b0 <= 0xDF {
            if s.len() >= 2 && is_cont(s[1]) {
                2
            } else {
                0
            }
        } else if 0xE0 <= b0 <= 0xEF {
            if s.len() >= 3 && second_lo(b0) <= s[1] <= second_hi(b0) && is_cont(s[2]) {
                3
            } else {
                0
            }
        } else if 0xF0 <= b0 <= 0xF4 {
            if s.len() >= 4 && second_lo(b0) <= s[1] <= second_hi(b0) && is_cont(s[2]) && is_cont(
                s[3],
            ) {
                4
            } else {
                0
            }
        } else {
            0
        }
    }
}

/// Whether `s` is a sequence of well-formed characters.
pub open spec fn utf8_ok(s: Seq<u8>) -> bool
    decreases s.len(),
{
    if s.len() == 0 {
        true
    } else if char_len(s) == 0 {
        false
    } else {
        utf8_ok(s.skip(char_len(s) as int))
    }
}

fn lo(b0: u8) -> (r: u8)
    ensures
        r == second_lo(b0),
{
    if b0 == 0xE0 {
        0xA0
    } else if b0 == 0xF0 {
        0x90
    } else {
        0x80
    }
}

fn hi(b0: u8) -> (r: u8)
    ensures
        r == second_hi(b0),
{
    if b0 == 0xED {
        0x9F
    } else if b0 == 0xF4 {
        0x8F
    } else {
        0xBF
    }
}

fn cont(b: u8) -> (r: bool)
    ensures
        r == is_cont(b),
{
    0x80 <= b && b <= 0xBF
}

fn char_len_at(s: &[u8], pos: usize) -> (r: usize)
    requires
        pos <= s@.len(),
    ensures
        r == char_len(s@.skip(pos as int)),
{
    let ghost t = s@.skip(pos as int);
    let n = s.len() - pos;
    if n == 0 {
        return 0;
    }
    let b0 = s[pos];
    if b0 < 0x80 {
        1
    } else if 0xC2 <= b0 && b0 <= 0xDF {
        if n >= 2 && cont(s[pos + 1]) {
            2
        } else {
            0
        }
    } else if 0xE0 <= b0 && b0 <= 0xEF {
        if n >= 3 && lo(b0) <= s[pos + 1] && s[pos + 1] <= hi(b0) && cont(s[pos + 2]) {
            3
        } else {
            0
        }
    } else if 0xF0 <= b0 && b0 <= 0xF4 {
        if n >= 4 && lo(b0) <= s[pos + 1] && s[pos + 1] <= hi(b0) && cont(s[pos + 2]) && cont(
            s[pos + 3],
        ) {
            4
        } else {
            0
        }
    } else {
        0
    }
}

/// Whether the bytes are well-formed UTF-8.
pub fn check_utf8(s: &[u8]) -> (r: bool)
    ensures
        r == utf8_ok(s@),
{
    let mut pos: usize = 0;
    proof {
        assert(s@.skip(0) =~= s@);
    }
    while pos < s.len()
        invariant
            pos <= s@.len(),
            utf8_ok(s@) == utf8_ok(s@.skip(pos as int)),
        decreases s@.len() - pos,
    {
        let k = char_len_at(s, pos);
        if k == 0 {
            return false;
        }
        proof {
            assert(s@.skip(pos as int).skip(k as int) =~= s@.skip(pos + k));
        }
        pos = pos + k;
    }
    proof {
        assert(s@.skip(pos as int).len() == 0);
    }
    true
}

} // verus!
