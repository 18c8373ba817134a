//! Lowercase hexadecimal rendering of byte sequences.
//!
//! The derivation core renders each digest as lowercase hex, two
//! characters per byte, high nibble first; `hex_of` states that exactly
//! and `to_hex` computes it.

use vstd::prelude::*;
use vstd::string::StringExecFns;
use crate::trim::is_ws_char;
use crate::trim::lemma_trim_noop;
use crate::trim::trim_spec;

verus! {

/// The lowercase hex digit for `n` in `0 .. 16` (and a digit in any case,
/// so that the rendering never holds a non-hex character).
pub open spec fn hex_digit_spec(n: int) -> char {
    if n == 0 {
        '0'
    } else if n == 1 {
        '1'
    } else if n == 2 {
        '2'
    } else if n == 3 {
        '3'
    } else if n == 4 {
        '4'
    } else if n == 5 {
        '5'
    } else if n == 6 {
        '6'
    } else if n == 7 {
        '7'
    } else if n == 8 {
        '8'
    } else if n == 9 {
        '9'
    } else if n == 10 {
        'a'
    } else if n == 11 {
        'b'
    } else if n == 12 {
        'c'
    } else if n == 13 {
        'd'
    } else if n == 14 {
        'e'
    } else {
        'f'
    }
}

/// `b` rendered as lowercase hex: two characters per byte, high nibble
/// first.
pub open spec fn hex_of(b: Seq<u8>) -> Seq<char> {
    Seq::new(
        b.len() * 2,
        |i: int|
            if i % 2 == 0 {
                hex_digit_spec((b[i / 2] >> 4) as int)
            } else {
                hex_digit_spec((b[i / 2] & 0x0f) as int)
            },
    )
}

/// No hex digit is whitespace.
proof fn lemma_hex_digit_not_ws(n: int)
    ensures
        !is_ws_char(hex_digit_spec(n)),
{
}

/// A hex rendering holds no whitespace, so trimming it changes nothing.
pub proof fn lemma_trim_hex_noop(b: Seq<u8>)
    ensures
        trim_spec(hex_of(b)) == hex_of(b),
{
    let h = hex_of(b);
    if h.len() > 0 {
        lemma_hex_digit_not_ws((b[0] >> 4) as int);
        lemma_hex_digit_not_ws((b[(h.len() - 1) as int / 2] & 0x0f) as int);
        assert((h.len() - 1) as int % 2 == 1);
    }
    lemma_trim_noop(h);
}

/// The lowercase hex digit for `n < 16`, as a one-character string slice.
fn hex_digit_str(n: u8) -> (r: &'static str)
    requires
        n < 16,
    ensures
        r@.len() == 1,
        r@[0] == hex_digit_spec(n as int),
{
    proof {
        reveal_strlit("0");
        reveal_strlit("1");
        reveal_strlit("2");
        reveal_strlit("3");
        reveal_strlit("4");
        reveal_strlit("5");
        reveal_strlit("6");
        reveal_strlit("7");
        reveal_strlit("8");
        reveal_strlit("9");
        reveal_strlit("a");
        reveal_strlit("b");
        reveal_strlit("c");
        reveal_strlit("d");
        reveal_strlit("e");
        reveal_strlit("f");
    }
    if n == 0 {
        "0"
    } else if n == 1 {
        "1"
    } else if n == 2 {
        "2"
    } else if n == 3 {
        "3"
    } else if n == 4 {
        "4"
    } else if n == 5 {
        "5"
    } else if n == 6 {
        "6"
    } else if n == 7 {
        "7"
    } else if n == 8 {
        "8"
    } else if n == 9 {
        "9"
    } else if n == 10 {
        "a"
    } else if n == 11 {
        "b"
    } else if n == 12 {
        "c"
    } else if n == 13 {
        "d"
    } else if n == 14 {
        "e"
    } else {
        "f"
    }
}

/// `bytes` rendered as lowercase hex, two characters per byte.
pub fn to_hex(bytes: &Vec<u8>) -> (r: String)
    ensures
        r@ == hex_of(bytes@),
{
    let mut out: String = String::new();
    let n: usize = bytes.len();
    let mut idx: usize = 0;
    proof {
        assert(out@ =~= hex_of(bytes@).subrange(0, 0));
    }
    while idx < n
        invariant
            n == bytes@.len(),
            0 <= idx <= n,
            out@ == hex_of(bytes@).subrange(0, 2 * idx as int),
        decreases n - idx,
    {
        let b = bytes[idx];
        let hi = b >> 4;
        let lo = b & 0x0f;
        assert((b >> 4) < 16 && (b & 0x0f) < 16) by (bit_vector);
        out.append(hex_digit_str(hi));
        out.append(hex_digit_str(lo));
        proof {
            assert(out@ =~= hex_of(bytes@).subrange(0, 2 * (idx + 1) as int));
        }
        idx = idx + 1;
    }
    proof {
        assert(hex_of(bytes@).subrange(0, 2 * n as int) =~= hex_of(bytes@));
    }
    out
}

} // verus!
