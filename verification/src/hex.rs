//! Colours from text: `#rrggbb`.

use vstd::prelude::*;
use vstd::string::StringSliceAdditionalSpecFns;
use crate::canvas::Color;

verus! {

/// The value of a hexadecimal digit, in either case.
pub open spec fn hex_digit(b: u8) -> Option<int> {
    if 0x30 <= b <= 0x39 {
        Some(b - 0x30)
    } else if 0x61 <= b <= 0x66 {
        Some(b - 0x61 + 10)
    } else if 0x41 <= b <= 0x46 {
        Some(b - 0x41 + 10)
    } else {
        None
    }
}

/// The number that the hexadecimal digits of `s` write, or `None` where a
/// byte of `s` is no such digit.
pub open spec fn hex_digits_value(s: Seq<u8>) -> Option<int>
    decreases s.len(),
{
    if s.len() == 0 {
        Some(0)
    } else {
        match (hex_digits_value(s.drop_last()), hex_digit(s.last())) {
            (Some(v), Some(d)) => Some(16 * v + d),
            _ => None,
        }
    }
}

/// The number that `s` writes in base 16: an optional `+`, then one digit
/// or more, and nothing else.
pub open spec fn hex_number(s: Seq<u8>) -> Option<int> {
    let digits = if s.len() > 0 && s[0] == 0x2b {
        s.skip(1)
    } else {
        s
    };
    if digits.len() == 0 {
        None
    } else {
        hex_digits_value(digits)
    }
}

/// The colour whose channels are the three low bytes of `code`: red the
/// highest of them, blue the lowest.
pub open spec fn color_of_code(code: int) -> Color {
    Color {
        r: (code / 0x1_0000 % 0x100) as u8,
        g: (code / 0x100 % 0x100) as u8,
        b: (code % 0x100) as u8,
    }
}

/// The colour that the text with the bytes `text` names: the text is 7
/// bytes long, starts with `#`, and the rest is a number in base 16.
pub open spec fn parsed_color(text: Seq<u8>) -> Option<Color> {
    if text.len() == 7 && text[0] == 0x23 {
        match hex_number(text.skip(1)) {
            Some(code) => Some(color_of_code(code)),
            None => None,
        }
    } else {
        None
    }
}

/// 16 to the power `n`.
spec fn pow16(n: nat) -> int
    decreases n,
{
    if n == 0 {
        1
    } else {
        16 * pow16((n - 1) as nat)
    }
}

/// `n` digits write a number below `16^n`.
proof fn lemma_hex_digits_bound(s: Seq<u8>)
    ensures
        hex_digits_value(s) matches Some(v) ==> 0 <= v < pow16(s.len()),
    decreases s.len(),
{
    if s.len() > 0 {
        lemma_hex_digits_bound(s.drop_last());
    }
}

/// The value of the hexadecimal digit `b`.
fn hex_digit_of(b: u8) -> (d: Option<u32>)
    ensures
        match d {
            Some(v) => hex_digit(b) == Some(v as int) && v < 16,
            None => hex_digit(b) is None,
        },
{
    if 0x30 <= b && b <= 0x39 {
        Some((b - 0x30) as u32)
    } else if 0x61 <= b && b <= 0x66 {
        Some((b - 0x61 + 10) as u32)
    } else if 0x41 <= b && b <= 0x46 {
        Some((b - 0x41 + 10) as u32)
    } else {
        None
    }
}

/// Reads a colour written as `#rrggbb`. The text must be 7 bytes long and
/// start with `#`; what follows must be a number in base 16, which may
/// start with `+`.
pub fn parse_color(s: &str) -> (c: Option<Color>)
    ensures
        c == parsed_color(s.spec_bytes()),
{
    let text = s.as_bytes();
    if text.len() != 7 || text[0] != 0x23 {
        return None;
    }
    let start: usize = if text[1] == 0x2b {
        2
    } else {
        1
    };
    let ghost digits = text@.subrange(start as int, 7);
    proof {
        let number = text@.skip(1);
        if text@[1] == 0x2b {
            assert(number.skip(1) =~= digits);
        } else {
            assert(number =~= digits);
        }
        assert(digits.take(0) =~= Seq::<u8>::empty());
        assert(hex_number(number) == hex_digits_value(digits));
    }
    let mut code: u32 = 0;
    let mut i: usize = start;
    while i < 7
        invariant
            1 <= start <= i <= 7,
            text@.len() == 7,
            digits == text@.subrange(start as int, 7),
            text@ == s.spec_bytes(),
            text@[0] == 0x23,
            hex_number(text@.skip(1)) == hex_digits_value(digits),
            hex_digits_value(digits.take(i - start)) == Some(code as int),
        decreases 7 - i,
    {
        proof {
            lemma_hex_digits_bound(digits.take(i - start));
            reveal_with_fuel(pow16, 7);
            assert(digits.take(i - start + 1).drop_last() =~= digits.take(i - start));
        }
        match hex_digit_of(text[i]) {
            Some(d) => {
                code = code * 16 + d;
            },
            None => {
                proof {
                    assert(digits.take(i - start + 1).last() == text@[i as int]);
                    lemma_digits_fail_on(digits, i - start + 1);
                }
                return None;
            },
        }
        i = i + 1;
    }
    assert(digits.take(7 - start) =~= digits);
    Some(
        Color::new(
            (code / 0x1_0000 % 0x100) as u8,
            (code / 0x100 % 0x100) as u8,
            (code % 0x100) as u8,
        ),
    )
}

/// Once a prefix holds a byte that is no digit, the whole does.
proof fn lemma_digits_fail_on(s: Seq<u8>, n: int)
    requires
        0 <= n <= s.len(),
        hex_digits_value(s.take(n)) is None,
    ensures
        hex_digits_value(s) is None,
    decreases s.len() - n,
{
    if n < s.len() {
        assert(s.take(n + 1).drop_last() =~= s.take(n));
        lemma_digits_fail_on(s, n + 1);
    } else {
        assert(s.take(n) =~= s);
    }
}

} // verus!
