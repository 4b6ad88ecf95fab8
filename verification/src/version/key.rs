//! Identity of a version.

use vstd::prelude::*;

use crate::utility::text::{chars_of, push_char};

verus! {

/// Stable identifier of a version, derived from the patches that make it up:
/// the same patches give the same key.
///
/// A key is written as sixteen lowercase hexadecimal digits.
#[derive(Debug, Clone, Copy, PartialEq, Eq, Structural, Hash, PartialOrd, Ord)]
pub struct VersionKey(pub u64);

/// The digit that stands for a value below sixteen.
pub open spec fn hex_digit(value: int) -> char {
    seq!['0', '1', '2', '3', '4', '5', '6', '7', '8', '9', 'a', 'b', 'c', 'd', 'e', 'f'][value]
}

/// The value of a hexadecimal digit of either case.
pub open spec fn digit_value(c: char) -> Option<int> {
    if '0' <= c <= '9' {
        Some(c as int - '0' as int)
    } else if 'a' <= c <= 'f' {
        Some(c as int - 'a' as int + 10)
    } else if 'A' <= c <= 'F' {
        Some(c as int - 'A' as int + 10)
    } else {
        None
    }
}

/// The last `digits` hexadecimal digits of a number, most significant first.
pub open spec fn hex_text(value: nat, digits: nat) -> Seq<char>
    decreases digits,
{
    if digits == 0 {
        Seq::empty()
    } else {
        hex_text(value / 16, (digits - 1) as nat).push(hex_digit((value % 16) as int))
    }
}

/// The number that a run of hexadecimal digits stands for, if every
/// character is such a digit.
pub open spec fn hex_value(text: Seq<char>) -> Option<nat>
    decreases text.len(),
{
    if text.len() == 0 {
        Some(0)
    } else {
        match (hex_value(text.drop_last()), digit_value(text.last())) {
            (Some(high), Some(low)) => Some((high * 16 + low) as nat),
            _ => None,
        }
    }
}

/// Sixteen to the given power.
pub open spec fn sixteen_to(digits: nat) -> nat
    decreases digits,
{
    if digits == 0 {
        1
    } else {
        16 * sixteen_to((digits - 1) as nat)
    }
}

/// The key that a text stands for: one to sixteen hexadecimal digits.
pub open spec fn key_of_text(text: Seq<char>) -> Option<VersionKey> {
    if 1 <= text.len() <= 16 {
        match hex_value(text) {
            Some(value) => Some(VersionKey(value as u64)),
            None => None,
        }
    } else {
        None
    }
}

impl VersionKey {
    /// The key as text.
    pub open spec fn text(&self) -> Seq<char> {
        hex_text(self.0 as nat, 16)
    }

    /// Writes the key as text.
    pub fn to_hex(&self) -> (r: String)
        ensures
            r@ == self.text(),
            key_of_text(r@) == Some(*self),
    {
        let mut r = String::new();
        write_hex(self.0, 16, &mut r);
        proof {
            lemma_key_round_trip(*self);
        }
        r
    }

    /// Reads a key from text.
    pub fn from_hex(text: &str) -> (r: Option<VersionKey>)
        ensures
            r == key_of_text(text@),
    {
        let chars = chars_of(text);
        if chars.len() == 0 || chars.len() > 16 {
            return None;
        }
        let mut value: u64 = 0;
        let mut i: usize = 0;
        while i < chars.len()
            invariant
                i <= chars.len() <= 16,
                chars@ == text@,
                hex_value(chars@.take(i as int)) == Some(value as nat),
                value < sixteen_to(i as nat),
            decreases chars.len() - i,
        {
            proof {
                assert(chars@.take(i + 1).drop_last() =~= chars@.take(i as int));
                assert(chars@.take(i + 1).last() == chars@[i as int]);
                lemma_sixteen_to_grows((i + 1) as nat, 16);
                lemma_sixteen_to_16();
            }
            let c = chars[i];
            let low: u64 = if '0' <= c && c <= '9' {
                (c as u64) - ('0' as u64)
            } else if 'a' <= c && c <= 'f' {
                (c as u64) - ('a' as u64) + 10
            } else if 'A' <= c && c <= 'F' {
                (c as u64) - ('A' as u64) + 10
            } else {
                proof {
                    lemma_hex_value_none(chars@, i as int);
                }
                return None;
            };
            value = value * 16 + low;
            i = i + 1;
        }
        proof {
            assert(chars@.take(chars@.len() as int) =~= chars@);
        }
        Some(VersionKey(value))
    }
}

/// Appends the last `digits` hexadecimal digits of a number.
fn write_hex(value: u64, digits: u32, out: &mut String)
    ensures
        final(out)@ == old(out)@ + hex_text(value as nat, digits as nat),
    decreases digits,
{
    if digits > 0 {
        write_hex(value / 16, digits - 1, out);
        let low = value % 16;
        let c = if low == 0 {
            '0'
        } else if low == 1 {
            '1'
        } else if low == 2 {
            '2'
        } else if low == 3 {
            '3'
        } else if low == 4 {
            '4'
        } else if low == 5 {
            '5'
        } else if low == 6 {
            '6'
        } else if low == 7 {
            '7'
        } else if low == 8 {
            '8'
        } else if low == 9 {
            '9'
        } else if low == 10 {
            'a'
        } else if low == 11 {
            'b'
        } else if low == 12 {
            'c'
        } else if low == 13 {
            'd'
        } else if low == 14 {
            'e'
        } else {
            'f'
        };
        assert(c == hex_digit((value % 16) as int));
        push_char(out, c);
        assert(final(out)@ =~= old(out)@ + hex_text(value as nat, digits as nat));
    } else {
        assert(old(out)@ + hex_text(value as nat, 0) =~= old(out)@);
    }
}

/// A text with a character that is no digit stands for no number.
proof fn lemma_hex_value_none(text: Seq<char>, i: int)
    requires
        0 <= i < text.len(),
        digit_value(text[i]) is None,
    ensures
        hex_value(text) is None,
    decreases text.len(),
{
    if i < text.len() - 1 {
        lemma_hex_value_none(text.drop_last(), i);
    }
}

/// Powers of sixteen grow with the exponent.
proof fn lemma_sixteen_to_grows(low: nat, high: nat)
    requires
        low <= high,
    ensures
        sixteen_to(low) <= sixteen_to(high),
        sixteen_to(low) >= 1,
    decreases high,
{
    if low < high {
        lemma_sixteen_to_grows(low, (high - 1) as nat);
    } else if low > 0 {
        lemma_sixteen_to_grows((low - 1) as nat, (low - 1) as nat);
    }
}

/// Sixteen digits hold exactly the numbers of sixty-four bits.
proof fn lemma_sixteen_to_16()
    ensures
        sixteen_to(16) == 0x1_0000_0000_0000_0000,
{
    reveal_with_fuel(sixteen_to, 17);
}

/// The digits of a number that fits them stand for that number.
pub proof fn lemma_hex_round_trip(value: nat, digits: nat)
    requires
        value < sixteen_to(digits),
    ensures
        hex_text(value, digits).len() == digits,
        hex_value(hex_text(value, digits)) == Some(value),
    decreases digits,
{
    if digits > 0 {
        lemma_hex_round_trip(value / 16, (digits - 1) as nat);
        let text = hex_text(value, digits);
        assert(text.drop_last() =~= hex_text(value / 16, (digits - 1) as nat));
        assert(text.last() == hex_digit((value % 16) as int));
        assert(digit_value(hex_digit((value % 16) as int)) == Some((value % 16) as int));
    }
}

/// Reading the text of a key gives the key back.
pub proof fn lemma_key_round_trip(key: VersionKey)
    ensures
        key_of_text(key.text()) == Some(key),
{
    lemma_sixteen_to_16();
    lemma_hex_round_trip(key.0 as nat, 16);
}

} // verus!
