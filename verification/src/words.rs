//! Fixed-width hexadecimal word encoding.
//!
//! Both oracles report their result as a single 256-bit-word value: the
//! text `0x` followed by exactly 64 lowercase hexadecimal digits, the
//! value left-padded with zeros.  The harness that spawns the oracles
//! decodes that text back into an integer, so the decoder lives here
//! beside the encoder and the two are proved to be inverses.

use vstd::arithmetic::div_mod::{lemma_fundamental_div_mod, lemma_multiply_divide_lt};
use vstd::arithmetic::power::{lemma_pow_multiplies, pow};
use vstd::arithmetic::power2::{lemma2_to64, lemma_pow2, lemma_pow2_adds, pow2};
use vstd::prelude::*;
use vstd::string::*;

verus! {

/// The number of hex digits in an encoded word: 32 bytes, 64 digits.
pub const WORD_HEX_DIGITS: usize = 64;

/// The lowercase hexadecimal digit for a value below 16.
pub open spec fn hex_char_of(d: nat) -> char {
    if d == 0 {
        '0'
    } else if d == 1 {
        '1'
    } else if d == 2 {
        '2'
    } else if d == 3 {
        '3'
    } else if d == 4 {
        '4'
    } else if d == 5 {
        '5'
    } else if d == 6 {
        '6'
    } else if d == 7 {
        '7'
    } else if d == 8 {
        '8'
    } else if d == 9 {
        '9'
    } else if d == 10 {
        'a'
    } else if d == 11 {
        'b'
    } else if d == 12 {
        'c'
    } else if d == 13 {
        'd'
    } else if d == 14 {
        'e'
    } else {
        'f'
    }
}

/// The `width` least significant hex digits of `n`, most significant first.
pub open spec fn hex_digits(n: nat, width: nat) -> Seq<char>
    decreases width,
{
    if width == 0 {
        Seq::empty()
    } else {
        hex_digits(n / 16, (width - 1) as nat).push(hex_char_of(n % 16))
    }
}

/// The full encoded word for `n`: the `0x` prefix and 64 zero-padded digits.
pub open spec fn word_of(n: nat) -> Seq<char> {
    seq!['0', 'x'] + hex_digits(n, WORD_HEX_DIGITS as nat)
}

/// Whether `c` is a lowercase hexadecimal digit.
pub open spec fn is_hex_digit(c: char) -> bool {
    ('0' as int <= c as int && c as int <= '9' as int) || ('a' as int <= c as int && c as int
        <= 'f' as int)
}

/// The numeric value of a lowercase hexadecimal digit.
pub open spec fn hex_val(c: char) -> nat {
    if '0' as int <= c as int && c as int <= '9' as int {
        (c as int - '0' as int) as nat
    } else if 'a' as int <= c as int && c as int <= 'f' as int {
        (c as int - 'a' as int + 10) as nat
    } else {
        0
    }
}

/// The value of a sequence of hex digits, most significant first.
pub open spec fn hex_value(s: Seq<char>) -> nat
    decreases s.len(),
{
    if s.len() == 0 {
        0
    } else {
        hex_value(s.drop_last()) * 16 + hex_val(s.last())
    }
}

/// Whether `s` is a well-formed encoded word: the `0x` prefix followed by
/// exactly 64 lowercase hex digits.
pub open spec fn is_word(s: Seq<char>) -> bool {
    &&& s.len() == 2 + WORD_HEX_DIGITS
    &&& s[0] == '0'
    &&& s[1] == 'x'
    &&& forall|i: int| 2 <= i < s.len() ==> is_hex_digit(#[trigger] s[i])
}

/// The integer a well-formed word stands for.
pub open spec fn word_value(s: Seq<char>) -> nat {
    hex_value(s.subrange(2, 2 + WORD_HEX_DIGITS as int))
}

proof fn lemma_hex_digits_len(n: nat, width: nat)
    ensures
        hex_digits(n, width).len() == width,
    decreases width,
{
    if width > 0 {
        lemma_hex_digits_len(n / 16, (width - 1) as nat);
    }
}

fn hex_digit_char(d: u8) -> (r: &'static str)
    requires
        d < 16,
    ensures
        r@.len() == 1,
        r@[0] == hex_char_of(d as nat),
{
    proof {
        reveal_strlit("0");
        reveal_strlit("1");
        reveal_strlit("2");
        reveal_strlit("3");
        reveal_strlit("4");
        reveal_strlit("5");
        reveal_strlit("6");
        reveal_strlit("7");
        reveal_strlit("8");
        reveal_strlit("9");
        reveal_strlit("a");
        reveal_strlit("b");
        reveal_strlit("c");
        reveal_strlit("d");
        reveal_strlit("e");
        reveal_strlit("f");
    }
    if d == 0 {
        "0"
    } else if d == 1 {
        "1"
    } else if d == 2 {
        "2"
    } else if d == 3 {
        "3"
    } else if d == 4 {
        "4"
    } else if d == 5 {
        "5"
    } else if d == 6 {
        "6"
    } else if d == 7 {
        "7"
    } else if d == 8 {
        "8"
    } else if d == 9 {
        "9"
    } else if d == 10 {
        "a"
    } else if d == 11 {
        "b"
    } else if d == 12 {
        "c"
    } else if d == 13 {
        "d"
    } else if d == 14 {
        "e"
    } else {
        "f"
    }
}

fn push_hex(s: &mut String, n: u128, width: usize)
    ensures
        final(s)@ == old(s)@ + hex_digits(n as nat, width as nat),
    decreases width,
{
    if width == 0 {
        proof {
            assert(old(s)@ + hex_digits(n as nat, 0) =~= old(s)@);
        }
    } else {
        push_hex(s, n / 16, width - 1);
        let digit = hex_digit_char((n % 16) as u8);
        s.append(digit);
        proof {
            assert((n / 16) as nat == (n as nat) / 16);
            assert(((n % 16) as u8) as nat == (n as nat) % 16);
            assert(s@ =~= old(s)@ + hex_digits(n as nat, width as nat));
        }
    }
}

/// Encode `value` as the canonical 66-character word: `0x` followed by its
/// 64 lowercase hex digits, left-padded with zeros.
pub fn encode_word(value: u128) -> (r: String)
    ensures
        r@ == word_of(value as nat),
        r@.len() == 2 + WORD_HEX_DIGITS,
{
    let mut s = "0x".to_owned();
    proof {
        reveal_strlit("0x");
    }
    push_hex(&mut s, value, WORD_HEX_DIGITS);
    proof {
        lemma_hex_digits_len(value as nat, WORD_HEX_DIGITS as nat);
        assert(s@ =~= word_of(value as nat));
    }
    s
}

proof fn lemma_hex_value_step(t: Seq<char>, k: int)
    requires
        0 <= k < t.len(),
    ensures
        hex_value(t.subrange(0, k + 1)) == hex_value(t.subrange(0, k)) * 16 + hex_val(t[k]),
{
    let u = t.subrange(0, k + 1);
    assert(u.drop_last() =~= t.subrange(0, k));
    assert(u.last() == t[k]);
}

proof fn lemma_hex_value_prefix_le(t: Seq<char>, k: int)
    requires
        0 <= k <= t.len(),
    ensures
        hex_value(t.subrange(0, k)) <= hex_value(t),
    decreases t.len() - k,
{
    if k == t.len() {
        assert(t.subrange(0, k) =~= t);
    } else {
        lemma_hex_value_step(t, k);
        lemma_hex_value_prefix_le(t, k + 1);
    }
}

/// Decode an encoded word back into the integer it stands for.  Returns
/// `None` when the text is not a well-formed word, or when the encoded
/// value does not fit in 128 bits.
pub fn decode_word(s: &str) -> (r: Option<u128>)
    ensures
        r == (if is_word(s@) && word_value(s@) <= u128::MAX {
            Some(word_value(s@) as u128)
        } else {
            None::<u128>
        }),
{
    let len: usize = s.unicode_len();
    if len != 2 + WORD_HEX_DIGITS {
        return None;
    }
    if s.get_char(0) != '0' || s.get_char(1) != 'x' {
        return None;
    }
    let ghost digits = s@.subrange(2, 2 + WORD_HEX_DIGITS as int);
    let mut acc: u128 = 0;
    let mut i: usize = 2;
    while i < 2 + WORD_HEX_DIGITS
        invariant
            2 <= i <= 2 + WORD_HEX_DIGITS,
            s@.len() == 2 + WORD_HEX_DIGITS,
            digits == s@.subrange(2, 2 + WORD_HEX_DIGITS as int),
            forall|j: int| 0 <= j < i - 2 ==> is_hex_digit(#[trigger] digits[j]),
            acc as nat == hex_value(digits.subrange(0, i - 2)),
        decreases 2 + WORD_HEX_DIGITS - i,
    {
        let c = s.get_char(i);
        let cu: u32 = c as u32;
        proof {
            assert(digits[i - 2] == s@[i as int]);
        }
        let v: u8 = if '0' as u32 <= cu && cu <= '9' as u32 {
            (cu - '0' as u32) as u8
        } else if 'a' as u32 <= cu && cu <= 'f' as u32 {
            (cu - 'a' as u32 + 10) as u8
        } else {
            proof {
                assert(!is_hex_digit(digits[i - 2]));
            }
            return None;
        };
        proof {
            assert(is_hex_digit(digits[i - 2]));
            assert(v as nat == hex_val(digits[i - 2]));
            lemma_hex_value_step(digits, i - 2);
        }
        let shifted = match acc.checked_mul(16) {
            Some(m) => m.checked_add(v as u128),
            None => None,
        };
        match shifted {
            Some(next) => {
                acc = next;
            },
            None => {
                proof {
                    if is_word(s@) {
                        lemma_hex_value_prefix_le(digits, i - 1);
                        assert(digits.subrange(0, WORD_HEX_DIGITS as int) =~= digits);
                        assert(word_value(s@) > u128::MAX);
                    }
                }
                return None;
            },
        }
        i += 1;
    }
    proof {
        assert(digits.subrange(0, WORD_HEX_DIGITS as int) =~= digits);
        assert forall|j: int| 2 <= j < s@.len() implies is_hex_digit(#[trigger] s@[j]) by {
            assert(s@[j] == digits[j - 2]);
        }
        assert(is_word(s@));
        assert(acc as nat == word_value(s@));
    }
    Some(acc)
}

proof fn lemma_hex_digits_are_digits(n: nat, width: nat)
    ensures
        forall|i: int|
            0 <= i < hex_digits(n, width).len() ==> is_hex_digit(#[trigger] hex_digits(n, width)[i]),
    decreases width,
{
    if width > 0 {
        lemma_hex_digits_are_digits(n / 16, (width - 1) as nat);
        lemma_hex_digits_len(n / 16, (width - 1) as nat);
        assert(is_hex_digit(hex_char_of(n % 16)));
        assert forall|i: int| 0 <= i < hex_digits(n, width).len() implies is_hex_digit(
            #[trigger] hex_digits(n, width)[i],
        ) by {
            if i < width - 1 {
                assert(hex_digits(n, width)[i] == hex_digits(n / 16, (width - 1) as nat)[i]);
            } else {
                assert(hex_digits(n, width)[i] == hex_char_of(n % 16));
            }
        }
    }
}

proof fn lemma_hex_digits_value(n: nat, width: nat)
    requires
        n < pow(16, width),
    ensures
        hex_value(hex_digits(n, width)) == n,
    decreases width,
{
    reveal(pow);
    if width == 0 {
        assert(pow(16, 0) == 1);
    } else {
        assert(pow(16, width) == 16 * pow(16, (width - 1) as nat));
        lemma_multiply_divide_lt(n as int, 16, pow(16, (width - 1) as nat));
        lemma_hex_digits_value(n / 16, (width - 1) as nat);
        lemma_hex_digits_len(n / 16, (width - 1) as nat);
        let ds = hex_digits(n, width);
        assert(ds.drop_last() =~= hex_digits(n / 16, (width - 1) as nat));
        assert(ds.last() == hex_char_of(n % 16));
        assert(hex_val(hex_char_of(n % 16)) == n % 16);
        lemma_fundamental_div_mod(n as int, 16);
    }
}

proof fn lemma_u128_below_word_range(n: u128)
    ensures
        (n as nat) < pow(16, WORD_HEX_DIGITS as nat),
{
    lemma_pow_multiplies(2, 4, WORD_HEX_DIGITS as nat);
    assert(pow(2, 4) == 16) by {
        reveal_with_fuel(pow, 5);
    }
    lemma_pow2(256);
    lemma_pow2_adds(128, 128);
    lemma_pow2_adds(64, 64);
    lemma2_to64();
    assert(pow2(128) == 0x100000000000000000000000000000000);
    assert(pow2(256) == 0x100000000000000000000000000000000 * 0x100000000000000000000000000000000);
}

/// Encoding then decoding is the identity: the 66-character word written
/// for any 128-bit value is well formed and stands for that value again.
pub proof fn lemma_word_round_trip(value: u128)
    ensures
        is_word(word_of(value as nat)),
        word_value(word_of(value as nat)) == value as nat,
{
    let n = value as nat;
    let w = word_of(n);
    lemma_hex_digits_len(n, WORD_HEX_DIGITS as nat);
    lemma_hex_digits_are_digits(n, WORD_HEX_DIGITS as nat);
    assert forall|i: int| 2 <= i < w.len() implies is_hex_digit(#[trigger] w[i]) by {
        assert(w[i] == hex_digits(n, WORD_HEX_DIGITS as nat)[i - 2]);
    }
    lemma_u128_below_word_range(value);
    lemma_hex_digits_value(n, WORD_HEX_DIGITS as nat);
    assert(w.subrange(2, 2 + WORD_HEX_DIGITS as int) =~= hex_digits(n, WORD_HEX_DIGITS as nat));
}

} // verus!
