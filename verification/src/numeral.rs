//! Parsing of non-negative decimal numerals from argument text.
//!
//! Both oracles receive their integer argument as decimal text.  A
//! numeral is an optional leading `+` followed by one or more decimal
//! digits; anything else, and any value that does not fit in 128 bits,
//! is rejected.

use vstd::prelude::*;
use vstd::string::*;

verus! {

/// Whether `c` is a decimal digit.
pub open spec fn is_dec_digit(c: char) -> bool {
    '0' as int <= c as int && c as int <= '9' as int
}

/// The numeric value of a decimal digit.
pub open spec fn dec_val(c: char) -> nat {
    if is_dec_digit(c) {
        (c as int - '0' as int) as nat
    } else {
        0
    }
}

/// The value of a sequence of decimal digits, most significant first.
pub open spec fn dec_value(s: Seq<char>) -> nat
    decreases s.len(),
{
    if s.len() == 0 {
        0
    } else {
        dec_value(s.drop_last()) * 10 + dec_val(s.last())
    }
}

/// The digits of a numeral: the text with a single leading `+` removed.
pub open spec fn numeral_body(s: Seq<char>) -> Seq<char> {
    if s.len() > 0 && s[0] == '+' {
        s.subrange(1, s.len() as int)
    } else {
        s
    }
}

/// Whether `s` is a well-formed numeral: at least one digit after the
/// optional sign, and nothing but digits.
pub open spec fn is_numeral(s: Seq<char>) -> bool {
    &&& numeral_body(s).len() > 0
    &&& forall|i: int| 0 <= i < numeral_body(s).len() ==> is_dec_digit(#[trigger] numeral_body(s)[i])
}

proof fn lemma_dec_value_step(t: Seq<char>, k: int)
    requires
        0 <= k < t.len(),
    ensures
        dec_value(t.subrange(0, k + 1)) == dec_value(t.subrange(0, k)) * 10 + dec_val(t[k]),
{
    let u = t.subrange(0, k + 1);
    assert(u.drop_last() =~= t.subrange(0, k));
    assert(u.last() == t[k]);
}

proof fn lemma_dec_value_prefix_le(t: Seq<char>, k: int)
    requires
        0 <= k <= t.len(),
    ensures
        dec_value(t.subrange(0, k)) <= dec_value(t),
    decreases t.len() - k,
{
    if k == t.len() {
        assert(t.subrange(0, k) =~= t);
    } else {
        lemma_dec_value_step(t, k);
        lemma_dec_value_prefix_le(t, k + 1);
    }
}

/// Parse a non-negative decimal numeral.  Returns `None` when the text
/// is not a numeral or its value does not fit in 128 bits; this is how
/// an oracle recognises an invalid integer argument.
pub fn parse_u128(s: &str) -> (r: Option<u128>)
    ensures
        r == (if is_numeral(s@) && dec_value(numeral_body(s@)) <= u128::MAX {
            Some(dec_value(numeral_body(s@)) as u128)
        } else {
            None::<u128>
        }),
{
    let len: usize = s.unicode_len();
    let start: usize = if len > 0 && s.get_char(0) == '+' {
        1
    } else {
        0
    };
    let ghost body = numeral_body(s@);
    proof {
        if start == 1 {
            assert(body =~= s@.subrange(1, len as int));
        }
        assert(body.len() == len - start);
    }
    if len == start {
        return None;
    }
    let mut acc: u128 = 0;
    let mut i: usize = start;
    while i < len
        invariant
            start <= i <= len,
            s@.len() == len,
            body == numeral_body(s@),
            body.len() == len - start,
            forall|j: int| 0 <= j < i - start ==> #[trigger] body[j] == s@[j + start],
            forall|j: int| 0 <= j < i - start ==> is_dec_digit(#[trigger] body[j]),
            acc as nat == dec_value(body.subrange(0, i - start)),
        decreases len - i,
    {
        let c = s.get_char(i);
        let cu: u32 = c as u32;
        proof {
            assert(body[i - start] == s@[i as int]);
        }
        let v: u8 = if '0' as u32 <= cu && cu <= '9' as u32 {
            (cu - '0' as u32) as u8
        } else {
            proof {
                assert(!is_dec_digit(body[i - start]));
            }
            return None;
        };
        proof {
            assert(is_dec_digit(body[i - start]));
            assert(v as nat == dec_val(body[i - start]));
            lemma_dec_value_step(body, i - start);
        }
        let shifted = match acc.checked_mul(10) {
            Some(m) => m.checked_add(v as u128),
            None => None,
        };
        match shifted {
            Some(next) => {
                acc = next;
            },
            None => {
                proof {
                    if is_numeral(s@) {
                        lemma_dec_value_prefix_le(body, i + 1 - start);
                        assert(body.subrange(0, body.len() as int) =~= body);
                        assert(dec_value(body) > u128::MAX);
                    }
                }
                return None;
            },
        }
        i += 1;
    }
    proof {
        assert(body.subrange(0, body.len() as int) =~= body);
        assert(is_numeral(s@));
    }
    Some(acc)
}

} // verus!
