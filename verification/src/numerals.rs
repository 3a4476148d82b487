//! Decimal numerals: parsing the index the user types for the complete and
//! remove operations, and formatting the 1-based index shown in a listing.

use vstd::prelude::*;

verus! {

/// An ASCII decimal digit.
pub open spec fn is_digit(c: char) -> bool {
    '0' <= c && c <= '9'
}

/// The value of one digit.
pub open spec fn digit_val(c: char) -> nat {
    ((c as int) - ('0' as int)) as nat
}

/// The value of a digit string read in base ten.
pub open spec fn digits_value(s: Seq<char>) -> nat
    decreases s.len(),
{
    if s.len() == 0 {
        0
    } else {
        digits_value(s.drop_last()) * 10 + digit_val(s.last())
    }
}

/// The digits a numeral is read from: the text with one leading plus sign,
/// if any, taken off.
pub open spec fn numeral_body(s: Seq<char>) -> Seq<char> {
    if s.len() >= 1 && s[0] == '+' {
        s.drop_first()
    } else {
        s
    }
}

/// What a trimmed input denotes as an unsigned decimal numeral: an optional
/// leading plus sign followed by at least one digit and nothing else. Any
/// other text — empty, a minus sign, stray characters — denotes nothing.
pub open spec fn numeral_of(s: Seq<char>) -> Option<nat> {
    let body = numeral_body(s);
    if body.len() >= 1 && (forall|i: int| 0 <= i < body.len() ==> is_digit(#[trigger] body[i])) {
        Some(digits_value(body))
    } else {
        None
    }
}

/// The decimal digit string of a number, most significant digit first,
/// without sign or leading zeros (the number zero prints as one digit).
pub open spec fn dec_digits(n: nat) -> Seq<char>
    decreases n,
{
    if n < 10 {
        seq![digit_char(n)]
    } else {
        dec_digits(n / 10) + seq![digit_char(n % 10)]
    }
}

/// The digit character of a value below ten.
pub open spec fn digit_char(d: nat) -> char {
    if d == 0 {
        '0'
    } else if d == 1 {
        '1'
    } else if d == 2 {
        '2'
    } else if d == 3 {
        '3'
    } else if d == 4 {
        '4'
    } else if d == 5 {
        '5'
    } else if d == 6 {
        '6'
    } else if d == 7 {
        '7'
    } else if d == 8 {
        '8'
    } else {
        '9'
    }
}

/// Parses a trimmed input line as a task number, as the index prompt of the
/// complete and remove operations reads it. Returns the denoted value
/// exactly when the text is a decimal numeral whose value fits the machine's
/// index type; anything else — including a numeral too large to represent —
/// is rejected.
pub fn parse_index(s: &str) -> (r: Option<usize>)
    ensures
        match numeral_of(s@) {
            Some(v) => if v <= usize::MAX {
                r == Some(v as usize)
            } else {
                r is None
            },
            None => r is None,
        },
{
    let len = s.unicode_len();
    let first_digit: usize = if len >= 1 && s.get_char(0) == '+' {
        1
    } else {
        0
    };
    let ghost body = numeral_body(s@);
    if len == first_digit {
        return None;
    }
    let mut acc: usize = 0;
    let mut i: usize = first_digit;
    while i < len
        invariant
            first_digit <= i <= len,
            len == s@.len(),
            first_digit == 1 ==> s@.len() >= 1 && s@[0] == '+',
            first_digit == 0 ==> !(s@.len() >= 1 && s@[0] == '+'),
            body == numeral_body(s@),
            body.len() == len - first_digit,
            forall|k: int| 0 <= k < body.len() ==> #[trigger] body[k] == s@[k + first_digit],
            forall|k: int| first_digit <= k < i ==> is_digit(#[trigger] s@[k]),
            acc == digits_value(body.take(i - first_digit)),
        decreases len - i,
    {
        let c = s.get_char(i);
        if !(c >= '0' && c <= '9') {
            proof {
                assert(body.len() == len - first_digit);
                if first_digit == 1 {
                    assert(body[i - 1] == s@.drop_first()[i - 1]);
                    assert(body[i - 1] == s@[i as int]);
                } else {
                    assert(body[i as int] == s@[i as int]);
                }
                assert(!is_digit(body[i - first_digit]));
            }
            return None;
        }
        let d: usize = (c as u32 as usize) - 48;
        proof {
            assert(c as u32 >= 48 && c as u32 <= 57);
            let m = i - first_digit;
            assert(body.take(m + 1).drop_last() =~= body.take(m));
            assert(body.take(m + 1).last() == body[m]);
            assert(body[m] == s@[i as int]);
            assert(digit_val(body[m]) == d);
            assert(digits_value(body.take(m + 1)) == acc * 10 + d);
            lemma_digits_value_bound(body, m + 1, body.len() as int);
            assert(body.take(body.len() as int) =~= body);
            assert(digits_value(body) >= acc * 10 + d);
        }
        let scaled = match acc.checked_mul(10) {
            Some(m) => m,
            None => {
                return None;
            },
        };
        let next = match scaled.checked_add(d) {
            Some(a) => a,
            None => {
                return None;
            },
        };
        acc = next;
        i += 1;
    }
    proof {
        assert(body.take(len - first_digit) =~= body);
    }
    Some(acc)
}

/// A longer digit prefix denotes at least as large a value; so if the value
/// of a prefix already overflows, the whole numeral's value does too.
proof fn lemma_digits_value_bound(s: Seq<char>, i: int, j: int)
    requires
        0 <= i <= j <= s.len(),
    ensures
        digits_value(s.take(j)) >= digits_value(s.take(i)),
    decreases j - i,
{
    if i < j {
        lemma_digits_value_bound(s, i, j - 1);
        assert(s.take(j).drop_last() =~= s.take(j - 1));
        assert(digits_value(s.take(j)) == digits_value(s.take(j - 1)) * 10 + digit_val(
            s.take(j).last(),
        ));
        assert(digits_value(s.take(j - 1)) * 10 >= digits_value(s.take(j - 1)));
    }
}

/// The digit string of a value below ten, as static text.
fn digit_str(d: usize) -> (r: &'static str)
    requires
        d < 10,
    ensures
        r@ == seq![digit_char(d as nat)],
{
    proof {
        reveal_strlit("0");
        reveal_strlit("1");
        reveal_strlit("2");
        reveal_strlit("3");
        reveal_strlit("4");
        reveal_strlit("5");
        reveal_strlit("6");
        reveal_strlit("7");
        reveal_strlit("8");
        reveal_strlit("9");
    }
    if d == 0 {
        "0"
    } else if d == 1 {
        "1"
    } else if d == 2 {
        "2"
    } else if d == 3 {
        "3"
    } else if d == 4 {
        "4"
    } else if d == 5 {
        "5"
    } else if d == 6 {
        "6"
    } else if d == 7 {
        "7"
    } else if d == 8 {
        "8"
    } else {
        "9"
    }
}

/// Formats a number as its decimal digit string, as the listing shows a
/// task's 1-based index.
pub fn format_index(n: usize) -> (r: String)
    ensures
        r@ == dec_digits(n as nat),
    decreases n,
{
    if n < 10 {
        digit_str(n).to_owned()
    } else {
        let mut s = format_index(n / 10);
        s.append(digit_str(n % 10));
        proof {
            assert(s@ =~= dec_digits(n as nat));
        }
        s
    }
}

} // verus!
