//! The selection cookie: the id of the dictionary that a client has in view.
//!
//! The cookie is what the client sends, so nothing in it is trusted: its
//! value is parsed here, and the id it names is looked up in the live
//! registry on every request.

use vstd::prelude::*;

verus! {

/// Name of the cookie that carries the id of the selected dictionary.
pub const DICT_COOKIE_NAME: &'static str = "dict_id";

/// `c` is one of the ten decimal digits.
pub open spec fn is_digit(c: char) -> bool {
    '0' <= c <= '9'
}

/// The number that a decimal digit stands for.
pub open spec fn digit_value(c: char) -> nat {
    (c as u32 - '0' as u32) as nat
}

/// The decimal digit that stands for a number below ten.
pub open spec fn digit_char(d: nat) -> char {
    ('0' as u32 + d) as char
}

/// Every character is a decimal digit.
pub open spec fn all_digits(text: Seq<char>) -> bool {
    forall|i: int| 0 <= i < text.len() ==> is_digit(#[trigger] text[i])
}

/// The number that a sequence of decimal digits stands for.
pub open spec fn decimal_value(digits: Seq<char>) -> nat
    decreases digits.len(),
{
    if digits.len() == 0 {
        0
    } else {
        decimal_value(digits.drop_last()) * 10 + digit_value(digits.last())
    }
}

/// The text without the plus sign that may stand in front of a number.
pub open spec fn unsigned_part(text: Seq<char>) -> Seq<char> {
    if text.len() > 0 && text[0] == '+' {
        text.drop_first()
    } else {
        text
    }
}

/// The id that a cookie value names: the value is an optional plus sign and
/// then one or more decimal digits, nothing else, and the number fits an id.
pub open spec fn parsed_id(text: Seq<char>) -> Option<u32> {
    let digits = unsigned_part(text);
    if digits.len() > 0 && all_digits(digits) && decimal_value(digits) <= u32::MAX {
        Some(decimal_value(digits) as u32)
    } else {
        None
    }
}

/// The decimal digits of a number, without leading zeros.
pub open spec fn decimal_digits(n: nat) -> Seq<char>
    decreases n,
{
    if n < 10 {
        seq![digit_char(n)]
    } else {
        decimal_digits(n / 10).push(digit_char(n % 10))
    }
}

/// The value of `Set-Cookie` that selects the dictionary `id`.
pub open spec fn selection_cookie(id: u32) -> Seq<char> {
    "dict_id="@ + decimal_digits(id as nat)
}

/// A number only grows when a digit is appended to its digits.
proof fn lemma_decimal_value_push(digits: Seq<char>, c: char)
    ensures
        decimal_value(digits.push(c)) == decimal_value(digits) * 10 + digit_value(c),
{
    assert(digits.push(c).drop_last() == digits);
}

/// Reads the id that a cookie value names; `None` where the value is not a
/// decimal number that fits an id.
pub fn parse_id(text: &str) -> (id: Option<u32>)
    ensures
        id == parsed_id(text@),
{
    let mut value: u64 = 0;
    let mut valid = true;
    let mut any_digit = false;
    let mut at_start = true;
    for c in it: text.chars()
        invariant
            it.seq() == text@,
            at_start == (it.index() == 0),
            any_digit == (unsigned_part(text@.take(it.index())).len() > 0),
            valid <==> all_digits(unsigned_part(text@.take(it.index()))) && decimal_value(
                unsigned_part(text@.take(it.index())),
            ) <= u32::MAX,
            valid ==> value == decimal_value(unsigned_part(text@.take(it.index()))),
    {
        let ghost before = text@.take(it.index());
        let ghost now = text@.take(it.index() + 1);
        proof {
            assert(now == before.push(c));
        }
        if at_start && c == '+' {
            assert(unsigned_part(now) =~= Seq::<char>::empty());
        } else {
            let ghost digits = unsigned_part(before);
            proof {
                assert(unsigned_part(now) =~= digits.push(c));
                lemma_decimal_value_push(digits, c);
                if all_digits(digits.push(c)) {
                    assert forall|i: int| 0 <= i < digits.len() implies is_digit(
                        #[trigger] digits[i],
                    ) by {
                        assert(digits.push(c)[i] == digits[i]);
                    }
                } else if all_digits(digits) {
                    assert(!is_digit(c)) by {
                        if is_digit(c) {
                            assert forall|i: int| 0 <= i < digits.push(c).len() implies is_digit(
                                #[trigger] digits.push(c)[i],
                            ) by {
                                if i < digits.len() {
                                    assert(digits.push(c)[i] == digits[i]);
                                }
                            }
                        }
                    }
                }
            }
            any_digit = true;
            if valid {
                if c >= '0' && c <= '9' {
                    let digit: u64 = (c as u32 - '0' as u32) as u64;
                    value = value * 10 + digit;
                    if value > u32::MAX as u64 {
                        valid = false;
                    }
                } else {
                    assert(!is_digit(digits.push(c)[digits.len() as int]));
                    valid = false;
                }
            }
        }
        at_start = false;
    }
    assert(text@.take(text@.len() as int) == text@);
    if valid && any_digit {
        Some(value as u32)
    } else {
        None
    }
}

/// The text of one decimal digit.
fn digit_text(d: u32) -> (text: &'static str)
    requires
        d < 10,
    ensures
        text@ == seq![digit_char(d as nat)],
{
    proof {
        reveal_strlit("0");
        reveal_strlit("1");
        reveal_strlit("2");
        reveal_strlit("3");
        reveal_strlit("4");
        reveal_strlit("5");
        reveal_strlit("6");
        reveal_strlit("7");
        reveal_strlit("8");
        reveal_strlit("9");
    }
    let text = if d == 0 {
        "0"
    } else if d == 1 {
        "1"
    } else if d == 2 {
        "2"
    } else if d == 3 {
        "3"
    } else if d == 4 {
        "4"
    } else if d == 5 {
        "5"
    } else if d == 6 {
        "6"
    } else if d == 7 {
        "7"
    } else if d == 8 {
        "8"
    } else {
        "9"
    };
    assert(text@ =~= seq![digit_char(d as nat)]);
    text
}

/// Appends the decimal digits of `n` to `out`.
fn push_decimal(out: &mut String, n: u32)
    ensures
        final(out)@ == old(out)@ + decimal_digits(n as nat),
    decreases n,
{
    if n >= 10 {
        push_decimal(out, n / 10);
    }
    out.append(digit_text(n % 10));
    proof {
        if n >= 10 {
            assert(out@ =~= old(out)@ + decimal_digits((n / 10) as nat).push(
                digit_char((n % 10) as nat),
            ));
        } else {
            assert(out@ =~= old(out)@ + seq![digit_char(n as nat)]);
        }
    }
}

/// The value of `Set-Cookie` that makes a client select the dictionary `id`.
pub fn format_cookie(id: u32) -> (cookie: String)
    ensures
        cookie@ == selection_cookie(id),
{
    let mut cookie = "dict_id=".to_owned();
    push_decimal(&mut cookie, id);
    cookie
}

/// The digits of a number are digits, begin with no sign and stand for the
/// number.
proof fn lemma_decimal_digits(n: nat)
    ensures
        decimal_digits(n).len() > 0,
        all_digits(decimal_digits(n)),
        decimal_digits(n)[0] != '+',
        decimal_value(decimal_digits(n)) == n,
    decreases n,
{
    let digits = decimal_digits(n);
    if n < 10 {
        assert(digits.drop_last() =~= Seq::<char>::empty());
        assert(decimal_value(digits.drop_last()) == 0);
        assert(digit_value(digit_char(n)) == n);
    } else {
        let front = decimal_digits(n / 10);
        lemma_decimal_digits(n / 10);
        lemma_decimal_value_push(front, digit_char(n % 10));
        assert(digit_value(digit_char(n % 10)) == n % 10);
        assert forall|i: int| 0 <= i < digits.len() implies is_digit(#[trigger] digits[i]) by {
            if i < front.len() {
                assert(digits[i] == front[i]);
            }
        }
        assert(digits[0] == front[0]);
    }
}

/// The id that a selection cookie is made for is the id that is read from it:
/// the digits that `format_cookie` writes behind the name parse to `id`.
pub proof fn lemma_cookie_round_trip(id: u32)
    ensures
        selection_cookie(id) == "dict_id="@ + decimal_digits(id as nat),
        parsed_id(decimal_digits(id as nat)) == Some(id),
{
    lemma_decimal_digits(id as nat);
}

} // verus!
