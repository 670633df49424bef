use vstd::prelude::*;
use vstd::string::*;

verus! {

/// The decimal digit for `d`.
pub open spec fn digit(d: int) -> char {
    (48 + d) as char
}

/// The decimal representation of a number.
pub open spec fn decimal(n: nat) -> Seq<char>
    decreases n,
{
    if n < 10 {
        seq![digit(n as int)]
    } else {
        decimal(n / 10).push(digit((n % 10) as int))
    }
}

/// Whether a character is a decimal digit.
pub open spec fn is_digit(c: char) -> bool {
    '0' <= c && c <= '9'
}

/// Whether a text is a number in decimal digits.
pub open spec fn is_numeral(text: Seq<char>) -> bool {
    &&& text.len() > 0
    &&& forall|i: int| 0 <= i < text.len() ==> is_digit(#[trigger] text[i])
}

/// The number that decimal digits stand for.
pub open spec fn numeral_value(text: Seq<char>) -> nat
    decreases text.len(),
{
    if text.len() == 0 {
        0
    } else {
        (10 * numeral_value(text.drop_last()) + (text.last() as int - 48)) as nat
    }
}

/// A text without its leading plus sign, if it has one.
pub open spec fn without_plus(text: Seq<char>) -> Seq<char> {
    if text.len() > 0 && text[0] == '+' {
        text.drop_first()
    } else {
        text
    }
}

/// The 32-bit number that a text stands for: decimal digits, after a plus sign or not.
pub open spec fn parsed_number(text: Seq<char>) -> Option<u32> {
    let digits = without_plus(text);
    if is_numeral(digits) && numeral_value(digits) <= u32::MAX {
        Some(numeral_value(digits) as u32)
    } else {
        None
    }
}

/// A number reads back as it was written.
pub proof fn law_written_numbers_read_back(n: u32)
    ensures
        parsed_number(decimal(n as nat)) == Some(n),
{
    lemma_decimal(n as nat);
}

/// Different numbers are written differently.
pub proof fn law_written_numbers_differ(m: u32, n: u32)
    requires
        decimal(m as nat) == decimal(n as nat),
    ensures
        m == n,
{
    law_written_numbers_read_back(m);
    law_written_numbers_read_back(n);
}

proof fn lemma_decimal(n: nat)
    ensures
        is_numeral(decimal(n)),
        numeral_value(decimal(n)) == n,
    decreases n,
{
    if n < 10 {
        assert(decimal(n).drop_last() =~= Seq::<char>::empty());
        assert(numeral_value(Seq::empty()) == 0);
    } else {
        lemma_decimal(n / 10);
        assert(decimal(n).drop_last() =~= decimal(n / 10));
    }
}

fn digit_text(d: u32) -> (text: &'static str)
    requires
        d < 10,
    ensures
        text@ == seq![digit(d as int)],
{
    proof {
        reveal_strlit("0");
        reveal_strlit("1");
        reveal_strlit("2");
        reveal_strlit("3");
        reveal_strlit("4");
        reveal_strlit("5");
        reveal_strlit("6");
        reveal_strlit("7");
        reveal_strlit("8");
        reveal_strlit("9");
    }
    let text = if d == 0 {
        "0"
    } else if d == 1 {
        "1"
    } else if d == 2 {
        "2"
    } else if d == 3 {
        "3"
    } else if d == 4 {
        "4"
    } else if d == 5 {
        "5"
    } else if d == 6 {
        "6"
    } else if d == 7 {
        "7"
    } else if d == 8 {
        "8"
    } else {
        "9"
    };
    assert(text@ =~= seq![digit(d as int)]);
    text
}

/// Writes a number in decimal digits.
pub fn to_decimal(n: u32) -> (text: String)
    ensures
        text@ == decimal(n as nat),
    decreases n,
{
    if n < 10 {
        let mut text = String::new();
        text.append(digit_text(n));
        assert(text@ =~= decimal(n as nat));
        text
    } else {
        let mut text = to_decimal(n / 10);
        let ghost before = text@;
        text.append(digit_text(n % 10));
        assert(text@ =~= decimal(n as nat));
        text
    }
}

proof fn lemma_numeral_grows(text: Seq<char>, k: int)
    requires
        0 <= k <= text.len(),
        forall|i: int| 0 <= i < text.len() ==> is_digit(#[trigger] text[i]),
    ensures
        numeral_value(text.take(k)) <= numeral_value(text),
    decreases text.len(),
{
    if k == text.len() {
        assert(text.take(k) =~= text);
    } else {
        let shorter = text.drop_last();
        lemma_numeral_grows(shorter, k);
        assert(shorter.take(k) =~= text.take(k));
        assert(is_digit(text[text.len() - 1]));
    }
}

/// Reads a 32-bit number in decimal digits.
pub fn parse_number(text: &str) -> (number: Option<u32>)
    ensures
        number == parsed_number(text@),
{
    let len = text.unicode_len();
    let start: usize = if len > 0 && text.get_char(0) == '+' {
        1
    } else {
        0
    };
    let ghost digits = without_plus(text@);
    assert(digits =~= text@.skip(start as int));
    if start >= len {
        return None;
    }
    let mut value: u32 = 0;
    assert(digits.take(0) =~= Seq::<char>::empty());
    for k in start..len
        invariant
            start < len,
            len == text@.len(),
            digits == text@.skip(start as int),
            digits == without_plus(text@),
            forall|i: int| 0 <= i < k - start ==> is_digit(#[trigger] digits[i]),
            value == numeral_value(digits.take(k - start)),
    {
        let c = text.get_char(k);
        let ghost at = k - start;
        assert(c == digits[at]);
        if c < '0' || c > '9' {
            assert(!is_digit(digits[at]));
            return None;
        }
        let d: u32 = c as u32 - 48;
        let ghost longer = digits.take(at + 1);
        proof {
            assert(longer.drop_last() =~= digits.take(at));
            assert(longer.last() == c);
            assert(numeral_value(longer) == 10 * value + d);
        }
        if value > 429_496_729 || (value == 429_496_729 && d > 5) {
            proof {
                if is_numeral(digits) {
                    lemma_numeral_grows(digits, at + 1);
                }
            }
            return None;
        }
        value = value * 10 + d;
    }
    assert(digits.take(len - start) =~= digits);
    Some(value)
}

/// A number is written by writing its last digit after what is written for the rest of it.
pub proof fn law_digits_are_written_one_after_the_other(n: nat, d: nat)
    requires
        d < 10,
    ensures
        decimal(d).len() == 1,
        decimal(d)[0] as int == '0' as int + d,
        n > 0 ==> decimal(10 * n + d) == decimal(n) + decimal(d),
{
    assert((10 * n + d) / 10 == n);
    assert((10 * n + d) % 10 == d);
    if n > 0 {
        assert(decimal(10 * n + d) =~= decimal(n) + decimal(d));
    }
}

/// What is read of a text with one more character: a digit makes the number ten times as great and
/// adds its value, as far as the number fits, and nothing else is part of a number.
pub proof fn law_digits_are_read_one_after_the_other(text: Seq<char>, c: char)
    requires
        text.len() > 0,
        text != seq!['+'],
    ensures
        parsed_number(text.push(c)) == match parsed_number(text) {
            Some(value) => if '0' <= c && c <= '9' && 10 * value + (c as int - '0' as int)
                <= u32::MAX {
                Some((10 * value + (c as int - '0' as int)) as u32)
            } else {
                None
            },
            None => None,
        },
{
    let longer = text.push(c);
    let digits = without_plus(text);
    assert(digits.len() > 0) by {
        if text[0] == '+' && text.len() == 1 {
            assert(text =~= seq!['+']);
        }
    }
    assert(without_plus(longer) =~= digits.push(c));
    let more = digits.push(c);
    assert(more.drop_last() =~= digits);
    assert(more.last() == c);
    assert(is_numeral(more) <==> is_numeral(digits) && is_digit(c)) by {
        if is_numeral(more) {
            assert forall|i: int| 0 <= i < digits.len() implies is_digit(#[trigger] digits[i]) by {
                assert(is_digit(more[i]));
            }
            assert(is_digit(more[digits.len() as int]));
        }
    }
}

/// What is read of a text of one character, and of none: a digit has its value. A plus sign may
/// stand before a number, and is no number by itself.
pub proof fn law_short_texts_are_read(c: char, text: Seq<char>)
    ensures
        parsed_number(Seq::empty()) is None,
        parsed_number(seq![c]) == if '0' <= c && c <= '9' {
            Some((c as int - '0' as int) as u32)
        } else {
            None
        },
        text.len() == 0 || text[0] != '+' ==> parsed_number(seq!['+'] + text) == parsed_number(
            text,
        ),
        parsed_number(seq!['+', '+'] + text) is None,
{
    let one = seq![c];
    assert(without_plus(Seq::<char>::empty()) =~= Seq::<char>::empty());
    if c == '+' {
        assert(without_plus(one) =~= Seq::<char>::empty());
    } else {
        assert(without_plus(one) =~= one);
        assert(one.drop_last() =~= Seq::<char>::empty());
        assert(numeral_value(Seq::<char>::empty()) == 0);
        assert(is_numeral(one) <==> is_digit(one[0]));
    }
    assert(without_plus(seq!['+'] + text) =~= text);
    let twice = seq!['+', '+'] + text;
    assert(without_plus(twice) =~= seq!['+'] + text);
    assert(!is_digit((seq!['+'] + text)[0]));
}

} // verus!
