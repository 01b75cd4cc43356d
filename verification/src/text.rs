//! Numbers as text.

use vstd::prelude::*;

verus! {

/// The character of one decimal digit.
pub open spec fn digit_char(digit: nat) -> char {
    (48 + digit % 10) as char
}

/// A number in decimal, without leading zeros.
pub open spec fn decimal(n: nat) -> Seq<char>
    decreases n,
{
    if n < 10 {
        seq![digit_char(n)]
    } else {
        decimal(n / 10).push(digit_char(n % 10))
    }
}

fn digit_text(digit: u64) -> (text: &'static str)
    requires
        digit < 10,
    ensures
        text@ == seq![digit_char(digit as nat)],
{
    proof {
        reveal_strlit("0");
        reveal_strlit("1");
        reveal_strlit("2");
        reveal_strlit("3");
        reveal_strlit("4");
        reveal_strlit("5");
        reveal_strlit("6");
        reveal_strlit("7");
        reveal_strlit("8");
        reveal_strlit("9");
    }
    let text = match digit {
        0 => "0",
        1 => "1",
        2 => "2",
        3 => "3",
        4 => "4",
        5 => "5",
        6 => "6",
        7 => "7",
        8 => "8",
        _ => "9",
    };
    assert(text@ =~= seq![digit_char(digit as nat)]);
    text
}

/// Appends `n` in decimal to `out`.
pub fn append_decimal(out: &mut String, n: u64)
    ensures
        final(out)@ == old(out)@ + decimal(n as nat),
    decreases n,
{
    if n >= 10 {
        append_decimal(out, n / 10);
    }
    out.append(digit_text(n % 10));
    assert(out@ =~= old(out)@ + decimal(n as nat));
}

/// `prefix`, then `n` in decimal, then `suffix`.
pub fn around_decimal(prefix: &str, n: u64, suffix: &str) -> (text: String)
    ensures
        text@ == prefix@ + decimal(n as nat) + suffix@,
{
    let mut text = String::from_str(prefix);
    append_decimal(&mut text, n);
    text.append(suffix);
    text
}

/// The character of one hexadecimal digit, in lower case.
pub open spec fn hex_char(digit: nat) -> char {
    if digit < 10 {
        digit_char(digit)
    } else {
        (97 + digit % 16 - 10) as char
    }
}

/// A number in hexadecimal, in lower case and without leading zeros.
pub open spec fn hexadecimal(n: nat) -> Seq<char>
    decreases n,
{
    if n < 16 {
        seq![hex_char(n)]
    } else {
        hexadecimal(n / 16).push(hex_char(n % 16))
    }
}

fn hex_digit_text(digit: u64) -> (text: &'static str)
    requires
        digit < 16,
    ensures
        text@ == seq![hex_char(digit as nat)],
{
    if digit < 10 {
        return digit_text(digit);
    }
    proof {
        reveal_strlit("a");
        reveal_strlit("b");
        reveal_strlit("c");
        reveal_strlit("d");
        reveal_strlit("e");
        reveal_strlit("f");
    }
    let text = match digit {
        10 => "a",
        11 => "b",
        12 => "c",
        13 => "d",
        14 => "e",
        _ => "f",
    };
    assert(text@ =~= seq![hex_char(digit as nat)]);
    text
}

/// Appends `n` in hexadecimal to `out`.
pub fn append_hexadecimal(out: &mut String, n: u64)
    ensures
        final(out)@ == old(out)@ + hexadecimal(n as nat),
    decreases n,
{
    if n >= 16 {
        append_hexadecimal(out, n / 16);
    }
    out.append(hex_digit_text(n % 16));
    assert(out@ =~= old(out)@ + hexadecimal(n as nat));
}

/// Whether a character is an ASCII digit.
pub open spec fn is_digit(c: char) -> bool {
    '0' <= c <= '9'
}

/// The number that a run of digits writes.
pub open spec fn digits_value(digits: Seq<char>) -> nat
    decreases digits.len(),
{
    if digits.len() == 0 {
        0
    } else {
        (10 * digits_value(digits.drop_last()) + (digits.last() as int - '0' as int)) as nat
    }
}

/// A text without the one leading plus sign it may have.
pub open spec fn unsigned_body(text: Seq<char>) -> Seq<char> {
    if text.len() > 0 && text[0] == '+' {
        text.skip(1)
    } else {
        text
    }
}

/// Why a text is not an unsigned number.
#[derive(Debug, Clone, Copy, PartialEq, Eq, Structural)]
pub enum ParseFailure {
    Empty,
    InvalidDigit,
    TooLarge,
}

impl ParseFailure {
    /// What `message` returns.
    pub open spec fn message_text(self) -> Seq<char> {
        match self {
            ParseFailure::Empty => "cannot parse integer from empty string"@,
            ParseFailure::InvalidDigit => "invalid digit found in string"@,
            ParseFailure::TooLarge => "number too large to fit in target type"@,
        }
    }

    /// The failure in words.
    pub fn message(&self) -> (message: &'static str)
        ensures
            message@ == self.message_text(),
    {
        match self {
            ParseFailure::Empty => "cannot parse integer from empty string",
            ParseFailure::InvalidDigit => "invalid digit found in string",
            ParseFailure::TooLarge => "number too large to fit in target type",
        }
    }
}

/// The number that digits write, or what is wrong with the first character
/// that cannot continue a number up to `max`.
pub open spec fn scanned(digits: Seq<char>, max: u64) -> Result<u64, ParseFailure>
    decreases digits.len(),
{
    if digits.len() == 0 {
        Ok(0)
    } else {
        match scanned(digits.drop_last(), max) {
            Ok(head) => if !is_digit(digits.last()) {
                Err(ParseFailure::InvalidDigit)
            } else if 10 * head + (digits.last() as int - '0' as int) > max {
                Err(ParseFailure::TooLarge)
            } else {
                Ok((10 * head + (digits.last() as int - '0' as int)) as u64)
            },
            failure => failure,
        }
    }
}

/// The unsigned number up to `max` that a text writes: an optional plus sign,
/// then at least one digit and nothing else.
pub open spec fn parsed(text: Seq<char>, max: u64) -> Result<u64, ParseFailure> {
    if text.len() == 0 {
        Err(ParseFailure::Empty)
    } else if unsigned_body(text).len() == 0 {
        Err(ParseFailure::InvalidDigit)
    } else {
        scanned(unsigned_body(text), max)
    }
}

/// Once a number cannot be continued, no further character mends it.
proof fn lemma_failure_stays(digits: Seq<char>, k: int, max: u64)
    requires
        0 <= k <= digits.len(),
        scanned(digits.take(k), max) is Err,
    ensures
        scanned(digits, max) == scanned(digits.take(k), max),
    decreases digits.len() - k,
{
    if k < digits.len() {
        assert(digits.take(k + 1).drop_last() =~= digits.take(k));
        lemma_failure_stays(digits, k + 1, max);
    } else {
        assert(digits.take(k) =~= digits);
    }
}

/// A number that is read is not above the maximum.
pub proof fn lemma_parsed_fits(text: Seq<char>, max: u64)
    ensures
        parsed(text, max) matches Ok(value) ==> value <= max,
{
    lemma_scanned_fits(unsigned_body(text), max);
}

proof fn lemma_scanned_fits(digits: Seq<char>, max: u64)
    ensures
        scanned(digits, max) matches Ok(value) ==> value <= max,
    decreases digits.len(),
{
    if digits.len() > 0 {
        lemma_scanned_fits(digits.drop_last(), max);
    }
}

/// Reads an unsigned number up to `max`: an optional plus sign, then digits.
pub fn parse_unsigned(text: &str, max: u64) -> (result: Result<u64, ParseFailure>)
    ensures
        result == parsed(text@, max),
{
    let len: usize = text.unicode_len();
    if len == 0 {
        return Err(ParseFailure::Empty);
    }
    let start: usize = if text.get_char(0) == '+' {
        1
    } else {
        0
    };
    let ghost body = unsigned_body(text@);
    assert(body =~= text@.skip(start as int));
    if start == len {
        return Err(ParseFailure::InvalidDigit);
    }
    let mut value: u64 = 0;
    let mut at: usize = start;
    assert(body.take(0) =~= Seq::<char>::empty());
    while at < len
        invariant
            start <= at <= len,
            len == text@.len(),
            body == text@.skip(start as int),
            body == unsigned_body(text@),
            text@.len() > 0,
            body.len() > 0,
            value <= max,
            scanned(body.take(at - start), max) == Ok::<u64, ParseFailure>(value),
        decreases len - at,
    {
        let c = text.get_char(at);
        let ghost k = at - start;
        assert(c == body[k]);
        assert(body.take(k + 1).drop_last() =~= body.take(k));
        assert(body.take(k + 1).last() == c);
        if c < '0' || c > '9' {
            proof {
                lemma_failure_stays(body, k + 1, max);
            }
            return Err(ParseFailure::InvalidDigit);
        }
        let digit: u64 = (c as u32 - '0' as u32) as u64;
        let sum: u128 = 10 * value as u128 + digit as u128;
        if sum > max as u128 {
            proof {
                lemma_failure_stays(body, k + 1, max);
            }
            return Err(ParseFailure::TooLarge);
        }
        value = sum as u64;
        at = at + 1;
    }
    assert(body.take(len - start) =~= body);
    Ok(value)
}

/// A number in decimal is digits and nothing else, has no leading zero, and
/// its digits are worth the number.
pub proof fn lemma_decimal_digits(n: nat)
    ensures
        decimal(n).len() > 0,
        forall|i: int| 0 <= i < decimal(n).len() ==> is_digit(#[trigger] decimal(n)[i]),
        decimal(n).len() > 1 ==> decimal(n)[0] != '0',
        n > 0 ==> decimal(n)[0] != '0',
        digits_value(decimal(n)) == n,
    decreases n,
{
    if n < 10 {
        let s = decimal(n);
        assert(s.drop_last() =~= Seq::<char>::empty());
        assert(digits_value(s.drop_last()) == 0);
    } else {
        lemma_decimal_digits(n / 10);
        assert(decimal(n).drop_last() =~= decimal(n / 10));
    }
}

/// A run of digits reads as its value, if that is not above the maximum.
pub proof fn lemma_scanned_digits(digits: Seq<char>, max: u64)
    requires
        forall|i: int| 0 <= i < digits.len() ==> is_digit(#[trigger] digits[i]),
    ensures
        scanned(digits, max) == if digits_value(digits) <= max {
            Ok::<u64, ParseFailure>(digits_value(digits) as u64)
        } else {
            Err(ParseFailure::TooLarge)
        },
    decreases digits.len(),
{
    if digits.len() > 0 {
        let head = digits.drop_last();
        assert forall|i: int| 0 <= i < head.len() implies is_digit(#[trigger] head[i]) by {
            assert(head[i] == digits[i]);
        }
        lemma_scanned_digits(head, max);
        assert(is_digit(digits[digits.len() - 1]));
    }
}

/// Printing a number in decimal and reading it back gives the number.
pub proof fn lemma_decimal_round_trip(n: u64, max: u64)
    requires
        n <= max,
    ensures
        parsed(decimal(n as nat), max) == Ok::<u64, ParseFailure>(n),
{
    lemma_decimal_digits(n as nat);
    assert(is_digit(decimal(n as nat)[0]));
    assert(unsigned_body(decimal(n as nat)) == decimal(n as nat));
    lemma_scanned_digits(decimal(n as nat), max);
}

/// Two numbers never print alike.
pub proof fn lemma_decimal_injective(a: nat, b: nat)
    requires
        decimal(a) == decimal(b),
    ensures
        a == b,
{
    lemma_decimal_digits(a);
    lemma_decimal_digits(b);
}

/// What a hexadecimal digit in lower case is worth.
pub open spec fn hex_char_value(c: char) -> int {
    if is_digit(c) {
        c as int - '0' as int
    } else {
        c as int - 'a' as int + 10
    }
}

/// The number that a run of hexadecimal digits in lower case writes.
pub open spec fn hex_chars_value(digits: Seq<char>) -> int
    decreases digits.len(),
{
    if digits.len() == 0 {
        0
    } else {
        16 * hex_chars_value(digits.drop_last()) + hex_char_value(digits.last())
    }
}

/// A number in hexadecimal is digits in lower case and nothing else, has no
/// leading zero, and its digits are worth the number.
pub proof fn lemma_hexadecimal_digits(n: nat)
    ensures
        hexadecimal(n).len() > 0,
        forall|i: int|
            0 <= i < hexadecimal(n).len() ==> {
                let c = #[trigger] hexadecimal(n)[i];
                is_digit(c) || 'a' <= c <= 'f'
            },
        n > 0 ==> hexadecimal(n)[0] != '0',
        hex_chars_value(hexadecimal(n)) == n,
    decreases n,
{
    if n < 16 {
        let s = hexadecimal(n);
        assert(s.drop_last() =~= Seq::<char>::empty());
        assert(hex_chars_value(s.drop_last()) == 0);
    } else {
        lemma_hexadecimal_digits(n / 16);
        assert(hexadecimal(n).drop_last() =~= hexadecimal(n / 16));
    }
}

/// Whether a text is made of decimal digits alone.
pub open spec fn all_digits(text: Seq<char>) -> bool {
    forall|i: int| 0 <= i < text.len() ==> is_digit(#[trigger] text[i])
}

proof fn scanned_tells(digits: Seq<char>, max: u64)
    ensures
        match scanned(digits, max) {
            Ok(value) => all_digits(digits) && digits_value(digits) == value && value <= max,
            Err(ParseFailure::Empty) => false,
            Err(ParseFailure::InvalidDigit) => !all_digits(digits),
            Err(ParseFailure::TooLarge) => exists|k: int|
                0 < k <= digits.len() && all_digits(#[trigger] digits.take(k)) && digits_value(
                    digits.take(k),
                ) > max,
        },
    decreases digits.len(),
{
    if digits.len() > 0 {
        let head = digits.drop_last();
        scanned_tells(head, max);
        match scanned(head, max) {
            Ok(value) => {
                if is_digit(digits.last()) {
                    assert forall|i: int| 0 <= i < digits.len() implies is_digit(
                        #[trigger] digits[i],
                    ) by {
                        if i < head.len() {
                            assert(is_digit(head[i]));
                        }
                    }
                    assert(digits.take(digits.len() as int) =~= digits);
                } else {
                    assert(!is_digit(digits[digits.len() - 1]));
                }
            },
            Err(ParseFailure::TooLarge) => {
                let k = choose|k: int|
                    0 < k <= head.len() && all_digits(#[trigger] head.take(k)) && digits_value(
                        head.take(k),
                    ) > max;
                assert(head.take(k) =~= digits.take(k));
            },
            Err(_) => {
                let i = choose|i: int| 0 <= i < head.len() && !is_digit(#[trigger] head[i]);
                assert(!is_digit(digits[i]));
            },
        }
    }
}

/// A text is read as a number without the one plus sign it may begin with: it
/// is at least one digit and nothing else, and the digits are worth the number.
/// Every other text is refused: as empty where it is, as too large only where
/// some of its first digits are worth more than the maximum, and else for a
/// character that is no digit.
pub proof fn lemma_numbers_are_read_digit_by_digit(text: Seq<char>, body: Seq<char>, max: u64)
    requires
        if text.len() > 0 && text[0] == '+' {
            text == seq!['+'] + body
        } else {
            text == body
        },
    ensures
        match parsed(text, max) {
            Ok(value) => {
                &&& body.len() > 0
                &&& all_digits(body)
                &&& digits_value(body) == value
                &&& value <= max
            },
            Err(ParseFailure::Empty) => text.len() == 0,
            Err(ParseFailure::InvalidDigit) => text.len() > 0 && (body.len() == 0 || !all_digits(
                body,
            )),
            Err(ParseFailure::TooLarge) => exists|k: int|
                0 < k <= body.len() && all_digits(#[trigger] body.take(k)) && digits_value(
                    body.take(k),
                ) > max,
        },
{
    assert(unsigned_body(text) =~= body);
    scanned_tells(body, max);
}

} // verus!
