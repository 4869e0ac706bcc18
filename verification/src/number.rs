//! Signed decimal integers: reading one from characters into an `i64`,
//! and writing one out.
use vstd::prelude::*;

verus! {

/// Why a sequence of characters is not an `i64`.
#[derive(Debug, Clone, Copy, PartialEq, Eq, Structural)]
pub enum NumberError {
    /// There are no characters at all.
    Empty,
    /// A character is not a decimal digit, or a sign stands alone.
    InvalidDigit,
    /// The digits stand for a number above `i64::MAX`.
    PosOverflow,
    /// The digits stand for a number below `i64::MIN`.
    NegOverflow,
}

/// The decimal digits are the ten characters from `0` to `9`.
pub open spec fn is_digit(c: char) -> bool {
    '0' <= c <= '9'
}

/// The number that a decimal digit stands for.
pub open spec fn digit_value(c: char) -> int {
    c as int - '0' as int
}

/// The number that a sequence of decimal digits stands for; the empty
/// sequence stands for zero.
pub open spec fn decimal_value(digits: Seq<char>) -> int
    decreases digits.len(),
{
    if digits.len() == 0 {
        0
    } else {
        10 * decimal_value(digits.drop_last()) + digit_value(digits.last())
    }
}

/// How many decimal digits stand at the front of `s` before the first
/// character of another kind.
pub open spec fn digit_run(s: Seq<char>) -> nat
    decreases s.len(),
{
    if s.len() > 0 && is_digit(s[0]) {
        1 + digit_run(s.drop_first())
    } else {
        0
    }
}

/// The text after its sign, if it starts with `+` or `-`.
pub open spec fn unsigned_part(text: Seq<char>) -> Seq<char> {
    if text.len() > 0 && (text[0] == '-' || text[0] == '+') {
        text.skip(1)
    } else {
        text
    }
}

/// What `text` means as a signed decimal integer of 64 bits.
///
/// An integer is an optional sign followed by one or more digits. The
/// digits at the front of the unsigned part decide: if their value is out
/// of range the error is an overflow, whatever follows them; if they are
/// in range and something follows them, or there are none, the error is
/// an invalid digit.
pub open spec fn parse_integer(text: Seq<char>) -> Result<int, NumberError> {
    let body = unsigned_part(text);
    let magnitude = decimal_value(body.take(digit_run(body) as int));
    let value = if text.len() > 0 && text[0] == '-' {
        -magnitude
    } else {
        magnitude
    };
    if text.len() == 0 {
        Err(NumberError::Empty)
    } else if body.len() == 0 {
        Err(NumberError::InvalidDigit)
    } else if value > i64::MAX {
        Err(NumberError::PosOverflow)
    } else if value < i64::MIN {
        Err(NumberError::NegOverflow)
    } else if digit_run(body) < body.len() {
        Err(NumberError::InvalidDigit)
    } else {
        Ok(value)
    }
}

/// The run of digits at the front of `s` is as long as `k` exactly if the
/// first `k` characters are digits and the next one, if any, is not.
pub proof fn lemma_digit_run(s: Seq<char>, k: int)
    requires
        0 <= k <= s.len(),
        forall|i: int| 0 <= i < k ==> is_digit(#[trigger] s[i]),
        k < s.len() ==> !is_digit(s[k]),
    ensures
        digit_run(s) == k,
    decreases k,
{
    if k > 0 {
        let rest = s.drop_first();
        assert forall|i: int| 0 <= i < k - 1 implies is_digit(#[trigger] rest[i]) by {
            assert(rest[i] == s[i + 1]);
        }
        lemma_digit_run(rest, k - 1);
    }
}

/// The run of digits at the front of `s` holds digits only, and is at
/// least as long as any prefix that does.
pub proof fn lemma_digit_run_longest(s: Seq<char>, k: int)
    requires
        0 <= k <= s.len(),
        forall|i: int| 0 <= i < k ==> is_digit(#[trigger] s[i]),
    ensures
        k <= digit_run(s) <= s.len(),
        forall|i: int| 0 <= i < digit_run(s) ==> is_digit(#[trigger] s[i]),
    decreases s.len(),
{
    if s.len() > 0 && is_digit(s[0]) {
        let rest = s.drop_first();
        let shorter = if k > 0 {
            k - 1
        } else {
            0
        };
        assert forall|i: int| 0 <= i < shorter implies is_digit(#[trigger] rest[i]) by {
            assert(rest[i] == s[i + 1]);
        }
        lemma_digit_run_longest(rest, shorter);
        assert forall|i: int| 0 <= i < digit_run(s) implies is_digit(#[trigger] s[i]) by {
            if i > 0 {
                assert(s[i] == rest[i - 1]);
            }
        }
    }
}

/// More digits never stand for less: among the prefixes of a sequence of
/// digits the value grows with the length.
pub proof fn lemma_decimal_value_grows(digits: Seq<char>, j: int, k: int)
    requires
        0 <= j <= k <= digits.len(),
        forall|i: int| 0 <= i < k ==> is_digit(#[trigger] digits[i]),
    ensures
        0 <= decimal_value(digits.take(j)) <= decimal_value(digits.take(k)),
    decreases k,
{
    if k > 0 {
        let shorter = if j == k {
            j - 1
        } else {
            j
        };
        lemma_decimal_value_grows(digits, shorter, k - 1);
        assert(digits.take(k).drop_last() == digits.take(k - 1));
    }
}

/// Whether `text` is an integer of 64 bits: an optional sign, then one or
/// more digits and nothing else, with a value in range.
pub open spec fn is_integer(text: Seq<char>) -> bool {
    let body = unsigned_part(text);
    &&& body.len() > 0
    &&& forall|i: int| 0 <= i < body.len() ==> is_digit(#[trigger] body[i])
    &&& i64::MIN <= integer_value(text) <= i64::MAX
}

/// The number that an integer stands for: the value of its digits, taken
/// negative after a `-`.
pub open spec fn integer_value(text: Seq<char>) -> int {
    if text.len() > 0 && text[0] == '-' {
        -decimal_value(unsigned_part(text))
    } else {
        decimal_value(unsigned_part(text))
    }
}

/// Exactly the integers are read with success, each as its value.
pub proof fn lemma_parse_integer(text: Seq<char>)
    ensures
        parse_integer(text) is Ok <==> is_integer(text),
        is_integer(text) ==> parse_integer(text) == Ok::<int, NumberError>(integer_value(text)),
{
    let body = unsigned_part(text);
    lemma_digit_run_longest(body, 0);
    if body.len() > 0 && forall|i: int| 0 <= i < body.len() ==> is_digit(#[trigger] body[i]) {
        lemma_digit_run(body, body.len() as int);
        assert(body.take(body.len() as int) == body);
    }
}

/// Reads `text` as a signed decimal integer.
///
/// Accepts an optional `+` or `-` and then one or more digits whose value
/// fits an `i64`; nothing else, not even white space around the digits.
pub fn parse_i64(text: &[char]) -> (result: Result<i64, NumberError>)
    ensures
        match result {
            Ok(n) => parse_integer(text@) == Ok::<int, NumberError>(n as int),
            Err(e) => parse_integer(text@) == Err::<int, NumberError>(e),
        },
{
    if text.len() == 0 {
        return Err(NumberError::Empty);
    }
    let negative = text[0] == '-';
    let start: usize = if text[0] == '-' || text[0] == '+' {
        1
    } else {
        0
    };
    let ghost body = unsigned_part(text@);
    if start == text.len() {
        return Err(NumberError::InvalidDigit);
    }
    let limit: i128 = if negative {
        0x8000_0000_0000_0000
    } else {
        0x7fff_ffff_ffff_ffff
    };
    let mut magnitude: i128 = 0;
    let mut i: usize = start;
    while i < text.len()
        invariant
            start <= i <= text.len(),
            text@.len() > 0,
            negative == (text@[0] == '-'),
            body == unsigned_part(text@),
            body == text@.skip(start as int),
            forall|j: int| 0 <= j < i - start ==> is_digit(#[trigger] body[j]),
            magnitude == decimal_value(body.take(i - start)),
            0 <= magnitude <= limit,
            limit == if negative { 0x8000_0000_0000_0000i128 } else { 0x7fff_ffff_ffff_ffffi128 },
        decreases text.len() - i,
    {
        let c = text[i];
        if !('0' <= c && c <= '9') {
            proof {
                lemma_digit_run(body, i - start);
            }
            return Err(NumberError::InvalidDigit);
        }
        let digit: i128 = (c as u32 - '0' as u32) as i128;
        magnitude = magnitude * 10 + digit;
        assert(body.take(i + 1 - start).drop_last() == body.take(i - start));
        if magnitude > limit {
            proof {
                lemma_digit_run_longest(body, i + 1 - start);
                lemma_decimal_value_grows(body, i + 1 - start, digit_run(body) as int);
            }
            if negative {
                return Err(NumberError::NegOverflow);
            } else {
                return Err(NumberError::PosOverflow);
            }
        }
        i += 1;
    }
    proof {
        lemma_digit_run(body, body.len() as int);
    }
    if negative {
        Ok((-magnitude) as i64)
    } else {
        Ok(magnitude as i64)
    }
}

/// The character that writes the number `d`, for `d` below ten.
pub open spec fn digit_char(d: int) -> char {
    ('0' as int + d) as char
}

/// The decimal digits of `n`, most significant first, without leading
/// zeros; zero is written `0`.
pub open spec fn digits(n: nat) -> Seq<char>
    decreases n,
{
    if n < 10 {
        seq![digit_char(n as int)]
    } else {
        digits(n / 10).push(digit_char((n % 10) as int))
    }
}

/// `n` in decimal: its digits, after a `-` if it is negative.
pub open spec fn decimal(n: int) -> Seq<char> {
    if n < 0 {
        seq!['-'] + digits((-n) as nat)
    } else {
        digits(n as nat)
    }
}

/// What is written consists of digits and stands for the number written.
pub proof fn lemma_digits(n: nat)
    ensures
        digits(n).len() >= 1,
        forall|i: int| 0 <= i < digits(n).len() ==> is_digit(#[trigger] digits(n)[i]),
        decimal_value(digits(n)) == n,
    decreases n,
{
    if n < 10 {
        assert(decimal_value(digits(n).drop_last()) == 0);
    } else {
        lemma_digits(n / 10);
        assert(digits(n).drop_last() == digits(n / 10));
    }
}

/// What is written is read back: every `i64` in decimal is an integer
/// with that value.
pub proof fn lemma_decimal_is_read_back(n: int)
    requires
        i64::MIN <= n <= i64::MAX,
    ensures
        parse_integer(decimal(n)) == Ok::<int, NumberError>(n),
{
    let text = decimal(n);
    if n < 0 {
        lemma_digits((-n) as nat);
        assert(unsigned_part(text) == digits((-n) as nat));
    } else {
        lemma_digits(n as nat);
    }
    lemma_parse_integer(text);
}

/// Appends `n` in decimal to `out`.
pub fn push_decimal(out: &mut String, n: i128)
    ensures
        final(out)@ == old(out)@ + decimal(n as int),
{
    let ghost before = out@;
    let whole: u128 = if n < 0 {
        out.push('-');
        (-(n + 1)) as u128 + 1
    } else {
        n as u128
    };
    let ghost signed = out@;
    // The digits of `whole` but the first, least significant first.
    let mut low: Vec<char> = Vec::new();
    let mut rest: u128 = whole;
    while rest >= 10
        invariant
            digits(whole as nat) == digits(rest as nat) + low@.reverse(),
        decreases rest,
    {
        let ghost tail = low@.reverse();
        let c: char = (48u8 + (rest % 10) as u8) as char;
        low.push(c);
        rest = rest / 10;
        assert(low@.reverse() == seq![c] + tail);
    }
    let c: char = (48u8 + rest as u8) as char;
    out.push(c);
    let mut k: usize = low.len();
    while k > 0
        invariant
            k <= low.len(),
            out@ == signed.push(c) + low@.reverse().take(low@.len() - k),
        decreases k,
    {
        k -= 1;
        out.push(low[k]);
    }
    assert(before.push('-') + digits(whole as nat) == before + (seq!['-'] + digits(whole as nat)));
}

} // verus!
