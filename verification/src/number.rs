//! Unsigned decimal numbers in text.

use vstd::prelude::*;

verus! {

/// Why a text is not an unsigned number that fits.
#[derive(Debug, Clone, Copy, PartialEq, Eq, Structural)]
pub enum IntError {
    /// There is no text.
    Empty,
    /// A character is not a decimal digit.
    InvalidDigit,
    /// The number is larger than the largest one allowed.
    PosOverflow,
}

impl IntError {
    /// The message for a user.
    pub open spec fn message(self) -> Seq<char> {
        match self {
            IntError::Empty => "cannot parse integer from empty string"@,
            IntError::InvalidDigit => "invalid digit found in string"@,
            IntError::PosOverflow => "number too large to fit in target type"@,
        }
    }

    /// The message for a user.
    pub fn text(&self) -> (r: &'static str)
        ensures
            r@ == self.message(),
    {
        match self {
            IntError::Empty => "cannot parse integer from empty string",
            IntError::InvalidDigit => "invalid digit found in string",
            IntError::PosOverflow => "number too large to fit in target type",
        }
    }
}

/// Whether `c` is a decimal digit.
pub open spec fn is_digit(c: char) -> bool {
    '0' <= c <= '9'
}

/// The value of a decimal digit.
pub open spec fn digit_value(c: char) -> nat {
    (c as u32 - '0' as u32) as nat
}

/// The digit of value `d`.
pub open spec fn digit_char(d: nat) -> char {
    ('0' as u32 + d) as char
}

/// The number that a sequence of digits denotes.
pub open spec fn digits_value(s: Seq<char>) -> nat
    decreases s.len(),
{
    if s.len() == 0 {
        0
    } else {
        digits_value(s.drop_last()) * 10 + digit_value(s.last())
    }
}

/// Whether every character of `s` is a digit.
pub open spec fn all_digits(s: Seq<char>) -> bool {
    forall|i: int| 0 <= i < s.len() ==> is_digit(#[trigger] s[i])
}

/// Reads the digits of `s` from left to right and stops at the first trouble:
/// a character that is no digit, or a digit that takes the number beyond `max`.
pub open spec fn scan_digits(s: Seq<char>, max: nat) -> Result<nat, IntError>
    decreases s.len(),
{
    if s.len() == 0 {
        Ok(0)
    } else {
        match scan_digits(s.drop_last(), max) {
            Err(e) => Err(e),
            Ok(v) => if !is_digit(s.last()) {
                Err(IntError::InvalidDigit)
            } else if v * 10 + digit_value(s.last()) > max {
                Err(IntError::PosOverflow)
            } else {
                Ok(v * 10 + digit_value(s.last()))
            },
        }
    }
}

/// An optional `+` sign followed by digits, as a number of at most `max`.
pub open spec fn parse_uint(s: Seq<char>, max: nat) -> Result<nat, IntError> {
    if s.len() == 0 {
        Err(IntError::Empty)
    } else if s.len() == 1 && s[0] == '+' {
        Err(IntError::InvalidDigit)
    } else if s[0] == '+' {
        scan_digits(s.drop_first(), max)
    } else {
        scan_digits(s, max)
    }
}

/// The decimal digits of `n`, without leading zeros.
pub open spec fn decimal(n: nat) -> Seq<char>
    decreases n,
{
    if n < 10 {
        seq![digit_char(n)]
    } else {
        decimal(n / 10).push(digit_char(n % 10))
    }
}

/// Reads an optional `+` sign followed by digits, as a number of at most `max`.
pub fn parse_number(s: &[char], max: u32) -> (r: Result<u32, IntError>)
    ensures
        match r {
            Ok(v) => parse_uint(s@, max as nat) == Ok::<nat, IntError>(v as nat),
            Err(e) => parse_uint(s@, max as nat) == Err::<nat, IntError>(e),
        },
        r matches Ok(v) ==> v <= max,
{
    if s.len() == 0 {
        return Err(IntError::Empty);
    }
    if s.len() == 1 && s[0] == '+' {
        return Err(IntError::InvalidDigit);
    }
    let skip: usize = if s[0] == '+' {
        1
    } else {
        0
    };
    let digits: &[char] = vstd::slice::slice_subrange(s, skip, s.len());
    proof {
        if skip == 0 {
            assert(digits@ =~= s@);
        } else {
            assert(digits@ =~= s@.drop_first());
        }
    }
    scan_number(digits, max)
}

/// Reads digits as a number of at most `max`.
fn scan_number(s: &[char], max: u32) -> (r: Result<u32, IntError>)
    ensures
        match r {
            Ok(v) => scan_digits(s@, max as nat) == Ok::<nat, IntError>(v as nat),
            Err(e) => scan_digits(s@, max as nat) == Err::<nat, IntError>(e),
        },
        r matches Ok(v) ==> v <= max,
{
    let mut value: u64 = 0;
    let mut i: usize = 0;
    while i < s.len()
        invariant
            i <= s@.len(),
            value <= max <= u32::MAX,
            scan_digits(s@.take(i as int), max as nat) == Ok::<nat, IntError>(value as nat),
        decreases s@.len() - i,
    {
        let c: char = s[i];
        proof {
            assert(s@.take(i as int + 1).drop_last() =~= s@.take(i as int));
            assert(s@.take(i as int + 1).last() == c);
        }
        if c < '0' || c > '9' {
            proof {
                lemma_scan_stops(s@, i as int + 1, max as nat);
            }
            return Err(IntError::InvalidDigit);
        }
        value = value * 10 + (c as u32 - '0' as u32) as u64;
        if value > max as u64 {
            proof {
                lemma_scan_stops(s@, i as int + 1, max as nat);
            }
            return Err(IntError::PosOverflow);
        }
        i = i + 1;
    }
    proof {
        assert(s@.take(s@.len() as int) =~= s@);
    }
    Ok(value as u32)
}

/// A reading that failed within the first `n` characters fails the same way on
/// the whole text.
proof fn lemma_scan_stops(s: Seq<char>, n: int, max: nat)
    requires
        0 <= n <= s.len(),
        scan_digits(s.take(n), max) is Err,
    ensures
        scan_digits(s, max) == scan_digits(s.take(n), max),
    decreases s.len(),
{
    if n == s.len() {
        assert(s.take(n) =~= s);
    } else {
        assert(s.drop_last().take(n) =~= s.take(n));
        lemma_scan_stops(s.drop_last(), n, max);
    }
}

/// Appends the decimal digits of `n`.
pub fn push_decimal(out: &mut String, n: u64)
    ensures
        final(out)@ == old(out)@ + decimal(n as nat),
    decreases n,
{
    if n >= 10 {
        push_decimal(out, n / 10);
    }
    let digit: u8 = 48 + (n % 10) as u8;
    out.push(digit as char);
    proof {
        assert(digit as char == digit_char((n % 10) as nat));
    }
}

/// A text is read as the number `v` exactly when, after an optional sign, it
/// consists of one or more digits that denote `v`, and `v` is allowed.
pub proof fn number_accepted_iff(s: Seq<char>, max: nat, v: nat)
    ensures
        parse_uint(s, max) == Ok::<nat, IntError>(v) <==> {
            let digits = if s.len() > 0 && s[0] == '+' {
                s.drop_first()
            } else {
                s
            };
            &&& digits.len() > 0
            &&& all_digits(digits)
            &&& digits_value(digits) == v
            &&& v <= max
        },
{
    let digits = if s.len() > 0 && s[0] == '+' {
        s.drop_first()
    } else {
        s
    };
    lemma_scan_iff(digits, max, v);
}

/// Digits are read as the number that they denote, if that is allowed.
proof fn lemma_scan_iff(s: Seq<char>, max: nat, v: nat)
    ensures
        scan_digits(s, max) == Ok::<nat, IntError>(v) <==> all_digits(s) && digits_value(s) == v
            && v <= max,
    decreases s.len(),
{
    if s.len() > 0 {
        let t = s.drop_last();
        lemma_scan_iff(t, max, digits_value(t));
        if let Ok(w) = scan_digits(t, max) {
            lemma_scan_iff(t, max, w);
        }
        assert(all_digits(s) ==> all_digits(t)) by {
            if all_digits(s) {
                assert forall|i: int| 0 <= i < t.len() implies is_digit(#[trigger] t[i]) by {
                    assert(t[i] == s[i]);
                }
            }
        }
        assert(all_digits(t) && is_digit(s.last()) ==> all_digits(s)) by {
            if all_digits(t) && is_digit(s.last()) {
                assert forall|i: int| 0 <= i < s.len() implies is_digit(#[trigger] s[i]) by {
                    if i < t.len() {
                        assert(t[i] == s[i]);
                    }
                }
            }
        }
        assert(all_digits(s) ==> is_digit(s[s.len() - 1]));
    }
}

/// Writing a number in decimal and reading it back gives the number.
pub proof fn decimal_round_trips(n: nat, max: nat)
    requires
        n <= max,
    ensures
        parse_uint(decimal(n), max) == Ok::<nat, IntError>(n),
{
    lemma_decimal_digits(n);
    number_accepted_iff(decimal(n), max, n);
    assert(is_digit(decimal(n)[0]));
}

/// A number in decimal is one or more digits that denote it, the first of them
/// not zero unless the number is.
pub proof fn lemma_decimal_digits(n: nat)
    ensures
        decimal(n).len() > 0,
        all_digits(decimal(n)),
        digits_value(decimal(n)) == n,
        decimal(n)[0] == '0' ==> n == 0,
    decreases n,
{
    if n < 10 {
        let d = seq![digit_char(n)];
        assert(d.drop_last() =~= Seq::<char>::empty());
        assert(digits_value(d.drop_last()) == 0);
        assert(digit_value(digit_char(n)) == n);
    } else {
        lemma_decimal_digits(n / 10);
        let front = decimal(n / 10);
        assert(decimal(n).drop_last() =~= front);
        assert(digit_value(digit_char(n % 10)) == n % 10);
        assert(decimal(n)[0] == front[0]);
        assert forall|i: int| 0 <= i < decimal(n).len() implies is_digit(#[trigger] decimal(n)[i]) by {
            if i < front.len() {
                assert(decimal(n)[i] == front[i]);
            }
        }
    }
}

/// The value of a row of digits: nothing is zero, and a further digit from
/// `0` to `9` makes it ten times as much and adds its own.
pub proof fn digits_are_decimal(s: Seq<char>, c: char)
    ensures
        digits_value(Seq::<char>::empty()) == 0,
        is_digit(c) <==> 48 <= c as u32 <= 57,
        is_digit(c) ==> digits_value(s.push(c)) == digits_value(s) * 10 + (c as u32 - 48),
        all_digits(s.push(c)) <==> all_digits(s) && 48 <= c as u32 <= 57,
{
    let t = s.push(c);
    assert(t.drop_last() =~= s);
    assert(t.last() == c);
    if all_digits(t) {
        assert forall|i: int| 0 <= i < s.len() implies is_digit(#[trigger] s[i]) by {
            assert(t[i] == s[i]);
        }
        assert(is_digit(t[s.len() as int]));
    }
    if all_digits(s) && is_digit(c) {
        assert forall|i: int| 0 <= i < t.len() implies is_digit(#[trigger] t[i]) by {
            if i < s.len() {
                assert(t[i] == s[i]);
            }
        }
    }
}

/// Whether some of the first characters are digits that denote more than `max`.
pub open spec fn overflows(s: Seq<char>, max: nat) -> bool {
    exists|n: int|
        0 <= n <= s.len() && all_digits(#[trigger] s.take(n)) && digits_value(s.take(n)) > max
}

/// Why a text is no number: there is none, its digits denote too much before
/// anything else is wrong, or else something is not a digit.
pub proof fn number_errors_name_the_first_trouble(s: Seq<char>, max: nat)
    ensures
        ({
            let digits = if s.len() > 0 && s[0] == '+' {
                s.drop_first()
            } else {
                s
            };
            &&& parse_uint(s, max) == Err::<nat, IntError>(IntError::Empty) <==> s.len() == 0
            &&& parse_uint(s, max) == Err::<nat, IntError>(IntError::PosOverflow) <==> overflows(
                digits,
                max,
            )
            &&& parse_uint(s, max) == Err::<nat, IntError>(IntError::InvalidDigit) <==> s.len() > 0
                && !overflows(digits, max) && (digits.len() == 0 || !all_digits(digits))
        }),
{
    let digits = if s.len() > 0 && s[0] == '+' {
        s.drop_first()
    } else {
        s
    };
    lemma_scan_overflow(digits, max);
    if let Ok(v) = scan_digits(digits, max) {
        lemma_scan_iff(digits, max, v);
    }
    lemma_scan_iff(digits, max, digits_value(digits));
    if all_digits(digits) && digits_value(digits) > max {
        assert(digits.take(digits.len() as int) =~= digits);
        assert(overflows(digits, max));
    }
    if digits.len() == 0 {
        assert forall|n: int| 0 <= n <= digits.len() implies digits_value(
            #[trigger] digits.take(n),
        ) == 0 by {
            assert(digits.take(n).len() == 0);
        }
    }
}

/// Reading digits overflows exactly when some of the first ones do.
proof fn lemma_scan_overflow(s: Seq<char>, max: nat)
    ensures
        scan_digits(s, max) == Err::<nat, IntError>(IntError::PosOverflow) <==> overflows(s, max),
        scan_digits(s, max) != Err::<nat, IntError>(IntError::Empty),
    decreases s.len(),
{
    if s.len() > 0 {
        let t = s.drop_last();
        lemma_scan_overflow(t, max);
        lemma_scan_iff(t, max, digits_value(t));
        if let Ok(w) = scan_digits(t, max) {
            lemma_scan_iff(t, max, w);
        }
        assert(s.take(s.len() as int) =~= s);
        assert(t.take(t.len() as int) =~= t);
        assert(t.push(s.last()) =~= s);
        digits_are_decimal(t, s.last());
        if overflows(t, max) {
            let n = choose|n: int|
                0 <= n <= t.len() && all_digits(#[trigger] t.take(n)) && digits_value(t.take(n))
                    > max;
            assert(t.take(n) =~= s.take(n));
            assert(overflows(s, max));
        }
        if overflows(s, max) && !overflows(t, max) {
            let n = choose|n: int|
                0 <= n <= s.len() && all_digits(#[trigger] s.take(n)) && digits_value(s.take(n))
                    > max;
            if n <= t.len() {
                assert(t.take(n) =~= s.take(n));
                assert(overflows(t, max));
            }
            assert(all_digits(t) && digits_value(s) > max);
            assert(!(digits_value(t.take(t.len() as int)) > max));
        }
    } else {
        assert forall|n: int| 0 <= n <= s.len() implies digits_value(#[trigger] s.take(n))
            == 0 by {
            assert(s.take(n).len() == 0);
        }
    }
}

} // verus!
