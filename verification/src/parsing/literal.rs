//! The literal on a line.
//!
//! A line, once the white space around it is gone, holds at most one numeric
//! literal: a hexadecimal integer behind `0x`, or a decimal number.
//! Everything else is noise and yields nothing.

use vstd::prelude::*;
use vstd::slice::slice_subrange;

verus! {

/// A space.
pub const SPACE: u8 = 0x20;

/// A horizontal tab.
pub const TAB: u8 = 0x09;

/// The byte that ends a line.
pub const LINE_FEED: u8 = 0x0a;

/// A form feed.
pub const FORM_FEED: u8 = 0x0c;

/// A carriage return.
pub const CARRIAGE_RETURN: u8 = 0x0d;

/// The sign `+`.
pub const PLUS: u8 = 0x2b;

/// The sign `-`.
pub const MINUS: u8 = 0x2d;

/// The decimal point.
pub const POINT: u8 = 0x2e;

/// The digit `0`.
pub const ZERO: u8 = 0x30;

/// The digit `9`.
pub const NINE: u8 = 0x39;

/// The letter `A`.
pub const UPPER_A: u8 = 0x41;

/// The letter `E`.
pub const UPPER_E: u8 = 0x45;

/// The letter `F`.
pub const UPPER_F: u8 = 0x46;

/// The letter `a`.
pub const LOWER_A: u8 = 0x61;

/// The letter `e`.
pub const LOWER_E: u8 = 0x65;

/// The letter `f`.
pub const LOWER_F: u8 = 0x66;

/// The letter `x`.
pub const LOWER_X: u8 = 0x78;

/// A numeric literal found on a line.
#[derive(Clone, Copy, Debug)]
pub enum Literal<'a> {
    /// A hexadecimal integer, already evaluated.
    Hex(u64),
    /// The text of a decimal number, free of white space.
    Decimal(&'a [u8]),
}

/// What a `Literal` stands for.
pub enum Token {
    Hex(u64),
    Decimal(Seq<u8>),
}

impl<'a> View for Literal<'a> {
    type V = Token;

    open spec fn view(&self) -> Token {
        match *self {
            Literal::Hex(value) => Token::Hex(value),
            Literal::Decimal(text) => Token::Decimal(text@),
        }
    }
}

/// Whether a byte is ASCII white space: space, tab, line feed, form feed or
/// carriage return.
pub open spec fn spec_is_space(b: u8) -> bool {
    b == SPACE || b == TAB || b == LINE_FEED || b == FORM_FEED || b == CARRIAGE_RETURN
}

/// Decides whether a byte is ASCII white space.
#[verifier::when_used_as_spec(spec_is_space)]
pub fn is_space(b: u8) -> (r: bool)
    ensures
        r == spec_is_space(b),
{
    b == SPACE || b == TAB || b == LINE_FEED || b == FORM_FEED || b == CARRIAGE_RETURN
}

/// How many white-space bytes a text starts with.
pub open spec fn leading_spaces(s: Seq<u8>) -> nat
    decreases s.len(),
{
    if s.len() > 0 && is_space(s[0]) {
        1 + leading_spaces(s.skip(1))
    } else {
        0
    }
}

/// How many white-space bytes a text ends with.
pub open spec fn trailing_spaces(s: Seq<u8>) -> nat
    decreases s.len(),
{
    if s.len() > 0 && is_space(s.last()) {
        1 + trailing_spaces(s.drop_last())
    } else {
        0
    }
}

/// A text without the white space at its two ends.
pub open spec fn trimmed(s: Seq<u8>) -> Seq<u8> {
    let rest = s.skip(leading_spaces(s) as int);
    rest.take(rest.len() - trailing_spaces(rest))
}

proof fn lemma_leading_spaces(s: Seq<u8>, k: int)
    requires
        0 <= k <= s.len(),
        forall|i: int| 0 <= i < k ==> is_space(#[trigger] s[i]),
        k < s.len() ==> !is_space(s[k]),
    ensures
        leading_spaces(s) == k,
    decreases k,
{
    if k > 0 {
        let rest = s.skip(1);
        lemma_leading_spaces(rest, k - 1);
    }
}

proof fn lemma_trailing_spaces(s: Seq<u8>, k: int)
    requires
        0 <= k <= s.len(),
        forall|i: int| k <= i < s.len() ==> is_space(#[trigger] s[i]),
        k > 0 ==> !is_space(s[k - 1]),
    ensures
        trailing_spaces(s) == s.len() - k,
    decreases s.len() - k,
{
    if k < s.len() {
        let rest = s.drop_last();
        lemma_trailing_spaces(rest, k);
    }
}

/// Cuts the white space off both ends of a line.
pub fn trim<'a>(line: &'a [u8]) -> (token: &'a [u8])
    ensures
        token@ == trimmed(line@),
{
    let mut start: usize = 0;
    let mut end: usize = line.len();
    while start < end && is_space(line[start])
        invariant
            start <= end == line.len(),
            forall|i: int| 0 <= i < start ==> is_space(#[trigger] line@[i]),
        decreases end - start,
    {
        start += 1;
    }
    while end > start && is_space(line[end - 1])
        invariant
            start <= end <= line.len(),
            forall|i: int| end <= i < line.len() ==> is_space(#[trigger] line@[i]),
        decreases end,
    {
        end -= 1;
    }
    proof {
        let rest = line@.skip(start as int);
        lemma_leading_spaces(line@, start as int);
        lemma_trailing_spaces(rest, end - start);
    }
    slice_subrange(line, start, end)
}

/// Whether a byte is one of `0` to `9`.
pub open spec fn spec_is_digit(b: u8) -> bool {
    ZERO <= b <= NINE
}

/// Decides whether a byte is one of `0` to `9`.
#[verifier::when_used_as_spec(spec_is_digit)]
pub fn is_digit(b: u8) -> (r: bool)
    ensures
        r == spec_is_digit(b),
{
    ZERO <= b && b <= NINE
}

/// Whether a byte is a hexadecimal digit, in either case.
pub open spec fn is_hex_digit(b: u8) -> bool {
    is_digit(b) || (UPPER_A <= b <= UPPER_F) || (LOWER_A <= b <= LOWER_F)
}

/// The value of a hexadecimal digit.
pub open spec fn hex_digit_value(b: u8) -> nat {
    if is_digit(b) {
        (b - ZERO) as nat
    } else if UPPER_A <= b <= UPPER_F {
        (b - UPPER_A + 10) as nat
    } else if LOWER_A <= b <= LOWER_F {
        (b - LOWER_A + 10) as nat
    } else {
        0
    }
}

/// The number that a run of hexadecimal digits writes, first digit highest.
pub open spec fn hex_number(digits: Seq<u8>) -> nat
    decreases digits.len(),
{
    if digits.len() == 0 {
        0
    } else {
        16 * hex_number(digits.drop_last()) + hex_digit_value(digits.last())
    }
}

/// Whether every byte of a text is a hexadecimal digit.
pub open spec fn all_hex_digits(digits: Seq<u8>) -> bool {
    forall|i: int| 0 <= i < digits.len() ==> is_hex_digit(#[trigger] digits[i])
}

/// A text without the `+` that it may start with.
pub open spec fn unsigned_part(text: Seq<u8>) -> Seq<u8> {
    if text.len() > 0 && text[0] == PLUS {
        text.skip(1)
    } else {
        text
    }
}

/// What a text in base sixteen is worth: an optional `+`, then one digit or
/// more, and a value that fits in sixty-four bits.
pub open spec fn hex_value(text: Seq<u8>) -> Option<u64> {
    let digits = unsigned_part(text);
    if digits.len() > 0 && all_hex_digits(digits) && hex_number(digits) <= u64::MAX {
        Some(hex_number(digits) as u64)
    } else {
        None
    }
}

/// A longer run of digits is worth at least as much as each of its prefixes.
proof fn lemma_hex_number_grows(digits: Seq<u8>, k: int)
    requires
        0 <= k <= digits.len(),
    ensures
        hex_number(digits.take(k)) <= hex_number(digits),
    decreases digits.len(),
{
    if k == digits.len() {
        assert(digits.take(k) =~= digits);
    } else {
        assert(digits.drop_last().take(k) =~= digits.take(k));
        lemma_hex_number_grows(digits.drop_last(), k);
    }
}

fn hex_digit(b: u8) -> (d: Option<u8>)
    ensures
        d is Some <==> is_hex_digit(b),
        d matches Some(v) ==> v == hex_digit_value(b) && v < 16,
{
    if is_digit(b) {
        Some(b - ZERO)
    } else if UPPER_A <= b && b <= UPPER_F {
        Some(b - UPPER_A + 10)
    } else if LOWER_A <= b && b <= LOWER_F {
        Some(b - LOWER_A + 10)
    } else {
        None
    }
}

/// Evaluates a text in base sixteen.
pub fn parse_hex(text: &[u8]) -> (value: Option<u64>)
    ensures
        value == hex_value(text@),
{
    let first: usize = if text.len() > 0 && text[0] == PLUS {
        1
    } else {
        0
    };
    let ghost digits = unsigned_part(text@);
    if first == text.len() {
        return None;
    }
    let mut acc: u64 = 0;
    let mut i: usize = first;
    while i < text.len()
        invariant
            first <= i <= text.len(),
            digits == unsigned_part(text@),
            digits == text@.skip(first as int),
            acc == hex_number(digits.take(i - first)),
            all_hex_digits(digits.take(i - first)),
        decreases text.len() - i,
    {
        let ghost before = digits.take(i - first);
        let ghost after = digits.take(i - first + 1);
        proof {
            assert(after.drop_last() =~= before);
        }
        match hex_digit(text[i]) {
            None => {
                proof {
                    assert(digits[i - first] == text@[i as int]);
                }
                return None;
            },
            Some(d) => {
                if acc > (u64::MAX - d as u64) / 16 {
                    proof {
                        lemma_hex_number_grows(digits, i - first + 1);
                    }
                    return None;
                }
                acc = acc * 16 + d as u64;
            },
        }
        i += 1;
    }
    proof {
        assert(digits.take(i - first) =~= digits);
    }
    Some(acc)
}

/// Where the run of decimal digits that starts at `from` ends.
pub open spec fn digits_end(s: Seq<u8>, from: int) -> int
    decreases s.len() - from,
{
    if 0 <= from < s.len() && is_digit(s[from]) {
        digits_end(s, from + 1)
    } else {
        from
    }
}

/// The place behind an optional sign at `from`.
pub open spec fn sign_end(s: Seq<u8>, from: int) -> int {
    if 0 <= from < s.len() && (s[from] == PLUS || s[from] == MINUS) {
        from + 1
    } else {
        from
    }
}

/// Whether the text from `at` to its end is an exponent: `e` or `E`, an
/// optional sign, and one digit or more.
pub open spec fn is_exponent(s: Seq<u8>, at: int) -> bool {
    &&& 0 <= at < s.len()
    &&& (s[at] == LOWER_E || s[at] == UPPER_E)
    &&& sign_end(s, at + 1) < digits_end(s, sign_end(s, at + 1))
    &&& digits_end(s, sign_end(s, at + 1)) == s.len()
}

/// Whether a text is a decimal number: an optional sign; digits with at most
/// one point among them, before them or behind them, and one digit at
/// least; then, optionally, an exponent.
pub open spec fn is_decimal(s: Seq<u8>) -> bool {
    let int_start = sign_end(s, 0);
    let int_end = digits_end(s, int_start);
    let frac_start = if int_end < s.len() && s[int_end] == POINT {
        int_end + 1
    } else {
        int_end
    };
    let frac_end = digits_end(s, frac_start);
    &&& (int_end - int_start) + (frac_end - frac_start) >= 1
    &&& frac_end == s.len() || is_exponent(s, frac_end)
}

proof fn lemma_digits_end(s: Seq<u8>, from: int, to: int)
    requires
        0 <= from <= to <= s.len(),
        forall|i: int| from <= i < to ==> is_digit(#[trigger] s[i]),
        to < s.len() ==> !is_digit(s[to]),
    ensures
        digits_end(s, from) == to,
    decreases to - from,
{
    if from < to {
        lemma_digits_end(s, from + 1, to);
    }
}

/// Walks over the decimal digits that start at `from`.
fn skip_digits(s: &[u8], from: usize) -> (to: usize)
    requires
        from <= s.len(),
    ensures
        to == digits_end(s@, from as int),
        from <= to <= s.len(),
{
    let mut to: usize = from;
    while to < s.len() && is_digit(s[to])
        invariant
            from <= to <= s.len(),
            forall|i: int| from <= i < to ==> is_digit(#[trigger] s@[i]),
        decreases s.len() - to,
    {
        to += 1;
    }
    proof {
        lemma_digits_end(s@, from as int, to as int);
    }
    to
}

/// Steps over a sign at `from`, if there is one.
fn skip_sign(s: &[u8], from: usize) -> (to: usize)
    requires
        from <= s.len(),
    ensures
        to == sign_end(s@, from as int),
        from <= to <= s.len(),
{
    if from < s.len() && (s[from] == PLUS || s[from] == MINUS) {
        from + 1
    } else {
        from
    }
}

/// Decides whether a text is a decimal number.
pub fn check_decimal(s: &[u8]) -> (r: bool)
    ensures
        r == is_decimal(s@),
{
    let int_start: usize = skip_sign(s, 0);
    let int_end: usize = skip_digits(s, int_start);
    let frac_start: usize = if int_end < s.len() && s[int_end] == POINT {
        int_end + 1
    } else {
        int_end
    };
    let frac_end: usize = skip_digits(s, frac_start);
    if (int_end - int_start) + (frac_end - frac_start) < 1 {
        return false;
    }
    if frac_end == s.len() {
        return true;
    }
    if s[frac_end] != LOWER_E && s[frac_end] != UPPER_E {
        return false;
    }
    let exp_start: usize = skip_sign(s, frac_end + 1);
    let exp_end: usize = skip_digits(s, exp_start);
    exp_start < exp_end && exp_end == s.len()
}

/// Whether a text starts with `0x`.
pub open spec fn has_hex_prefix(s: Seq<u8>) -> bool {
    s.len() >= 2 && s[0] == ZERO && s[1] == LOWER_X
}

/// The literal on a line, if the line holds one.
///
/// White space around the text does not count. Text behind `0x` is a
/// hexadecimal integer or nothing at all; other text is a decimal number or
/// nothing. An empty line, a word, a number with something glued to it and
/// bytes that are no text yield nothing.
pub open spec fn line_token(line: Seq<u8>) -> Option<Token> {
    let text = trimmed(line);
    if has_hex_prefix(text) {
        match hex_value(text.skip(2)) {
            Some(value) => Some(Token::Hex(value)),
            None => None,
        }
    } else if is_decimal(text) {
        Some(Token::Decimal(text))
    } else {
        None
    }
}

/// The view of an optional literal.
pub open spec fn token_of(literal: Option<Literal>) -> Option<Token> {
    match literal {
        Some(l) => Some(l@),
        None => None,
    }
}

/// Reads the literal on one line.
pub fn parse_line<'a>(line: &'a [u8]) -> (literal: Option<Literal<'a>>)
    ensures
        token_of(literal) == line_token(line@),
{
    let text: &'a [u8] = trim(line);
    if text.len() >= 2 && text[0] == ZERO && text[1] == LOWER_X {
        let digits: &'a [u8] = slice_subrange(text, 2, text.len());
        match parse_hex(digits) {
            Some(value) => Some(Literal::Hex(value)),
            None => None,
        }
    } else if check_decimal(text) {
        Some(Literal::Decimal(text))
    } else {
        None
    }
}

} // verus!
