//! Exact decimal numbers of any size.
//!
//! A price arrives as text in plain decimal notation and is kept exactly: a
//! sign, the digits as written, and the number of digits behind the decimal
//! point. Sums are exact too, so the total of a window's prices carries no
//! rounding error, however many trades the window holds.
//!
//! Plain notation is all that is read. A text with an exponent, such as
//! `1e3`, is refused like any other text that is no plain decimal: a short
//! exponent can ask for more digits than any memory holds, so such numbers
//! cannot all be kept exactly, and none of them is taken in part. The words
//! for infinities and for what is not a number are refused too.

use crate::digits::{
    are_digits,
    digits_number,
    digits_quotient,
    lemma_leading_digit,
    magnitude_difference,
    magnitude_sum,
    pow10,
    without_leading_zeros,
};
use vstd::prelude::*;
use vstd::string::*;

verus! {

/// The number that a `Decimal` stands for: `unscaled / 10^scale`.
pub struct DecimalValue {
    pub unscaled: int,
    pub scale: nat,
}

impl DecimalValue {
    /// The number as a multiple of `10^-scale`, for a `scale` that is not
    /// below its own.
    pub open spec fn at_scale(self, scale: nat) -> int {
        self.unscaled * pow10((scale - self.scale) as nat)
    }

    /// The sum of two numbers, at the larger of their scales.
    pub open spec fn plus(self, other: DecimalValue) -> DecimalValue {
        let scale = if self.scale >= other.scale {
            self.scale
        } else {
            other.scale
        };
        DecimalValue { unscaled: self.at_scale(scale) + other.at_scale(scale), scale }
    }

    /// The number with its sign turned.
    pub open spec fn negated(self) -> DecimalValue {
        DecimalValue { unscaled: -self.unscaled, scale: self.scale }
    }

    /// The number divided by `divisor`, cut off behind the digit that counts
    /// multiples of `10^-scale`, or behind its own last digit if that stands
    /// further back.
    pub open spec fn quotient(self, divisor: nat, scale: nat) -> DecimalValue {
        let scale = if self.scale >= scale {
            self.scale
        } else {
            scale
        };
        let number = self.at_scale(scale);
        DecimalValue {
            unscaled: if number >= 0 {
                number / (divisor as int)
            } else {
                -((-number) / (divisor as int))
            },
            scale,
        }
    }
}

/// Whether `c` is one of the characters `0` to `9`.
pub open spec fn is_digit_char(c: char) -> bool {
    '0' <= c && c <= '9'
}

/// Whether every character is one of `0` to `9`.
pub open spec fn all_digit_chars(text: Seq<char>) -> bool {
    forall|k: int| 0 <= k < text.len() ==> is_digit_char(#[trigger] text[k])
}

/// The digits that the characters `0` to `9` stand for.
pub open spec fn digit_values(text: Seq<char>) -> Seq<u8> {
    Seq::new(text.len(), |k: int| (text[k] as u8 - 48) as u8)
}

/// Whether the text begins with `+` or `-`.
pub open spec fn has_sign(text: Seq<char>) -> bool {
    text.len() > 0 && (text[0] == '+' || text[0] == '-')
}

/// The text behind its sign, if it has one.
pub open spec fn unsigned_part(text: Seq<char>) -> Seq<char> {
    if has_sign(text) {
        text.skip(1)
    } else {
        text
    }
}

/// Whether `body` is digits, a decimal point at `point`, and digits, with at
/// least one digit in all.
pub open spec fn splits_at(body: Seq<char>, point: int) -> bool {
    &&& 0 <= point < body.len()
    &&& body[point] == '.'
    &&& body.len() > 1
    &&& all_digit_chars(body.take(point))
    &&& all_digit_chars(body.skip(point + 1))
}

/// The number that an unsigned text in plain decimal notation stands for:
/// one or more digits, or digits with one decimal point before, between or
/// behind them.
pub open spec fn unsigned_decimal(body: Seq<char>) -> Option<DecimalValue> {
    if body.len() > 0 && all_digit_chars(body) {
        Some(DecimalValue { unscaled: digits_number(digit_values(body)) as int, scale: 0 })
    } else if exists|point: int| splits_at(body, point) {
        let point = choose|point: int| splits_at(body, point);
        Some(
            DecimalValue {
                unscaled: digits_number(
                    digit_values(body.take(point) + body.skip(point + 1)),
                ) as int,
                scale: (body.len() - point - 1) as nat,
            },
        )
    } else {
        None
    }
}

/// The number that a text in plain decimal notation stands for: an optional
/// sign, then an unsigned decimal. Exponents, infinities and other spellings
/// stand for nothing.
pub open spec fn decimal_of_text(text: Seq<char>) -> Option<DecimalValue> {
    match unsigned_decimal(unsigned_part(text)) {
        Some(value) => Some(
            if text[0] == '-' {
                value.negated()
            } else {
                value
            },
        ),
        None => None,
    }
}

/// An exact decimal number: a sign, digits, and the count of digits that
/// stand behind the decimal point.
#[derive(Debug)]
pub struct Decimal {
    negative: bool,
    digits: Vec<u8>,
    scale: usize,
}

impl View for Decimal {
    type V = DecimalValue;

    closed spec fn view(&self) -> DecimalValue {
        DecimalValue {
            unscaled: if self.negative {
                -(digits_number(self.digits@) as int)
            } else {
                digits_number(self.digits@) as int
            },
            scale: self.scale as nat,
        }
    }
}

/// The part of a text that holds a character outside the notation stands
/// for no number.
proof fn lemma_foreign_char(body: Seq<char>, at: int)
    requires
        0 <= at < body.len(),
        !is_digit_char(body[at]),
        body[at] != '.',
    ensures
        unsigned_decimal(body) is None,
{
    assert forall|point: int| !splits_at(body, point) by {
        if splits_at(body, point) {
            if at < point {
                assert(body.take(point)[at] == body[at]);
            } else {
                assert(body.skip(point + 1)[at - point - 1] == body[at]);
            }
        }
    }
}

/// A text with two decimal points stands for no number.
proof fn lemma_second_point(body: Seq<char>, first: int, second: int)
    requires
        0 <= first < second < body.len(),
        body[first] == '.',
        body[second] == '.',
    ensures
        unsigned_decimal(body) is None,
{
    assert forall|point: int| !splits_at(body, point) by {
        if splits_at(body, point) {
            if first < point {
                assert(body.take(point)[first] == body[first]);
            } else {
                assert(body.skip(point + 1)[second - point - 1] == body[second]);
            }
        }
    }
}

/// A decimal point stands at one place only.
proof fn lemma_point_is_unique(body: Seq<char>, point: int, other: int)
    requires
        splits_at(body, point),
        splits_at(body, other),
    ensures
        point == other,
{
    if point < other {
        assert(body.take(other)[point] == body[point]);
    } else if other < point {
        assert(body.take(point)[other] == body[other]);
    }
}

/// The character that stands for a digit.
pub open spec fn digit_char(digit: u8) -> char {
    (digit + 48) as char
}

/// The characters that stand for the digits.
pub open spec fn digit_chars(digits: Seq<u8>) -> Seq<char> {
    Seq::new(digits.len(), |k: int| digit_char(digits[k]))
}

/// The digits before the decimal point as they are written: a zero where
/// there is none.
spec fn whole_chars(digits: Seq<u8>) -> Seq<char> {
    if digits.len() == 0 {
        seq!['0']
    } else {
        digit_chars(digits)
    }
}

/// The text of a number without its sign.
spec fn unsigned_text(digits: Seq<u8>, scale: nat) -> Seq<char> {
    let whole = whole_chars(digits.take(digits.len() - scale));
    if scale == 0 {
        whole
    } else {
        whole + seq!['.'] + digit_chars(digits.skip(digits.len() - scale))
    }
}

/// Digits written as characters are read back as they were.
proof fn lemma_digit_chars(digits: Seq<u8>)
    requires
        are_digits(digits),
    ensures
        all_digit_chars(digit_chars(digits)),
        digit_values(digit_chars(digits)) == digits,
{
    assert(digit_values(digit_chars(digits)) =~= digits);
}

/// A zero in front of a number does not change it.
proof fn lemma_leading_zero(digits: Seq<u8>)
    ensures
        digits_number(seq![0u8] + digits) == digits_number(digits),
{
    let longer = seq![0u8] + digits;
    lemma_leading_digit(longer);
    assert(longer.drop_first() =~= digits);
    assert(0 * pow10((longer.len() - 1) as nat) == 0);
}

/// The text of a number stands for that number.
proof fn lemma_text_is_read_back(digits: Seq<u8>, scale: nat)
    requires
        are_digits(digits),
        scale <= digits.len(),
    ensures
        unsigned_text(digits, scale).len() > 0,
        is_digit_char(unsigned_text(digits, scale)[0]),
        unsigned_decimal(unsigned_text(digits, scale)) == Some(
            DecimalValue { unscaled: digits_number(digits) as int, scale },
        ),
{
    let front = digits.take(digits.len() - scale);
    let back = digits.skip(digits.len() - scale);
    let whole = whole_chars(front);
    let body = unsigned_text(digits, scale);
    lemma_digit_chars(front);
    lemma_digit_chars(back);
    assert(front + back =~= digits);
    assert(all_digit_chars(whole));
    assert(digits_number(digit_values(whole) + back) == digits_number(digits)) by {
        if front.len() == 0 {
            assert(digit_values(whole) =~= seq![0u8]);
            assert(back =~= digits);
            lemma_leading_zero(digits);
        } else {
            assert(digit_values(whole) == front);
        }
    }
    assert(is_digit_char(whole[0]));
    if scale == 0 {
        assert(back =~= Seq::<u8>::empty());
        assert(digit_values(whole) + back =~= digit_values(whole));
    } else {
        let point = whole.len() as int;
        assert(body[point] == '.');
        assert(body.take(point) =~= whole);
        assert(body.skip(point + 1) =~= digit_chars(back));
        assert(splits_at(body, point));
        assert(!is_digit_char(body[point]));
        assert(!all_digit_chars(body));
        let chosen = choose|chosen: int| splits_at(body, chosen);
        lemma_point_is_unique(body, point, chosen);
        assert(digit_values(whole + digit_chars(back)) =~= digit_values(whole) + back);
    }
}

/// The text of a number with its sign.
spec fn signed_text(negative: bool, digits: Seq<u8>, scale: nat) -> Seq<char> {
    if negative {
        seq!['-'] + unsigned_text(digits, scale)
    } else {
        unsigned_text(digits, scale)
    }
}

/// The text of a number with its sign stands for that number.
proof fn lemma_signed_text_is_read_back(negative: bool, digits: Seq<u8>, scale: nat)
    requires
        are_digits(digits),
        scale <= digits.len(),
    ensures
        decimal_of_text(signed_text(negative, digits, scale)) == Some(
            DecimalValue {
                unscaled: if negative {
                    -(digits_number(digits) as int)
                } else {
                    digits_number(digits) as int
                },
                scale,
            },
        ),
{
    let body = unsigned_text(digits, scale);
    let text = signed_text(negative, digits, scale);
    lemma_text_is_read_back(digits, scale);
    if negative {
        assert(has_sign(text));
        assert(text.skip(1) =~= body);
    } else {
        assert(text[0] == body[0]);
        assert(!has_sign(text));
    }
}

/// A product takes the sign of its first factor.
proof fn lemma_signed_product(negative: bool, number: nat, factor: nat)
    ensures
        (if negative {
            -(number as int)
        } else {
            number as int
        }) * factor == if negative {
            -(number * factor)
        } else {
            (number * factor) as int
        },
{
    assert((-(number as int)) * factor == -(number * factor)) by (nonlinear_arith);
}

/// The text of one digit.
fn digit_text(digit: u8) -> (text: &'static str)
    requires
        digit <= 9,
    ensures
        text@ == seq![digit_char(digit)],
{
    proof {
        reveal_strlit("0");
        reveal_strlit("1");
        reveal_strlit("2");
        reveal_strlit("3");
        reveal_strlit("4");
        reveal_strlit("5");
        reveal_strlit("6");
        reveal_strlit("7");
        reveal_strlit("8");
        reveal_strlit("9");
    }
    let text = match digit {
        0 => "0",
        1 => "1",
        2 => "2",
        3 => "3",
        4 => "4",
        5 => "5",
        6 => "6",
        7 => "7",
        8 => "8",
        _ => "9",
    };
    assert(text@ =~= seq![digit_char(digit)]);
    text
}

/// The text of the minus sign.
fn minus_text() -> (text: &'static str)
    ensures
        text@ == seq!['-'],
{
    proof {
        reveal_strlit("-");
    }
    let text = "-";
    assert(text@ =~= seq!['-']);
    text
}

/// The text of the decimal point.
fn point_text() -> (text: &'static str)
    ensures
        text@ == seq!['.'],
{
    proof {
        reveal_strlit(".");
    }
    let text = ".";
    assert(text@ =~= seq!['.']);
    text
}

/// Writes the digits from `from` up to `until` behind the text.
fn append_digits(text: &mut String, digits: &Vec<u8>, from: usize, until: usize)
    requires
        are_digits(digits@),
        from <= until <= digits@.len(),
    ensures
        final(text)@ == old(text)@ + digit_chars(digits@.subrange(from as int, until as int)),
{
    let mut at: usize = from;
    assert(old(text)@ + digit_chars(digits@.subrange(from as int, at as int)) =~= old(text)@);
    while at < until
        invariant
            from <= at <= until <= digits@.len(),
            are_digits(digits@),
            text@ == old(text)@ + digit_chars(digits@.subrange(from as int, at as int)),
        decreases until - at,
    {
        text.append(digit_text(digits[at]));
        assert(text@ =~= old(text)@ + digit_chars(digits@.subrange(from as int, at + 1)));
        at += 1;
    }
}

impl Decimal {
    #[verifier::type_invariant]
    spec fn well_formed(&self) -> bool {
        are_digits(self.digits@) && self.scale <= self.digits@.len()
    }

    /// The number zero.
    pub fn zero() -> (zero: Decimal)
        ensures
            zero@ == (DecimalValue { unscaled: 0, scale: 0 }),
    {
        Decimal { negative: false, digits: Vec::new(), scale: 0 }
    }

    /// Reads a number in plain decimal notation: an optional sign, then
    /// digits with at most one decimal point among them. Any other text is
    /// no number; that goes for exponent notation too, such as `1e3`.
    pub fn parse(text: &str) -> (parsed: Option<Decimal>)
        ensures
            parsed is Some <==> decimal_of_text(text@) is Some,
            parsed matches Some(decimal) ==> Some(decimal@) == decimal_of_text(text@),
    {
        let ghost body = unsigned_part(text@);
        if !text.is_ascii() {
            proof {
                let at = choose|at: int|
                    0 <= at < text@.len() && !('\0' <= #[trigger] text@[at] <= '\u{7f}');
                if has_sign(text@) {
                    assert(body[at - 1] == text@[at]);
                    lemma_foreign_char(body, at - 1);
                } else {
                    lemma_foreign_char(body, at);
                }
            }
            return None;
        }
        let bytes = text.as_bytes();
        proof {
            is_ascii_spec_bytes(text);
        }
        let length: usize = bytes.len();
        let mut negative = false;
        let mut first: usize = 0;
        if length > 0 && (bytes[0] == 43u8 || bytes[0] == 45u8) {
            negative = bytes[0] == 45u8;
            first = 1;
        }
        assert(body =~= text@.skip(first as int));
        let mut digits: Vec<u8> = Vec::new();
        let mut point: Option<usize> = None;
        let mut at: usize = first;
        while at < length
            invariant
                first <= at <= length,
                length == text@.len(),
                length == bytes@.len(),
                body == text@.skip(first as int),
                body == unsigned_part(text@),
                forall|k: int| 0 <= k < length ==> bytes@[k] == #[trigger] text@[k] as u8,
                forall|k: int| 0 <= k < length ==> '\0' <= #[trigger] text@[k] <= '\u{7f}',
                are_digits(digits@),
                match point {
                    Some(p) => {
                        &&& first <= p < at
                        &&& text@[p as int] == '.'
                        &&& all_digit_chars(body.take(p - first))
                        &&& all_digit_chars(body.subrange(p - first + 1, at - first))
                        &&& digits@ == digit_values(
                            body.take(p - first) + body.subrange(p - first + 1, at - first),
                        )
                    },
                    None => {
                        &&& all_digit_chars(body.take(at - first))
                        &&& digits@ == digit_values(body.take(at - first))
                    },
                },
            decreases length - at,
        {
            let byte: u8 = bytes[at];
            let ghost before = digits@;
            assert(body[at - first] == text@[at as int]);
            if 48u8 <= byte && byte <= 57u8 {
                digits.push(byte - 48u8);
                proof {
                    match point {
                        Some(p) => {
                            let old_tail = body.subrange(p - first + 1, at - first);
                            let new_tail = body.subrange(p - first + 1, at + 1 - first);
                            assert(new_tail =~= old_tail.push(body[at - first]));
                            assert(body.take(p - first) + new_tail =~= (body.take(p - first)
                                + old_tail).push(body[at - first]));
                            assert(digits@ =~= digit_values(body.take(p - first) + new_tail));
                        },
                        None => {
                            assert(body.take(at + 1 - first) =~= body.take(at - first).push(
                                body[at - first],
                            ));
                            assert(digits@ =~= digit_values(body.take(at + 1 - first)));
                        },
                    }
                }
            } else if byte == 46u8 {
                match point {
                    Some(p) => {
                        proof {
                            lemma_second_point(body, p - first, at - first);
                        }
                        return None;
                    },
                    None => {
                        point = Some(at);
                        proof {
                            assert(body.subrange(at - first + 1, at + 1 - first) =~= Seq::empty());
                            assert(body.take(at - first) + body.subrange(
                                at - first + 1,
                                at + 1 - first,
                            ) =~= body.take(at - first));
                        }
                    },
                }
            } else {
                proof {
                    lemma_foreign_char(body, at - first);
                }
                return None;
            }
            at += 1;
        }
        proof {
            match point {
                Some(p) => {
                    assert(body.subrange(p - first + 1, at - first) =~= body.skip(p - first + 1));
                    if digits@.len() > 0 {
                        assert(splits_at(body, p - first));
                        let chosen = choose|c: int| splits_at(body, c);
                        lemma_point_is_unique(body, p - first, chosen);
                        assert(!all_digit_chars(body));
                    } else {
                        assert(body.len() == 1);
                        assert forall|c: int| !splits_at(body, c) by {}
                        assert(!all_digit_chars(body));
                    }
                },
                None => {
                    assert(body.take(at - first) =~= body);
                },
            }
        }
        if digits.len() == 0 {
            return None;
        }
        let scale: usize = match point {
            Some(p) => length - p - 1,
            None => 0,
        };
        Some(Decimal { negative, digits, scale })
    }

    /// The exact sum of two numbers, at the larger of their scales and
    /// without zeros in front of it.
    pub fn add(&self, other: &Decimal) -> (sum: Decimal)
        ensures
            sum@ == self@.plus(other@),
    {
        proof {
            use_type_invariant(self);
            use_type_invariant(other);
        }
        let scale: usize = if self.scale >= other.scale {
            self.scale
        } else {
            other.scale
        };
        let shift_a: u128 = (scale - self.scale) as u128;
        let shift_b: u128 = (scale - other.scale) as u128;
        proof {
            lemma_signed_product(self.negative, digits_number(self.digits@), pow10(shift_a as nat));
            lemma_signed_product(
                other.negative,
                digits_number(other.digits@),
                pow10(shift_b as nat),
            );
        }
        if self.negative == other.negative {
            let digits = magnitude_sum(&self.digits, shift_a, &other.digits, shift_b);
            Decimal { negative: self.negative, digits: without_leading_zeros(digits, scale), scale }
        } else {
            let (digits, turned) = magnitude_difference(
                &self.digits,
                shift_a,
                &other.digits,
                shift_b,
            );
            Decimal {
                negative: if turned {
                    other.negative
                } else {
                    self.negative
                },
                digits: without_leading_zeros(digits, scale),
                scale,
            }
        }
    }

    /// The number divided by `divisor`, with at least `scale` digits behind
    /// the decimal point and what is left over dropped, so that the result
    /// lies between the exact quotient and zero. It has no zeros in front of
    /// it.
    pub fn quotient(&self, divisor: usize, scale: usize) -> (quotient: Decimal)
        requires
            divisor > 0,
        ensures
            quotient@ == self@.quotient(divisor as nat, scale as nat),
    {
        proof {
            use_type_invariant(self);
        }
        let scale: usize = if self.scale >= scale {
            self.scale
        } else {
            scale
        };
        let zeros: usize = scale - self.scale;
        proof {
            lemma_signed_product(self.negative, digits_number(self.digits@), pow10(zeros as nat));
        }
        let digits = digits_quotient(&self.digits, zeros, divisor);
        Decimal { negative: self.negative, digits: without_leading_zeros(digits, scale), scale }
    }

    /// The number in plain decimal notation: a minus sign where it carries
    /// one, its digits, at least one of them before the decimal point, and
    /// the decimal point only where digits follow it. Read back, the text
    /// gives the number again.
    pub fn to_text(&self) -> (text: String)
        ensures
            decimal_of_text(text@) == Some(self@),
    {
        proof {
            use_type_invariant(self);
        }
        let whole: usize = self.digits.len() - self.scale;
        let mut text = String::new();
        if self.negative {
            text.append(minus_text());
        }
        let ghost sign = text@;
        if whole == 0 {
            text.append(digit_text(0));
        }
        append_digits(&mut text, &self.digits, 0, whole);
        assert(text@ =~= sign + whole_chars(self.digits@.take(whole as int))) by {
            assert(self.digits@.subrange(0, whole as int) =~= self.digits@.take(whole as int));
        }
        if self.scale > 0 {
            text.append(point_text());
            append_digits(&mut text, &self.digits, whole, self.digits.len());
            assert(self.digits@.subrange(whole as int, self.digits@.len() as int)
                =~= self.digits@.skip(whole as int));
        }
        assert(text@ =~= signed_text(self.negative, self.digits@, self.scale as nat));
        proof {
            lemma_signed_text_is_read_back(self.negative, self.digits@, self.scale as nat);
        }
        text
    }

    /// Whether the number was written or summed with a minus sign. Zero may
    /// carry one.
    pub fn is_negative(&self) -> (negative: bool)
        ensures
            self@.unscaled < 0 ==> negative,
            negative ==> self@.unscaled <= 0,
    {
        self.negative
    }

    /// The digits of the number without its sign and decimal point, most
    /// significant first.
    pub fn digits(&self) -> (digits: &Vec<u8>)
        ensures
            are_digits(digits@),
            digits_number(digits@) == if self@.unscaled < 0 {
                -self@.unscaled
            } else {
                self@.unscaled
            },
    {
        proof {
            use_type_invariant(self);
        }
        &self.digits
    }

    /// How many of the digits stand behind the decimal point.
    pub fn scale(&self) -> (scale: usize)
        ensures
            scale == self@.scale,
    {
        self.scale
    }
}

} // verus!
