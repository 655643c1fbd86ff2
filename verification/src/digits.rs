//! Arithmetic on strings of decimal digits.
//!
//! A number is written by its digits, most significant first. To add or
//! subtract two numbers of different scales, each is taken as its digits
//! followed by a shift of zeros, and the work is done place by place, from the
//! place of the ones upwards.

use vstd::prelude::*;

verus! {

/// Ten to the power of `n`.
pub open spec fn pow10(n: nat) -> nat
    decreases n,
{
    if n == 0 {
        1
    } else {
        10 * pow10((n - 1) as nat)
    }
}

/// The number written by `digits`, most significant digit first.
pub open spec fn digits_number(digits: Seq<u8>) -> nat
    decreases digits.len(),
{
    if digits.len() == 0 {
        0
    } else {
        digits_number(digits.drop_last()) * 10 + digits.last() as nat
    }
}

/// Whether every element is a decimal digit.
pub open spec fn are_digits(digits: Seq<u8>) -> bool {
    forall|k: int| 0 <= k < digits.len() ==> #[trigger] digits[k] <= 9
}

/// The number written by `places`, least significant digit first.
pub open spec fn places_number(places: Seq<u8>) -> nat
    decreases places.len(),
{
    if places.len() == 0 {
        0
    } else {
        places_number(places.drop_last()) + places.last() as nat * pow10(
            (places.len() - 1) as nat,
        )
    }
}

/// The digit that counts multiples of `10^place` once `digits` is followed by
/// `shift` zeros.
pub open spec fn place_digit(digits: Seq<u8>, shift: nat, place: nat) -> nat {
    if shift <= place < shift + digits.len() {
        digits[digits.len() - 1 - (place - shift)] as nat
    } else {
        0
    }
}

/// The number made of the lowest `count` places of `digits` followed by
/// `shift` zeros.
pub open spec fn places_below(digits: Seq<u8>, shift: nat, count: nat) -> nat
    decreases count,
{
    if count == 0 {
        0
    } else {
        places_below(digits, shift, (count - 1) as nat) + place_digit(
            digits,
            shift,
            (count - 1) as nat,
        ) * pow10((count - 1) as nat)
    }
}

/// Powers of ten multiply as their exponents add.
pub(crate) proof fn lemma_pow10_adds(a: nat, b: nat)
    ensures
        pow10(a + b) == pow10(a) * pow10(b),
        pow10(a) > 0,
    decreases a,
{
    if a > 0 {
        lemma_pow10_adds((a - 1) as nat, b);
        assert(pow10(a + b) == 10 * pow10((a - 1 + b) as nat));
        assert(10 * (pow10((a - 1) as nat) * pow10(b)) == (10 * pow10((a - 1) as nat)) * pow10(b))
            by (nonlinear_arith);
    } else {
        assert(pow10(0) * pow10(b) == pow10(b)) by (nonlinear_arith)
            requires
                pow10(0) == 1,
        ;
    }
}

/// A number is its leading digit, weighted, and the number behind it.
pub(crate) proof fn lemma_leading_digit(digits: Seq<u8>)
    requires
        digits.len() > 0,
    ensures
        digits_number(digits) == digits[0] as nat * pow10((digits.len() - 1) as nat)
            + digits_number(digits.drop_first()),
    decreases digits.len(),
{
    if digits.len() == 1 {
        assert(digits.drop_last() =~= Seq::<u8>::empty());
        assert(digits.drop_first() =~= Seq::<u8>::empty());
        assert(pow10((digits.len() - 1) as nat) == 1);
    } else {
        let front = digits.drop_last();
        let rest = digits.drop_first();
        lemma_leading_digit(front);
        assert(front.drop_first() =~= rest.drop_last());
        let weight = pow10((front.len() - 1) as nat);
        assert(pow10((digits.len() - 1) as nat) == 10 * weight);
        assert((digits[0] as nat * weight + digits_number(front.drop_first())) * 10
            == digits[0] as nat * (10 * weight) + digits_number(front.drop_first()) * 10)
            by (nonlinear_arith);
    }
}

/// The lowest places of shifted digits make the number written by the last
/// digits, times the shift.
pub(crate) proof fn lemma_places_below(digits: Seq<u8>, shift: nat, count: nat)
    ensures
        count <= shift ==> places_below(digits, shift, count) == 0,
        shift <= count <= shift + digits.len() ==> places_below(digits, shift, count)
            == digits_number(digits.skip(digits.len() - (count - shift))) * pow10(shift),
        count >= shift + digits.len() ==> places_below(digits, shift, count) == digits_number(
            digits,
        ) * pow10(shift),
    decreases count,
{
    if count == 0 {
        assert(digits.skip(digits.len() as int) =~= Seq::<u8>::empty());
        assert(digits.skip(0) =~= digits);
        assert(0 * pow10(shift) == 0);
    } else {
        let below = (count - 1) as nat;
        lemma_places_below(digits, shift, below);
        if count <= shift {
            assert(0 * pow10(below) == 0);
        } else if count <= shift + digits.len() {
            let taken = count - shift;
            let tail = digits.skip(digits.len() - taken);
            lemma_leading_digit(tail);
            assert(tail.drop_first() =~= digits.skip(digits.len() - taken + 1));
            assert(tail[0] == digits[digits.len() - taken]);
            lemma_pow10_adds((taken - 1) as nat, shift);
            assert(below == taken - 1 + shift);
            let digit = tail[0] as nat;
            let rest = digits_number(tail.drop_first());
            if below == shift {
                assert(tail.drop_first() =~= Seq::<u8>::empty());
                assert(rest == 0);
            }
            assert(places_below(digits, shift, below) == rest * pow10(shift)) by {
                assert(0 * pow10(shift) == 0);
            }
            assert((digit * pow10((taken - 1) as nat) + rest) * pow10(shift) == rest * pow10(shift)
                + digit * (pow10((taken - 1) as nat) * pow10(shift))) by (nonlinear_arith);
            if count == shift + digits.len() {
                assert(tail =~= digits);
            }
        } else {
            assert(0 * pow10(below) == 0);
            assert(digits.skip(0) =~= digits);
        }
    }
}

/// All the places of shifted digits make the number written by the digits,
/// times the shift.
pub(crate) proof fn lemma_all_places(digits: Seq<u8>, shift: nat, count: nat)
    requires
        count >= shift + digits.len(),
    ensures
        places_below(digits, shift, count) == digits_number(digits) * pow10(shift),
{
    lemma_places_below(digits, shift, count);
}

/// Digits written least significant first stay below the next power of ten.
pub(crate) proof fn lemma_places_bound(places: Seq<u8>)
    requires
        are_digits(places),
    ensures
        places_number(places) < pow10(places.len()),
    decreases places.len(),
{
    if places.len() > 0 {
        lemma_places_bound(places.drop_last());
        let weight = pow10((places.len() - 1) as nat);
        assert(places.last() <= 9);
        assert(places.last() as nat * weight <= 9 * weight) by (nonlinear_arith)
            requires
                places.last() <= 9,
        ;
    }
}

/// One step of a long division yields one digit.
pub(crate) proof fn lemma_division_step(current: int, divisor: int)
    requires
        divisor > 0,
        0 <= current < 10 * divisor,
    ensures
        0 <= current / divisor <= 9,
        0 <= current % divisor < divisor,
        current == (current / divisor) * divisor + current % divisor,
{
    vstd::arithmetic::div_mod::lemma_fundamental_div_mod(current, divisor);
    assert(0 <= current / divisor <= 9) by (nonlinear_arith)
        requires
            divisor > 0,
            0 <= current < 10 * divisor,
            current == divisor * (current / divisor) + current % divisor,
            0 <= current % divisor < divisor,
    ;
    assert(divisor * (current / divisor) == (current / divisor) * divisor) by (nonlinear_arith);
}

/// A long division that has come to `quotient` and `rest` comes, with one
/// more digit, to the quotient with one more digit.
pub(crate) proof fn lemma_division_carries_on(
    quotient: int,
    divisor: int,
    rest: int,
    digit: int,
    next_digit: int,
    next_rest: int,
)
    requires
        rest * 10 + digit == next_digit * divisor + next_rest,
    ensures
        (quotient * divisor + rest) * 10 + digit == (quotient * 10 + next_digit) * divisor
            + next_rest,
{
    assert((quotient * divisor + rest) * 10 + digit == quotient * 10 * divisor + (rest * 10
        + digit)) by (nonlinear_arith);
    assert((quotient * 10 + next_digit) * divisor == quotient * 10 * divisor + next_digit
        * divisor) by (nonlinear_arith);
}

/// The digit at `place` of `digits` followed by `shift` zeros.
pub(crate) fn digit_at(digits: &Vec<u8>, shift: u128, place: u128) -> (digit: u8)
    requires
        are_digits(digits@),
    ensures
        digit == place_digit(digits@, shift as nat, place as nat),
        digit <= 9,
{
    if place < shift {
        0
    } else {
        let offset: u128 = place - shift;
        if offset < digits.len() as u128 {
            digits[digits.len() - 1 - offset as usize]
        } else {
            0
        }
    }
}

/// Adds two shifted digit strings place by place, up to `count` places, and
/// returns the places of the sum, least significant first.
pub(crate) fn sum_places(a: &Vec<u8>, shift_a: u128, b: &Vec<u8>, shift_b: u128, count: u128) -> (places: Vec<
    u8,
>)
    requires
        are_digits(a@),
        are_digits(b@),
    ensures
        are_digits(places@),
        places@.len() == count + 1,
        places_number(places@) == places_below(a@, shift_a as nat, count as nat) + places_below(
            b@,
            shift_b as nat,
            count as nat,
        ),
{
    let mut places: Vec<u8> = Vec::new();
    let mut carry: u8 = 0;
    let mut place: u128 = 0;
    while place < count
        invariant
            place <= count,
            carry <= 1,
            are_digits(a@),
            are_digits(b@),
            are_digits(places@),
            places@.len() == place,
            places_number(places@) + carry * pow10(place as nat) == places_below(
                a@,
                shift_a as nat,
                place as nat,
            ) + places_below(b@, shift_b as nat, place as nat),
        decreases count - place,
    {
        let digit_a: u8 = digit_at(a, shift_a, place);
        let digit_b: u8 = digit_at(b, shift_b, place);
        let total: u8 = digit_a + digit_b + carry;
        let ghost before = places@;
        let ghost weight = pow10(place as nat);
        places.push(total % 10);
        proof {
            assert(places@.drop_last() =~= before);
            assert(pow10((place + 1) as nat) == 10 * weight);
            assert((total % 10) as nat * weight + (total / 10) as nat * (10 * weight) == (digit_a
                + digit_b + carry) * weight) by (nonlinear_arith)
                requires
                    total == digit_a + digit_b + carry,
                    (total % 10) as nat + 10 * ((total / 10) as nat) == total,
            ;
            assert((digit_a + digit_b + carry) * weight == digit_a * weight + digit_b * weight
                + carry * weight) by (nonlinear_arith);
        }
        carry = total / 10;
        place += 1;
    }
    let ghost before = places@;
    places.push(carry);
    proof {
        assert(places@.drop_last() =~= before);
    }
    places
}

/// Subtracts the second shifted digit string from the first, place by place
/// over `count` places. The flag says that the second was the larger: the
/// places then stand for the difference plus `10^count`.
pub(crate) fn difference_places(
    a: &Vec<u8>,
    shift_a: u128,
    b: &Vec<u8>,
    shift_b: u128,
    count: u128,
) -> (result: (Vec<u8>, bool))
    requires
        are_digits(a@),
        are_digits(b@),
    ensures
        are_digits(result.0@),
        result.0@.len() == count,
        places_number(result.0@) + places_below(b@, shift_b as nat, count as nat) == places_below(
            a@,
            shift_a as nat,
            count as nat,
        ) + if result.1 {
            pow10(count as nat)
        } else {
            0
        },
{
    let mut places: Vec<u8> = Vec::new();
    let mut borrow: u8 = 0;
    let mut place: u128 = 0;
    while place < count
        invariant
            place <= count,
            borrow <= 1,
            are_digits(a@),
            are_digits(b@),
            are_digits(places@),
            places@.len() == place,
            places_number(places@) + places_below(b@, shift_b as nat, place as nat)
                == places_below(a@, shift_a as nat, place as nat) + borrow * pow10(place as nat),
        decreases count - place,
    {
        let digit_a: u8 = digit_at(a, shift_a, place);
        let taken: u8 = digit_at(b, shift_b, place) + borrow;
        let ghost before = places@;
        let ghost weight = pow10(place as nat);
        let ghost old_borrow = borrow;
        let digit: u8 = if digit_a >= taken {
            borrow = 0;
            digit_a - taken
        } else {
            borrow = 1;
            digit_a + 10 - taken
        };
        places.push(digit);
        proof {
            assert(places@.drop_last() =~= before);
            assert(pow10((place + 1) as nat) == 10 * weight);
            assert(digit * weight + (taken - old_borrow) * weight + old_borrow * weight == digit_a
                * weight + borrow * (10 * weight)) by (nonlinear_arith)
                requires
                    digit + taken == digit_a + 10 * borrow,
            ;
        }
        place += 1;
    }
    (places, borrow == 1)
}

/// Turns places, least significant first, into digits, most significant
/// first.
pub(crate) fn digits_of_places(places: &Vec<u8>) -> (digits: Vec<u8>)
    requires
        are_digits(places@),
    ensures
        are_digits(digits@),
        digits@.len() == places@.len(),
        digits_number(digits@) == places_number(places@),
{
    let mut digits: Vec<u8> = Vec::new();
    let mut left: usize = places.len();
    assert(places@.take(left as int) =~= places@);
    assert(digits_number(digits@) * pow10(left as nat) == 0) by (nonlinear_arith)
        requires
            digits_number(digits@) == 0,
    ;
    while left > 0
        invariant
            left <= places.len(),
            are_digits(places@),
            are_digits(digits@),
            digits@.len() + left == places@.len(),
            digits_number(digits@) * pow10(left as nat) + places_number(places@.take(left as int))
                == places_number(places@),
        decreases left,
    {
        let ghost before = digits@;
        let ghost weight = pow10((left - 1) as nat);
        let digit: u8 = places[left - 1];
        digits.push(digit);
        proof {
            assert(digits@.drop_last() =~= before);
            assert(places@.take(left as int).drop_last() =~= places@.take(left - 1));
            assert(pow10(left as nat) == 10 * weight);
            assert((digits_number(before) * 10 + digit) * weight == digits_number(before) * (10
                * weight) + digit * weight) by (nonlinear_arith);
        }
        left -= 1;
    }
    assert(places@.take(0) =~= Seq::<u8>::empty());
    assert(digits_number(digits@) * 1 == digits_number(digits@));
    digits
}

/// The digits without the zeros in front of them, but for the last `keep`
/// digits, which all stay.
pub(crate) fn without_leading_zeros(digits: Vec<u8>, keep: usize) -> (trimmed: Vec<u8>)
    requires
        are_digits(digits@),
        keep <= digits@.len(),
    ensures
        are_digits(trimmed@),
        keep <= trimmed@.len() <= digits@.len(),
        digits_number(trimmed@) == digits_number(digits@),
        trimmed@.len() > keep ==> trimmed@[0] != 0,
{
    let most: usize = digits.len() - keep;
    let mut start: usize = 0;
    assert(digits@.skip(0) =~= digits@);
    while start < most && digits[start] == 0
        invariant
            start <= most,
            most + keep == digits@.len(),
            digits_number(digits@.skip(start as int)) == digits_number(digits@),
        decreases most - start,
    {
        proof {
            let rest = digits@.skip(start as int);
            lemma_leading_digit(rest);
            assert(rest.drop_first() =~= digits@.skip(start + 1));
            assert(0 * pow10((rest.len() - 1) as nat) == 0);
        }
        start += 1;
    }
    let mut trimmed: Vec<u8> = Vec::new();
    let mut at: usize = start;
    while at < digits.len()
        invariant
            start <= at <= digits@.len(),
            trimmed@ =~= digits@.subrange(start as int, at as int),
        decreases digits.len() - at,
    {
        trimmed.push(digits[at]);
        at += 1;
    }
    assert(trimmed@ =~= digits@.skip(start as int));
    trimmed
}

/// How many places two shifted digit strings take up.
pub(crate) fn places_taken(a: &Vec<u8>, shift_a: u128, b: &Vec<u8>, shift_b: u128) -> (count: u128)
    requires
        shift_a <= usize::MAX,
        shift_b <= usize::MAX,
    ensures
        count >= shift_a + a@.len(),
        count >= shift_b + b@.len(),
{
    let reach_a: u128 = a.len() as u128 + shift_a;
    let reach_b: u128 = b.len() as u128 + shift_b;
    if reach_a >= reach_b {
        reach_a
    } else {
        reach_b
    }
}

/// The digits of the sum of two shifted digit strings.
pub(crate) fn magnitude_sum(a: &Vec<u8>, shift_a: u128, b: &Vec<u8>, shift_b: u128) -> (digits: Vec<u8>)
    requires
        are_digits(a@),
        are_digits(b@),
        shift_a <= usize::MAX,
        shift_b <= usize::MAX,
    ensures
        are_digits(digits@),
        digits@.len() >= shift_a + a@.len(),
        digits@.len() >= shift_b + b@.len(),
        digits_number(digits@) == digits_number(a@) * pow10(shift_a as nat) + digits_number(b@)
            * pow10(shift_b as nat),
{
    let count = places_taken(a, shift_a, b, shift_b);
    proof {
        lemma_all_places(a@, shift_a as nat, count as nat);
        lemma_all_places(b@, shift_b as nat, count as nat);
    }
    let places = sum_places(a, shift_a, b, shift_b, count);
    digits_of_places(&places)
}

/// The digits of the difference of two shifted digit strings, the smaller
/// taken from the larger. The flag says that the first was the smaller.
pub(crate) fn magnitude_difference(a: &Vec<u8>, shift_a: u128, b: &Vec<u8>, shift_b: u128) -> (result: (
    Vec<u8>,
    bool,
))
    requires
        are_digits(a@),
        are_digits(b@),
        shift_a <= usize::MAX,
        shift_b <= usize::MAX,
    ensures
        are_digits(result.0@),
        result.0@.len() >= shift_a + a@.len(),
        result.0@.len() >= shift_b + b@.len(),
        digits_number(result.0@) == if result.1 {
            digits_number(b@) * pow10(shift_b as nat) - digits_number(a@) * pow10(shift_a as nat)
        } else {
            digits_number(a@) * pow10(shift_a as nat) - digits_number(b@) * pow10(shift_b as nat)
        },
{
    let count = places_taken(a, shift_a, b, shift_b);
    proof {
        lemma_all_places(a@, shift_a as nat, count as nat);
        lemma_all_places(b@, shift_b as nat, count as nat);
    }
    let (places, borrowed) = difference_places(a, shift_a, b, shift_b, count);
    proof {
        lemma_places_bound(places@);
    }
    if !borrowed {
        (digits_of_places(&places), false)
    } else {
        let (turned, again) = difference_places(b, shift_b, a, shift_a, count);
        proof {
            lemma_places_bound(turned@);
        }
        (digits_of_places(&turned), true)
    }
}

/// The digits of a number divided by `divisor`, what is left over dropped,
/// where the number is written by `digits` followed by `zeros` zeros.
pub(crate) fn digits_quotient(digits: &Vec<u8>, zeros: usize, divisor: usize) -> (quotient: Vec<u8>)
    requires
        are_digits(digits@),
        divisor > 0,
    ensures
        are_digits(quotient@),
        quotient@.len() == digits@.len() + zeros,
        digits_number(quotient@) == (digits_number(digits@) * pow10(zeros as nat)) / (
        divisor as nat),
{
    let mut quotient: Vec<u8> = Vec::new();
    let mut rest: u128 = 0;
    let mut at: usize = 0;
    assert(digits@.take(0) =~= Seq::<u8>::empty());
    assert(digits_number(quotient@) * divisor == 0) by (nonlinear_arith)
        requires
            digits_number(quotient@) == 0,
    ;
    while at < digits.len()
        invariant
            at <= digits.len(),
            divisor > 0,
            rest < divisor,
            are_digits(digits@),
            are_digits(quotient@),
            quotient@.len() == at,
            digits_number(digits@.take(at as int)) == digits_number(quotient@) * divisor + rest,
        decreases digits.len() - at,
    {
        let ghost before = quotient@;
        let ghost left = rest;
        let digit: u8 = digits[at];
        let current: u128 = rest * 10 + digit as u128;
        proof {
            lemma_division_step(current as int, divisor as int);
            assert(digits@.take(at + 1).drop_last() =~= digits@.take(at as int));
        }
        quotient.push((current / divisor as u128) as u8);
        rest = current % divisor as u128;
        proof {
            assert(quotient@.drop_last() =~= before);
            lemma_division_carries_on(
                digits_number(before) as int,
                divisor as int,
                left as int,
                digit as int,
                current as int / divisor as int,
                rest as int,
            );
        }
        at += 1;
    }
    assert(digits@.take(at as int) =~= digits@);
    let mut added: usize = 0;
    assert(digits_number(digits@) * pow10(0) == digits_number(digits@)) by (nonlinear_arith)
        requires
            pow10(0) == 1,
    ;
    while added < zeros
        invariant
            added <= zeros,
            divisor > 0,
            rest < divisor,
            are_digits(quotient@),
            quotient@.len() == digits@.len() + added,
            digits_number(digits@) * pow10(added as nat) == digits_number(quotient@) * divisor
                + rest,
        decreases zeros - added,
    {
        let ghost before = quotient@;
        let ghost left = rest;
        let ghost number = digits_number(digits@) * pow10(added as nat);
        let current: u128 = rest * 10;
        proof {
            lemma_division_step(current as int, divisor as int);
        }
        quotient.push((current / divisor as u128) as u8);
        rest = current % divisor as u128;
        proof {
            assert(quotient@.drop_last() =~= before);
            lemma_division_carries_on(
                digits_number(before) as int,
                divisor as int,
                left as int,
                0,
                current as int / divisor as int,
                rest as int,
            );
            assert(digits_number(digits@) * pow10((added + 1) as nat) == number * 10)
                by (nonlinear_arith)
                requires
                    pow10((added + 1) as nat) == 10 * pow10(added as nat),
                    number == digits_number(digits@) * pow10(added as nat),
            ;
        }
        added += 1;
    }
    proof {
        vstd::arithmetic::div_mod::lemma_fundamental_div_mod_converse(
            (digits_number(digits@) * pow10(zeros as nat)) as int,
            divisor as int,
            digits_number(quotient@) as int,
            rest as int,
        );
    }
    quotient
}

} // verus!
