//! Decimal text with one fractional digit, and the whole number of tenths
//! that it stands for.
//!
//! A value is written `-?D{1,3}.D`: an optional minus sign, one to three
//! digits, a dot and one digit. `23.5` stands for 235 tenths, `-5.2` for -52.
//! Nothing here goes through floating point.

use vstd::prelude::*;
use crate::error::FormatError;

verus! {

/// The byte `-`.
pub const MINUS: u8 = 0x2d;

/// The byte `.`.
pub const DOT: u8 = 0x2e;

/// The byte `0`.
pub const ZERO: u8 = 0x30;

/// The byte `9`.
pub const NINE: u8 = 0x39;

/// `b` is one of the bytes `0` to `9`.
pub open spec fn is_digit(b: u8) -> bool {
    ZERO <= b <= NINE
}

/// The number that the digit `b` stands for.
pub open spec fn digit_value(b: u8) -> int {
    b - ZERO
}

/// The number that a run of digits stands for, read in base ten.
pub open spec fn whole_value(run: Seq<u8>) -> int
    decreases run.len(),
{
    if run.len() == 0 {
        0
    } else {
        10 * whole_value(run.drop_last()) + digit_value(run.last())
    }
}

/// `text` is `D{1,3}.D`: one to three digits, a dot, one digit.
pub open spec fn is_magnitude(text: Seq<u8>) -> bool {
    &&& 3 <= text.len() <= 5
    &&& forall|i: int| 0 <= i < text.len() - 2 ==> is_digit(#[trigger] text[i])
    &&& text[text.len() - 2] == DOT
    &&& is_digit(text[text.len() - 1])
}

/// The tenths that an unsigned `text` stands for.
pub open spec fn magnitude_value(text: Seq<u8>) -> int {
    10 * whole_value(text.take(text.len() - 2)) + digit_value(text.last())
}

/// `text` starts with a minus sign.
pub open spec fn is_negative(text: Seq<u8>) -> bool {
    text.len() > 0 && text[0] == MINUS
}

/// `text` is `-?D{1,3}.D`.
pub open spec fn is_decimal(text: Seq<u8>) -> bool {
    if is_negative(text) {
        is_magnitude(text.skip(1))
    } else {
        is_magnitude(text)
    }
}

/// The tenths that `text` stands for.
pub open spec fn decimal_value(text: Seq<u8>) -> int {
    if is_negative(text) {
        -magnitude_value(text.skip(1))
    } else {
        magnitude_value(text)
    }
}

/// `text` is written the way [`render_tenths`] writes: a whole part of more
/// than one digit does not start with `0`, and zero carries no sign.
pub open spec fn is_canonical(text: Seq<u8>) -> bool {
    let body = if is_negative(text) {
        text.skip(1)
    } else {
        text
    };
    &&& body.len() > 3 ==> body[0] != ZERO
    &&& is_negative(text) ==> magnitude_value(body) != 0
}

/// The decimal digits of `n`, most significant first, without leading zeros.
pub open spec fn digits(n: nat) -> Seq<u8>
    decreases n,
{
    if n < 10 {
        seq![(ZERO + n) as u8]
    } else {
        digits(n / 10).push((ZERO + n % 10) as u8)
    }
}

/// `v` tenths written as a decimal with one fractional digit.
pub open spec fn render_tenths(v: int) -> Seq<u8> {
    let m = if v < 0 {
        -v
    } else {
        v
    };
    let body = digits((m / 10) as nat).push(DOT).push((ZERO + m % 10) as u8);
    if v < 0 {
        seq![MINUS] + body
    } else {
        body
    }
}

/// A run of up to three digits stands for a number from 0 to 999.
pub proof fn lemma_whole_value_range(run: Seq<u8>)
    requires
        run.len() <= 3,
        forall|i: int| 0 <= i < run.len() ==> is_digit(#[trigger] run[i]),
    ensures
        0 <= whole_value(run) <= 999,
        run.len() <= 2 ==> whole_value(run) <= 99,
        run.len() <= 1 ==> whole_value(run) <= 9,
        run.len() == 0 ==> whole_value(run) == 0,
        run.len() >= 1 && run[0] != ZERO ==> whole_value(run) >= 1,
        run.len() >= 2 && run[0] != ZERO ==> whole_value(run) >= 10,
        run.len() >= 3 && run[0] != ZERO ==> whole_value(run) >= 100,
    decreases run.len(),
{
    if run.len() > 0 {
        lemma_whole_value_range(run.drop_last());
    }
}

/// Every value of the format lies between -9999 and 9999 tenths.
pub proof fn lemma_decimal_range(text: Seq<u8>)
    requires
        is_decimal(text),
    ensures
        -9999 <= decimal_value(text) <= 9999,
        !is_negative(text) ==> 0 <= decimal_value(text),
        is_negative(text) ==> decimal_value(text) <= 0,
{
    let body = if is_negative(text) {
        text.skip(1)
    } else {
        text
    };
    lemma_whole_value_range(body.take(body.len() - 2));
}

/// Reads `D{1,3}.D` as tenths, and rejects every other text.
pub fn parse_temperature_inner(temperature: &[u8]) -> (result: Result<i16, FormatError>)
    ensures
        match result {
            Ok(v) => is_magnitude(temperature@) && v == magnitude_value(temperature@),
            Err(e) => !is_magnitude(temperature@) && e == FormatError::MalformedValue,
        },
{
    let n = temperature.len();
    if n < 3 || n > 5 {
        return Err(FormatError::MalformedValue);
    }
    if temperature[n - 2] != DOT {
        return Err(FormatError::MalformedValue);
    }
    let tenth = temperature[n - 1];
    if tenth < ZERO || tenth > NINE {
        return Err(FormatError::MalformedValue);
    }
    let mut whole: i16 = 0;
    let mut i: usize = 0;
    while i < n - 2
        invariant
            n == temperature@.len(),
            3 <= n <= 5,
            0 <= i <= n - 2,
            forall|j: int| 0 <= j < i ==> is_digit(#[trigger] temperature@[j]),
            whole == whole_value(temperature@.take(i as int)),
            0 <= whole <= 999,
            i <= 2 ==> whole <= 99,
        decreases n - i,
    {
        let d = temperature[i];
        if d < ZERO || d > NINE {
            return Err(FormatError::MalformedValue);
        }
        proof {
            let next = temperature@.take(i + 1);
            assert(next.drop_last() =~= temperature@.take(i as int));
            lemma_whole_value_range(next);
        }
        whole = whole * 10 + (d - ZERO) as i16;
        i = i + 1;
    }
    Ok(whole * 10 + (tenth - ZERO) as i16)
}

/// Reads `-?D{1,3}.D` as tenths, and rejects every other text.
///
/// `23.5` gives 235, `-5.2` gives -52 and `0.0` gives 0. The result lies
/// between -9999 and 9999.
pub fn parse_temperature(temperature: &[u8]) -> (result: Result<i16, FormatError>)
    ensures
        match result {
            Ok(v) => is_decimal(temperature@) && v == decimal_value(temperature@) && -9999 <= v
                <= 9999,
            Err(e) => !is_decimal(temperature@) && e == FormatError::MalformedValue,
        },
{
    let n = temperature.len();
    if n > 0 && temperature[0] == MINUS {
        let body = &temperature[1..n];
        assert(body@ =~= temperature@.skip(1));
        match parse_temperature_inner(body) {
            Ok(v) => {
                proof {
                    lemma_decimal_range(temperature@);
                }
                Ok(-v)
            },
            Err(e) => Err(e),
        }
    } else {
        match parse_temperature_inner(temperature) {
            Ok(v) => {
                proof {
                    lemma_decimal_range(temperature@);
                }
                Ok(v)
            },
            Err(e) => Err(e),
        }
    }
}

/// Appends the decimal digits of `n` to `out`.
pub fn push_digits(out: &mut Vec<u8>, n: u16)
    ensures
        final(out)@ == old(out)@ + digits(n as nat),
    decreases n,
{
    if n >= 10 {
        push_digits(out, n / 10);
    }
    out.push(ZERO + (n % 10) as u8);
    assert(final(out)@ =~= old(out)@ + digits(n as nat));
}

/// Appends `v` tenths to `out`, written with one fractional digit.
pub fn push_tenths(out: &mut Vec<u8>, v: i16)
    ensures
        final(out)@ == old(out)@ + render_tenths(v as int),
{
    let wide: i32 = v as i32;
    let m: i32 = if wide < 0 {
        -wide
    } else {
        wide
    };
    if v < 0 {
        out.push(MINUS);
    }
    push_digits(out, (m / 10) as u16);
    out.push(DOT);
    out.push(ZERO + (m % 10) as u8);
    assert(final(out)@ =~= old(out)@ + render_tenths(v as int));
}

/// `v` tenths written with one fractional digit: 235 gives `23.5`, -52 gives
/// `-5.2` and 0 gives `0.0`.
pub fn format_tenths(v: i16) -> (text: Vec<u8>)
    ensures
        text@ == render_tenths(v as int),
{
    let mut text: Vec<u8> = Vec::new();
    push_tenths(&mut text, v);
    text
}

/// What [`digits`] writes is a run of digits that stands for `n`, as long as
/// `n` has digits, and it starts with `0` only where `n` is a single digit.
pub proof fn lemma_digits(n: nat)
    ensures
        digits(n).len() >= 1,
        forall|i: int| 0 <= i < digits(n).len() ==> is_digit(#[trigger] digits(n)[i]),
        whole_value(digits(n)) == n,
        n < 10 <==> digits(n).len() == 1,
        10 <= n < 100 <==> digits(n).len() == 2,
        100 <= n < 1000 <==> digits(n).len() == 3,
        n >= 10 ==> digits(n)[0] != ZERO,
    decreases n,
{
    if n < 10 {
        assert(digits(n).drop_last() =~= Seq::<u8>::empty());
        assert(whole_value(digits(n).drop_last()) == 0);
    } else {
        lemma_digits(n / 10);
        assert(digits(n).drop_last() =~= digits(n / 10));
    }
}

/// A run of digits without a leading zero is what [`digits`] writes for the
/// number that it stands for.
pub proof fn lemma_digits_of_whole_value(run: Seq<u8>)
    requires
        run.len() >= 1,
        forall|i: int| 0 <= i < run.len() ==> is_digit(#[trigger] run[i]),
        run.len() > 1 ==> run[0] != ZERO,
    ensures
        whole_value(run) >= 0,
        run.len() > 1 ==> whole_value(run) >= 10,
        run[0] != ZERO ==> whole_value(run) >= 1,
        digits(whole_value(run) as nat) == run,
    decreases run.len(),
{
    if run.len() == 1 {
        assert(run.drop_last() =~= Seq::<u8>::empty());
        assert(whole_value(run.drop_last()) == 0);
        assert(digits(whole_value(run) as nat) =~= run);
    } else {
        let front = run.drop_last();
        assert(front[0] == run[0]);
        lemma_digits_of_whole_value(front);
        let n = whole_value(run) as nat;
        assert(n / 10 == whole_value(front));
        assert(n % 10 == digit_value(run.last()));
        assert(digits(n) =~= run);
    }
}

/// Writing a value and reading it back gives the value: for every `v` from
/// -9999 to 9999, the text for `v` is of the format and stands for `v`.
pub proof fn lemma_render_then_decode(v: int)
    requires
        -9999 <= v <= 9999,
    ensures
        is_decimal(render_tenths(v)),
        is_canonical(render_tenths(v)),
        decimal_value(render_tenths(v)) == v,
{
    let m = if v < 0 {
        -v
    } else {
        v
    };
    let w = (m / 10) as nat;
    let body = digits(w).push(DOT).push((ZERO + m % 10) as u8);
    lemma_digits(w);
    assert(body.take(body.len() - 2) =~= digits(w));
    assert(is_magnitude(body));
    assert(magnitude_value(body) == m);
    if v < 0 {
        assert(render_tenths(v).skip(1) =~= body);
    } else {
        assert(!is_negative(body));
    }
}

/// Reading a text and writing the value back gives the text, for every text
/// of the format that is written without a leading zero on a whole part of
/// two or three digits and without a sign on zero.
pub proof fn lemma_decode_then_render(text: Seq<u8>)
    requires
        is_decimal(text),
        is_canonical(text),
    ensures
        render_tenths(decimal_value(text)) == text,
{
    let body = if is_negative(text) {
        text.skip(1)
    } else {
        text
    };
    let run = body.take(body.len() - 2);
    lemma_whole_value_range(run);
    lemma_digits_of_whole_value(run);
    let m = magnitude_value(body);
    assert(m / 10 == whole_value(run));
    assert(m % 10 == digit_value(body.last()));
    assert(digits((m / 10) as nat).push(DOT).push((ZERO + m % 10) as u8) =~= body);
    if is_negative(text) {
        assert(seq![MINUS] + body =~= text);
    }
}

} // verus!
