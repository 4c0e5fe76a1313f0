//! Integer-only KRON amounts.

use vstd::prelude::*;

use crate::economics::UNITS_PER_COIN;
use crate::text::{all_digits, chars_of, decimal, decimal_text, decimal_value, digit, is_digit,
    lemma_decimal_round_trip, parse_number, push_chars, push_text, trim, trimmed, trimmed_end,
    trimmed_start};

verus! {

/// Decimal places of an amount.
pub const PLACES: usize = 6;

/// Why a text is no amount.
#[derive(Clone, Copy, Debug, PartialEq, Eq, Structural)]
pub enum ParseAmountError {
    Empty,
    InvalidChars,
    TooManyDecimals,
    TooManySeparators,
    Overflow,
}

impl ParseAmountError {
    pub open spec fn spec_message(&self) -> Seq<char> {
        match self {
            ParseAmountError::Empty => "amount is empty"@,
            ParseAmountError::InvalidChars => "amount contains invalid characters"@,
            ParseAmountError::TooManyDecimals => "maximum 6 decimal places"@,
            ParseAmountError::TooManySeparators => "too many decimal separators"@,
            ParseAmountError::Overflow => "amount exceeds u64"@,
        }
    }

    /// The error as a line of text.
    pub fn message(&self) -> (r: &'static str)
        ensures
            r@ == self.spec_message(),
    {
        match self {
            ParseAmountError::Empty => "amount is empty",
            ParseAmountError::InvalidChars => "amount contains invalid characters",
            ParseAmountError::TooManyDecimals => "maximum 6 decimal places",
            ParseAmountError::TooManySeparators => "too many decimal separators",
            ParseAmountError::Overflow => "amount exceeds u64",
        }
    }
}

/// A decimal separator: point or comma.
pub open spec fn is_separator(c: char) -> bool {
    c == '.' || c == ','
}

/// How many separators stand in `s`.
pub open spec fn separators(s: Seq<char>) -> nat
    decreases s.len(),
{
    if s.len() == 0 {
        0
    } else {
        separators(s.drop_last()) + (if is_separator(s.last()) {
            1nat
        } else {
            0nat
        })
    }
}

/// Where the first separator stands; the length where there is none.
pub open spec fn separator_place(s: Seq<char>, i: int) -> int
    decreases s.len() - i,
{
    if 0 <= i < s.len() && !is_separator(s[i]) {
        separator_place(s, i + 1)
    } else {
        i
    }
}

/// The digits before the separator.
pub open spec fn whole_part(s: Seq<char>) -> Seq<char> {
    s.take(separator_place(s, 0))
}

/// The digits behind the separator.
pub open spec fn fraction_part(s: Seq<char>) -> Seq<char> {
    if separator_place(s, 0) < s.len() {
        s.skip(separator_place(s, 0) + 1)
    } else {
        Seq::empty()
    }
}

/// Ten to the power `n`.
pub open spec fn ten_to(n: nat) -> nat
    decreases n,
{
    if n == 0 {
        1
    } else {
        10 * ten_to((n - 1) as nat)
    }
}

/// The minor units that an amount text stands for.
pub open spec fn parsed_amount(input: Seq<char>) -> Result<u64, ParseAmountError> {
    let s = trimmed(input);
    let whole = whole_part(s);
    let frac = fraction_part(s);
    let units = decimal_value(whole) * UNITS_PER_COIN as nat + decimal_value(frac) * ten_to(
        (PLACES - frac.len()) as nat,
    );
    if s.len() == 0 {
        Err(ParseAmountError::Empty)
    } else if separators(s) > 1 {
        Err(ParseAmountError::TooManySeparators)
    } else if whole.len() == 0 && frac.len() == 0 {
        Err(ParseAmountError::Empty)
    } else if !all_digits(whole) || !all_digits(frac) {
        Err(ParseAmountError::InvalidChars)
    } else if frac.len() > PLACES {
        Err(ParseAmountError::TooManyDecimals)
    } else if units > u64::MAX {
        Err(ParseAmountError::Overflow)
    } else {
        Ok(units as u64)
    }
}

fn separator(c: char) -> (r: bool)
    ensures
        r == is_separator(c),
{
    c == '.' || c == ','
}

fn count_separators(s: &[char]) -> (r: usize)
    ensures
        r == separators(s@),
        r <= s@.len(),
{
    let mut n: usize = 0;
    let mut i: usize = 0;
    while i < s.len()
        invariant
            i <= s@.len(),
            n == separators(s@.take(i as int)),
            n <= i,
        decreases s@.len() - i,
    {
        assert(s@.take(i + 1).drop_last() =~= s@.take(i as int));
        if separator(s[i]) {
            n += 1;
        }
        i += 1;
    }
    assert(s@.take(i as int) =~= s@);
    n
}

fn digits_only(s: &[char]) -> (r: bool)
    ensures
        r == all_digits(s@),
{
    let mut i: usize = 0;
    while i < s.len()
        invariant
            i <= s@.len(),
            forall|j: int| 0 <= j < i ==> is_digit(#[trigger] s@[j]),
        decreases s@.len() - i,
    {
        if !digit(s[i]) {
            return false;
        }
        i += 1;
    }
    true
}

fn find_separator(s: &[char]) -> (r: usize)
    ensures
        r == separator_place(s@, 0),
        r <= s@.len(),
{
    let mut i: usize = 0;
    while i < s.len() && !separator(s[i])
        invariant
            i <= s@.len(),
            separator_place(s@, 0) == separator_place(s@, i as int),
        decreases s@.len() - i,
    {
        i += 1;
    }
    i
}

/// The value of digits, where it fits.
fn digits_value(s: &[char]) -> (r: Option<u64>)
    requires
        all_digits(s@),
    ensures
        match r {
            Some(n) => n == decimal_value(s@),
            None => decimal_value(s@) > u64::MAX,
        },
{
    if s.len() == 0 {
        return Some(0);
    }
    assert(is_digit(s@[0]));
    parse_number(s, u64::MAX)
}

proof fn lemma_fraction_bound(s: Seq<char>)
    requires
        all_digits(s),
    ensures
        decimal_value(s) < ten_to(s.len()),
    decreases s.len(),
{
    if s.len() > 0 {
        let h = s.drop_last();
        assert forall|i: int| 0 <= i < h.len() implies is_digit(#[trigger] h[i]) by {
            assert(is_digit(s[i]));
        }
        lemma_fraction_bound(h);
        assert(is_digit(s[s.len() - 1]));
    }
}

proof fn lemma_ten_to_sum(a: nat, b: nat)
    ensures
        ten_to(a + b) == ten_to(a) * ten_to(b),
    decreases a,
{
    if a > 0 {
        lemma_ten_to_sum((a - 1) as nat, b);
        assert(10 * (ten_to((a - 1) as nat) * ten_to(b)) == (10 * ten_to((a - 1) as nat)) * ten_to(
            b,
        )) by (nonlinear_arith);
    } else {
        let t = ten_to(b);
        assert(1 * t == t);
        assert(ten_to(0) == 1);
    }
}

/// The fraction in minor units.
pub(crate) fn fraction_units(frac: &[char]) -> (r: u64)
    requires
        all_digits(frac@),
        frac@.len() <= PLACES,
    ensures
        r == decimal_value(frac@) * ten_to((PLACES - frac@.len()) as nat),
        r < UNITS_PER_COIN,
{
    proof {
        lemma_fraction_bound(frac@);
        lemma_ten_to_sum(frac@.len(), (PLACES - frac@.len()) as nat);
        reveal_with_fuel(ten_to, 7);
        assert(ten_to(6) == 1_000_000);
    }
    let mut units: u64 = match digits_value(frac) {
        Some(n) => n,
        None => 0,
    };
    proof {
        assert(ten_to(frac@.len()) <= 1_000_000);
    }
    let n: usize = frac.len();
    let mut i: usize = n;
    proof {
        let v = decimal_value(frac@);
        assert(v * 1 == v);
        assert(ten_to(0) == 1);
    }
    while i < PLACES
        invariant
            n <= i <= PLACES,
            n == frac@.len(),
            units == decimal_value(frac@) * ten_to((i - n) as nat),
            units < ten_to(i as nat),
            ten_to(6) == 1_000_000,
        decreases PLACES - i,
    {
        proof {
            reveal_with_fuel(ten_to, 7);
            assert(ten_to(i as nat) <= 100_000);
            let v = decimal_value(frac@);
            let t = ten_to((i - n) as nat);
            assert(10 * (v * t) == v * (10 * t)) by (nonlinear_arith);
        }
        units = units * 10;
        i += 1;
    }
    units
}

/// Parses a human amount (`1.5` or `1,5`) into minor units. A second separator is
/// refused, so that `1.500,00` is not misread.
pub fn parse_kron_amount(input: &str) -> (r: Result<u64, ParseAmountError>)
    ensures
        r == parsed_amount(input@),
{
    let s = trim(chars_of(input).as_slice());
    if s.len() == 0 {
        return Err(ParseAmountError::Empty);
    }
    if count_separators(s.as_slice()) > 1 {
        return Err(ParseAmountError::TooManySeparators);
    }
    let at: usize = find_separator(s.as_slice());
    let whole = vstd::slice::slice_subrange(s.as_slice(), 0, at);
    let rest: usize = if at < s.len() { at + 1 } else { at };
    let frac = vstd::slice::slice_subrange(s.as_slice(), rest, s.len());
    proof {
        assert(whole@ =~= whole_part(s@));
        assert(frac@ =~= fraction_part(s@));
    }
    if whole.len() == 0 && frac.len() == 0 {
        return Err(ParseAmountError::Empty);
    }
    if !digits_only(whole) || !digits_only(frac) {
        return Err(ParseAmountError::InvalidChars);
    }
    if frac.len() > PLACES {
        return Err(ParseAmountError::TooManyDecimals);
    }
    let small: u64 = fraction_units(frac);
    let big: u64 = match digits_value(whole) {
        Some(n) => n,
        None => {
            proof {
                let w = decimal_value(whole@);
                assert(w * 1_000_000 >= w) by (nonlinear_arith)
                    requires
                        w >= 0,
                ;
            }
            return Err(ParseAmountError::Overflow);
        },
    };
    match big.checked_mul(UNITS_PER_COIN) {
        Some(w) => match w.checked_add(small) {
            Some(n) => Ok(n),
            None => Err(ParseAmountError::Overflow),
        },
        None => Err(ParseAmountError::Overflow),
    }
}

/// `n` with exactly `width` digits.
pub open spec fn padded(n: nat, width: nat) -> Seq<char>
    decreases width,
{
    if width == 0 {
        Seq::empty()
    } else {
        padded(n / 10, (width - 1) as nat).push(crate::text::digit_char(n % 10))
    }
}

/// Fixed text with six decimal places.
pub open spec fn amount_text(micros: u64) -> Seq<char> {
    decimal_text((micros / UNITS_PER_COIN) as nat) + "."@ + padded(
        (micros % UNITS_PER_COIN) as nat,
        6,
    )
}

fn pad(n: u64, width: usize) -> (r: Vec<char>)
    ensures
        r@ == padded(n as nat, width as nat),
    decreases width,
{
    if width == 0 {
        let out: Vec<char> = Vec::new();
        assert(out@ =~= padded(n as nat, 0));
        out
    } else {
        let mut out = pad(n / 10, width - 1);
        out.push((((n % 10) as u8) + 48) as char);
        out
    }
}

/// Six-decimal display (`1500000` gives `1.500000`).
pub fn format_kron_amount(micros: u64) -> (r: String)
    ensures
        r@ == amount_text(micros),
{
    let mut out = String::new();
    push_chars(&mut out, decimal(micros / UNITS_PER_COIN).as_slice());
    push_text(&mut out, ".");
    push_chars(&mut out, pad(micros % UNITS_PER_COIN, 6).as_slice());
    assert(out@ =~= amount_text(micros));
    out
}

pub proof fn lemma_padded(n: nat, width: nat)
    requires
        n < ten_to(width),
    ensures
        padded(n, width).len() == width,
        all_digits(padded(n, width)),
        decimal_value(padded(n, width)) == n,
    decreases width,
{
    if width > 0 {
        lemma_padded(n / 10, (width - 1) as nat);
        let p = padded(n, width);
        assert(p.drop_last() =~= padded(n / 10, (width - 1) as nat));
        assert forall|i: int| 0 <= i < p.len() implies is_digit(#[trigger] p[i]) by {
            if i < width - 1 {
                assert(p[i] == padded(n / 10, (width - 1) as nat)[i]);
            }
        }
    } else {
        assert(padded(n, 0) =~= Seq::<char>::empty());
    }
}

proof fn lemma_no_separators(s: Seq<char>)
    requires
        all_digits(s),
    ensures
        separators(s) == 0,
    decreases s.len(),
{
    if s.len() > 0 {
        let h = s.drop_last();
        assert forall|i: int| 0 <= i < h.len() implies is_digit(#[trigger] h[i]) by {
            assert(is_digit(s[i]));
        }
        lemma_no_separators(h);
        assert(is_digit(s[s.len() - 1]));
    }
}

proof fn lemma_separators_sum(a: Seq<char>, b: Seq<char>)
    ensures
        separators(a + b) == separators(a) + separators(b),
    decreases b.len(),
{
    if b.len() == 0 {
        assert(a + b =~= a);
    } else {
        lemma_separators_sum(a, b.drop_last());
        assert((a + b).drop_last() =~= a + b.drop_last());
    }
}

proof fn lemma_separator_found(s: Seq<char>, i: int, at: int)
    requires
        0 <= i <= at < s.len(),
        is_separator(s[at]),
        forall|j: int| 0 <= j < at ==> !is_separator(#[trigger] s[j]),
    ensures
        separator_place(s, i) == at,
    decreases at - i,
{
    if i < at {
        lemma_separator_found(s, i + 1, at);
    }
}

/// Parsing the display text of an amount gives the amount back.
pub proof fn law_amount_round_trip(micros: u64)
    ensures
        parsed_amount(amount_text(micros)) == Ok::<u64, ParseAmountError>(micros),
{
    let whole = (micros / UNITS_PER_COIN) as nat;
    let frac = (micros % UNITS_PER_COIN) as nat;
    reveal_strlit(".");
    reveal_with_fuel(ten_to, 7);
    assert(ten_to(6) == 1_000_000);
    lemma_decimal_round_trip(whole);
    lemma_padded(frac, 6);
    let a = decimal_text(whole);
    let b = padded(frac, 6);
    let t = amount_text(micros);
    let at = a.len() as int;
    assert(t == a + "."@ + b);
    assert(t[0] == a[0]);
    assert(is_digit(a[0]));
    assert(t.last() == b[5]);
    assert(is_digit(b[5]));
    assert(trimmed_start(t) == t);
    assert(trimmed_end(t) == t);
    assert forall|j: int| 0 <= j < at implies !is_separator(#[trigger] t[j]) by {
        assert(is_digit(a[j]));
        assert(t[j] == a[j]);
    }
    lemma_separator_found(t, 0, at);
    assert(whole_part(t) =~= a);
    assert(fraction_part(t) =~= b);
    lemma_no_separators(a);
    lemma_no_separators(b);
    lemma_separators_sum(a, "."@);
    lemma_separators_sum(a + "."@, b);
    assert(separators("."@) == 1) by {
        assert("."@.drop_last() =~= Seq::<char>::empty());
        reveal_with_fuel(separators, 2);
    }
    assert(ten_to(0) == 1);
    assert(decimal_value(b) * ten_to(0) == frac) by (nonlinear_arith)
        requires
            ten_to(0) == 1,
            decimal_value(b) == frac,
    ;
}

} // verus!
