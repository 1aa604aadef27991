//! Matches in words.

use crate::score::ten_thousandths_of;
use crate::search::MatchResult;
use vstd::prelude::*;

verus! {

/// The character of a decimal digit.
pub open spec fn digit(d: int) -> char {
    if d == 0 {
        '0'
    } else if d == 1 {
        '1'
    } else if d == 2 {
        '2'
    } else if d == 3 {
        '3'
    } else if d == 4 {
        '4'
    } else if d == 5 {
        '5'
    } else if d == 6 {
        '6'
    } else if d == 7 {
        '7'
    } else if d == 8 {
        '8'
    } else {
        '9'
    }
}

/// The decimal digits of a natural number, without leading zeros.
pub open spec fn decimal(n: int) -> Seq<char>
    decreases n,
{
    if n < 10 {
        seq![digit(n)]
    } else {
        decimal(n / 10).push(digit(n % 10))
    }
}

/// A number of ten-thousandths as a decimal fraction with four fractional
/// digits.
pub open spec fn fixed4(k: int) -> Seq<char> {
    let m = if k < 0 {
        -k
    } else {
        k
    };
    let sign = if k < 0 {
        seq!['-']
    } else {
        Seq::empty()
    };
    sign + decimal(m / 10_000) + seq![
        '.',
        digit((m / 1000) % 10),
        digit((m / 100) % 10),
        digit((m / 10) % 10),
        digit(m % 10),
    ]
}

/// The printable form of a match at `(x, y)` with a confidence of `k`
/// ten-thousandths.
pub open spec fn match_text(x: int, y: int, k: int) -> Seq<char> {
    "MatchResult(x="@ + decimal(x) + ", y="@ + decimal(y) + ", confidence="@ + fixed4(k) + ")"@
}

/// `String::push_str`: the text grows by the characters of `more`.
#[verifier::external_body]
fn append(text: &mut String, more: &str)
    ensures
        final(text)@ == old(text)@ + more@,
{
    text.push_str(more)
}

/// `String::push`: the text grows by one character.
#[verifier::external_body]
fn append_char(text: &mut String, c: char)
    ensures
        final(text)@ == old(text)@.push(c),
{
    text.push(c)
}

/// The character of a decimal digit.
fn digit_char(d: u32) -> (c: char)
    requires
        d < 10,
    ensures
        c == digit(d as int),
{
    if d == 0 {
        '0'
    } else if d == 1 {
        '1'
    } else if d == 2 {
        '2'
    } else if d == 3 {
        '3'
    } else if d == 4 {
        '4'
    } else if d == 5 {
        '5'
    } else if d == 6 {
        '6'
    } else if d == 7 {
        '7'
    } else if d == 8 {
        '8'
    } else {
        '9'
    }
}

/// Appends the decimal digits of `n`.
fn append_decimal(text: &mut String, n: u32)
    ensures
        final(text)@ == old(text)@ + decimal(n as int),
    decreases n,
{
    let ghost before = text@;
    if n >= 10 {
        append_decimal(text, n / 10);
    }
    append_char(text, digit_char(n % 10));
    proof {
        assert(text@ =~= before + decimal(n as int));
    }
}

/// Appends a number of ten-thousandths as a decimal fraction.
fn append_fixed4(text: &mut String, k: i32)
    requires
        -10_000 <= k <= 10_000,
    ensures
        final(text)@ == old(text)@ + fixed4(k as int),
{
    let ghost before = text@;
    if k < 0 {
        append_char(text, '-');
    }
    let m: u32 = if k < 0 {
        (-k) as u32
    } else {
        k as u32
    };
    append_decimal(text, m / 10_000);
    append_char(text, '.');
    append_char(text, digit_char((m / 1000) % 10));
    append_char(text, digit_char((m / 100) % 10));
    append_char(text, digit_char((m / 10) % 10));
    append_char(text, digit_char(m % 10));
    proof {
        assert(text@ =~= before + fixed4(k as int));
    }
}

impl MatchResult {
    /// The printable form of the match: its position, and its confidence
    /// rounded to four fractional digits.
    pub fn to_text(&self) -> (text: String)
        requires
            self.confidence.wf(),
            self.confidence@.in_unit_range(),
        ensures
            text@ == match_text(
                self.x as int,
                self.y as int,
                ten_thousandths_of(self.confidence@),
            ),
    {
        let k: i32 = self.confidence.ten_thousandths();
        let mut text = String::new();
        append(&mut text, "MatchResult(x=");
        append_decimal(&mut text, self.x);
        append(&mut text, ", y=");
        append_decimal(&mut text, self.y);
        append(&mut text, ", confidence=");
        append_fixed4(&mut text, k);
        append(&mut text, ")");
        proof {
            assert(text@ =~= match_text(self.x as int, self.y as int, k as int));
        }
        text
    }
}

} // verus!
