//! What a rule reports for a finding.
use vstd::prelude::*;
use vstd::string::*;

use crate::nonoctal_escape::{hex_char, hex_digit_str};
use crate::text_range::TextRange;

verus! {

/// A finding as reported: its range and message, an optional detail with a range of
/// its own, and an optional note.
#[derive(Debug)]
pub struct RuleDiagnostic {
    pub range: TextRange,
    pub message: String,
    pub detail: Option<(TextRange, String)>,
    pub note: Option<String>,
}

/// The decimal digits of `n`, most significant first, without leading zeros.
pub open spec fn decimal_digits(n: nat) -> Seq<char>
    decreases n,
{
    if n < 10 {
        seq![hex_char(n)]
    } else {
        decimal_digits(n / 10) + seq![hex_char(n % 10)]
    }
}

/// Appends the decimal digits of `n` to `out`.
pub fn push_decimal(out: &mut String, n: u32)
    ensures
        final(out)@ == old(out)@ + decimal_digits(n as nat),
    decreases n,
{
    if n >= 10 {
        push_decimal(out, n / 10);
    }
    out.append(hex_digit_str(n % 10));
    assert(final(out)@ =~= old(out)@ + decimal_digits(n as nat));
}

} // verus!
