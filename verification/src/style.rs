//! The highlight style. The styled form of the pattern is produced by the
//! terminal-styling crate itself, so the report carries exactly the marker
//! bytes that crate emits.

use vstd::prelude::*;
use crate::highlight::styled_pattern_spec;
use crate::utf8::is_utf8;

verus! {

/// Relies on ansi_term: painting a string with `Style::new().underline()` and
/// displaying it yields the underline-on marker ESC `[4m`, then the string,
/// then the reset marker ESC `[0m` (ansi.rs `write_prefix`/`write_suffix` and
/// `RESET`). `String::from_utf8_lossy` leaves well-formed UTF-8 unchanged, so
/// for a valid-UTF-8 pattern the result is exactly the styled pattern.
#[verifier::external_body]
pub(crate) fn styled_bytes(pat: &Vec<u8>) -> (r: Vec<u8>)
    ensures
        is_utf8(pat@) ==> r@ == styled_pattern_spec(pat@),
{
    let text = String::from_utf8_lossy(pat.as_slice());
    let styled = ansi_term::Style::new().underline().paint(text.as_ref()).to_string();
    styled.into_bytes()
}

} // verus!
