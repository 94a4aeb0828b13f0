//! The named colors of bracket-color that the game paints with, as 8-bit
//! red, green and blue.

use vstd::prelude::*;

verus! {

/// The named color `WHITE`.
///
/// Trusted: returns bracket-color's `WHITE` constant, which its source
/// defines as `(255, 255, 255)`.
#[verifier::external_body]
pub(crate) fn white() -> (c: (u8, u8, u8))
    ensures
        c == (255u8, 255u8, 255u8),
{
    bracket_color::prelude::WHITE
}

/// The named color `CYAN`.
///
/// Trusted: returns bracket-color's `CYAN` constant, which its source
/// defines as `(0, 255, 255)`.
#[verifier::external_body]
pub(crate) fn cyan() -> (c: (u8, u8, u8))
    ensures
        c == (0u8, 255u8, 255u8),
{
    bracket_color::prelude::CYAN
}

/// The named color `GREEN`.
///
/// Trusted: returns bracket-color's `GREEN` constant, which its source
/// defines as `(0, 255, 0)`.
#[verifier::external_body]
pub(crate) fn green() -> (c: (u8, u8, u8))
    ensures
        c == (0u8, 255u8, 0u8),
{
    bracket_color::prelude::GREEN
}

/// The named color `YELLOW`.
///
/// Trusted: returns bracket-color's `YELLOW` constant, which its source
/// defines as `(255, 255, 0)`.
#[verifier::external_body]
pub(crate) fn yellow() -> (c: (u8, u8, u8))
    ensures
        c == (255u8, 255u8, 0u8),
{
    bracket_color::prelude::YELLOW
}

/// The named color `DARK_GRAY`.
///
/// Trusted: returns bracket-color's `DARK_GRAY` constant, which its source
/// defines as `(169, 169, 169)`.
#[verifier::external_body]
pub(crate) fn dark_gray() -> (c: (u8, u8, u8))
    ensures
        c == (169u8, 169u8, 169u8),
{
    bracket_color::prelude::DARK_GRAY
}

/// The named color `RED`.
///
/// Trusted: returns bracket-color's `RED` constant, which its source
/// defines as `(255, 0, 0)`.
#[verifier::external_body]
pub(crate) fn red() -> (c: (u8, u8, u8))
    ensures
        c == (255u8, 0u8, 0u8),
{
    bracket_color::prelude::RED
}

/// The named color `BLACK`.
///
/// Trusted: returns bracket-color's `BLACK` constant, which its source
/// defines as `(0, 0, 0)`.
#[verifier::external_body]
pub(crate) fn black() -> (c: (u8, u8, u8))
    ensures
        c == (0u8, 0u8, 0u8),
{
    bracket_color::prelude::BLACK
}

/// The named color `ORANGE`.
///
/// Trusted: returns bracket-color's `ORANGE` constant, which its source
/// defines as `(255, 165, 0)`.
#[verifier::external_body]
pub(crate) fn orange() -> (c: (u8, u8, u8))
    ensures
        c == (255u8, 165u8, 0u8),
{
    bracket_color::prelude::ORANGE
}

/// The named color `GRAY`.
///
/// Trusted: returns bracket-color's `GRAY` constant, which its source
/// defines as `(190, 190, 190)`.
#[verifier::external_body]
pub(crate) fn gray() -> (c: (u8, u8, u8))
    ensures
        c == (190u8, 190u8, 190u8),
{
    bracket_color::prelude::GRAY
}

} // verus!
