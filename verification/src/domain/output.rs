//! Output-independent presentation settings.
use vstd::prelude::*;

verus! {

/// Language used for human-readable recovery notes.
#[derive(Debug, Clone, Copy, PartialEq, Eq, Structural)]
pub enum Language {
    English,
    /// Japanese text uses the CJK character collection selected by the output
    /// adapter unless the caller supplies an embeddable font.
    Japanese,
}

} // verus!
