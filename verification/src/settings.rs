//! Choices of the settings window.
use vstd::prelude::*;

verus! {

/// The colour theme.
#[derive(Clone, Copy, Debug, PartialEq, Eq, Structural)]
pub enum Theme {
    Light,
    Dark,
}

/// The page size of DOCX exports.
#[derive(Clone, Copy, Debug, PartialEq, Eq, Structural)]
pub enum DocxPage {
    A4,
    Letter,
}

} // verus!
