//! Error taxa of the browser core. All of them are values, never unwinding
//! control flow; the parsing core itself only produces `Network`.

use vstd::prelude::*;

verus! {

#[derive(Debug, PartialEq, Eq)]
pub enum Error {
    Network(String),
    UnexpectedInput(String),
    InvalidUI(String),
    Other(String),
}

} // verus!
