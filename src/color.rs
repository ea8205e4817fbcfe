use vstd::prelude::*;

verus! {

/// A colour as red, green, blue and alpha amounts, each from 0 to 255.
#[derive(Clone, Copy, Debug, PartialEq, Eq, Structural, PartialOrd)]
pub struct PyColor(pub u8, pub u8, pub u8, pub u8);

} // verus!
