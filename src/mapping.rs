use vstd::prelude::*;
use crate::error::IngestError;

verus! {

/// Translation table from input symbols to output tokens.
#[derive(Debug, Clone, Copy, PartialEq, Eq, Structural)]
pub struct CharMapping {
    pub a: u8,
    pub t: u8,
    pub c: u8,
    pub g: u8,
    pub all_other: u8,
}

impl CharMapping {
    /// The token that `b` becomes: only the uppercase letters A, T, U, C and G
    /// are recognised, everything else becomes the fallback token.
    pub open spec fn translate_spec(self, b: u8) -> u8 {
        if b == 0x41u8 {
            self.a
        } else if b == 0x54u8 || b == 0x55u8 {
            self.t
        } else if b == 0x43u8 {
            self.c
        } else if b == 0x47u8 {
            self.g
        } else {
            self.all_other
        }
    }

    /// Builds the table from `[a, t_or_u, c, g, other]`.
    pub fn from_mapping_vector(vec: &[u8]) -> (r: Result<CharMapping, IngestError>)
        ensures
            vec@.len() == 5 <==> r is Ok,
            r matches Ok(m) ==> m == (CharMapping {
                a: vec@[0],
                t: vec@[1],
                c: vec@[2],
                g: vec@[3],
                all_other: vec@[4],
            }),
            r matches Err(e) ==> e == IngestError::InvalidMapping(vec@.len() as usize),
    {
        if vec.len() != 5 {
            return Err(IngestError::InvalidMapping(vec.len()));
        }
        Ok(CharMapping { a: vec[0], t: vec[1], c: vec[2], g: vec[3], all_other: vec[4] })
    }

    /// Translates one input byte.
    pub fn translate(&self, b: u8) -> (r: u8)
        ensures
            r == self.translate_spec(b),
    {
        if b == 0x41u8 {
            self.a
        } else if b == 0x54u8 || b == 0x55u8 {
            self.t
        } else if b == 0x43u8 {
            self.c
        } else if b == 0x47u8 {
            self.g
        } else {
            self.all_other
        }
    }
}

/// Translation is defined for every byte and yields one of the table's five
/// tokens; a byte that is not one of the uppercase letters A, T, U, C, G
/// yields the fallback.
pub proof fn lemma_translate_total(m: CharMapping, b: u8)
    ensures
        m.translate_spec(b) == m.a || m.translate_spec(b) == m.t || m.translate_spec(b) == m.c
            || m.translate_spec(b) == m.g || m.translate_spec(b) == m.all_other,
        (b != 0x41u8 && b != 0x54u8 && b != 0x55u8 && b != 0x43u8 && b != 0x47u8)
            ==> m.translate_spec(b) == m.all_other,
{
}

/// Lowercase letters are never recognised: they all map to the fallback token.
pub proof fn lemma_lowercase_is_other(m: CharMapping, b: u8)
    requires
        0x61u8 <= b <= 0x7au8,
    ensures
        m.translate_spec(b) == m.all_other,
{
}

} // verus!
