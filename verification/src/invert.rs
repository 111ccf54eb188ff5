//! Color inversion: every R, G and B byte becomes `255 - value`; every
//! alpha byte is carried over unchanged.

use vstd::prelude::*;
use crate::TransformError;
use crate::dims_match;

verus! {

/// One byte of the inverted buffer: alpha bytes (index 3 mod 4) are kept,
/// color bytes are replaced by their complement.
pub open spec fn inverted_byte(data: Seq<u8>, i: int) -> u8 {
    if i % 4 == 3 {
        data[i]
    } else {
        (255 - data[i]) as u8
    }
}

/// The whole inverted buffer, byte for byte.
pub open spec fn invert_spec(data: Seq<u8>) -> Seq<u8> {
    Seq::new(data.len(), |i: int| inverted_byte(data, i))
}

/// Inverting twice gives back the original buffer: the complement of the
/// complement of a color byte is the byte itself, and alpha is untouched.
pub proof fn lemma_invert_involutive(data: Seq<u8>)
    ensures
        invert_spec(invert_spec(data)) == data,
{
    let once = invert_spec(data);
    assert forall|i: int| 0 <= i < data.len() implies invert_spec(once)[i] == data[i] by {
        assert(once[i] == inverted_byte(data, i));
    }
    assert(invert_spec(once) =~= data);
}

/// Inverts every color channel of an RGBA buffer, preserving alpha.
/// Rejects a buffer whose length does not match the stated dimensions.
pub fn invert_colors(data: &Vec<u8>, width: u32, height: u32) -> (out: Result<
    Vec<u8>,
    TransformError,
>)
    ensures
        match out {
            Ok(o) => dims_match(data@, width as int, height as int) && o@ == invert_spec(data@),
            Err(e) => e == TransformError::LengthMismatch && !dims_match(
                data@,
                width as int,
                height as int,
            ),
        },
{
    if !crate::check_dims(data, width, height) {
        return Err(TransformError::LengthMismatch);
    }
    proof {
        let w = width as int;
        let h = height as int;
        assert((4 * w) * h == 4 * (w * h)) by (nonlinear_arith);
        assert((4 * (w * h)) % 4 == 0);
    }
    let mut out: Vec<u8> = Vec::new();
    let n = data.len();
    let mut i: usize = 0;
    while i < n
        invariant
            n == data@.len(),
            i <= n,
            i % 4 == 0,
            n % 4 == 0,
            out@.len() == i,
            forall|j: int| 0 <= j < i ==> out@[j] == inverted_byte(data@, j),
        decreases n - i,
    {
        out.push(255 - data[i]);
        out.push(255 - data[i + 1]);
        out.push(255 - data[i + 2]);
        out.push(data[i + 3]);
        i = i + 4;
    }
    proof {
        assert(out@ =~= invert_spec(data@));
    }
    Ok(out)
}

} // verus!
