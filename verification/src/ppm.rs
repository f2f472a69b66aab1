use std::io::Write;
use vstd::prelude::*;

use crate::color::Color;

verus! {

/// The ASCII decimal digits of `n`, most significant first; empty for
/// numbers without digits.
pub open spec fn dec_digits(n: int) -> Seq<u8>
    decreases n,
{
    if n <= 0 {
        Seq::empty()
    } else {
        dec_digits(n / 10) + seq![(n % 10 + 48) as u8]
    }
}

/// The ASCII decimal rendering of a non-negative number; zero renders as
/// one `0` digit.
pub open spec fn dec_of(n: int) -> Seq<u8> {
    if n == 0 {
        seq![48u8]
    } else {
        dec_digits(n)
    }
}

/// The ASCII header of a binary PPM stream: the magic, the two dimensions
/// and the maximum channel value.
pub open spec fn ppm_header(w: int, h: int) -> Seq<u8> {
    seq![80u8, 54u8, 10u8] + dec_of(w) + seq![32u8] + dec_of(h) + seq![
        10u8,
        50u8,
        53u8,
        53u8,
        10u8,
    ]
}

/// The raw pixel data of a binary PPM stream: three bytes per pixel in
/// cell order; alpha is not serialized.
pub open spec fn rgb_bytes(cells: Seq<Color>) -> Seq<u8>
    decreases cells.len(),
{
    if cells.len() == 0 {
        Seq::empty()
    } else {
        seq![cells[0].r, cells[0].g, cells[0].b] + rgb_bytes(cells.skip(1))
    }
}

/// The whole binary PPM stream for a grid of the given dimensions and
/// cells.
pub open spec fn ppm_stream(w: int, h: int, cells: Seq<Color>) -> Seq<u8> {
    ppm_header(w, h) + rgb_bytes(cells)
}

/// The pixel data holds each cell's three channels at three consecutive
/// offsets.
pub proof fn lemma_rgb_bytes_spec(cells: Seq<Color>)
    ensures
        rgb_bytes(cells).len() == 3 * cells.len(),
        forall|q: int|
            0 <= q < cells.len() ==> {
                &&& rgb_bytes(cells)[3 * q] == #[trigger] cells[q].r
                &&& rgb_bytes(cells)[3 * q + 1] == cells[q].g
                &&& rgb_bytes(cells)[3 * q + 2] == cells[q].b
            },
    decreases cells.len(),
{
    if cells.len() > 0 {
        lemma_rgb_bytes_spec(cells.skip(1));
        assert forall|q: int| 0 <= q < cells.len() implies {
            &&& rgb_bytes(cells)[3 * q] == #[trigger] cells[q].r
            &&& rgb_bytes(cells)[3 * q + 1] == cells[q].g
            &&& rgb_bytes(cells)[3 * q + 2] == cells[q].b
        } by {
            if q > 0 {
                assert(cells.skip(1)[q - 1] == cells[q]);
                assert(rgb_bytes(cells)[3 * q] == rgb_bytes(cells.skip(1))[3 * (q - 1)]);
                assert(rgb_bytes(cells)[3 * q + 1] == rgb_bytes(cells.skip(1))[3 * (q - 1) + 1]);
                assert(rgb_bytes(cells)[3 * q + 2] == rgb_bytes(cells.skip(1))[3 * (q - 1) + 2]);
            }
        }
    }
}

/// Renders a number as ASCII decimal digits.
pub fn u32_decimal(n: u32) -> (r: Vec<u8>)
    ensures
        r@ == dec_of(n as int),
{
    let mut digits: Vec<u8> = Vec::new();
    if n == 0 {
        digits.push(48);
        proof {
            assert(digits@ =~= dec_of(n as int));
        }
        return digits;
    }
    let mut m = n;
    while m > 0
        invariant
            dec_digits(n as int) == dec_digits(m as int) + digits@,
        decreases m,
    {
        let ghost before = digits@;
        let ghost m0 = m as int;
        let d: u8 = (m % 10) as u8 + 48;
        digits.insert(0, d);
        m = m / 10;
        proof {
            assert(digits@ =~= seq![d] + before);
            assert(dec_digits(m0) == dec_digits(m0 / 10) + seq![(m0 % 10 + 48) as u8]);
            assert((m0 % 10 + 48) as u8 == d);
            assert(dec_digits(m as int) + digits@ =~= (dec_digits(m0 / 10) + seq![d]) + before);
        }
    }
    proof {
        assert(dec_digits(0) + digits@ =~= digits@);
    }
    digits
}

#[verifier::external_type_specification]
#[verifier::external_body]
pub struct ExIoError(std::io::Error);

/// Relies on std::io::Write::write: a successful write reports how many
/// bytes of the passed slice were consumed, which is at most the slice's
/// length.
#[verifier::external_body]
fn write_some<W: std::io::Write>(output: &mut W, buffer: &Vec<u8>, offset: usize) -> (r: Result<
    usize,
    std::io::Error,
>)
    requires
        offset <= buffer@.len(),
    ensures
        r matches Ok(n) ==> n <= buffer@.len() - offset,
{
    output.write(&buffer[offset..])
}

/// Relies on std::io::Error::from to build the error value that reports an
/// interrupted stream.
#[verifier::external_body]
fn interrupted_error() -> std::io::Error {
    std::io::Error::from(std::io::ErrorKind::Interrupted)
}

/// Writes all the contents of the buffer to the output stream, breaking down
/// the buffer into chunks as necessary. A zero-byte write from an open
/// stream is surfaced as an error instead of looping forever.
pub fn write_all<W: std::io::Write>(output: &mut W, buffer: &Vec<u8>) -> Result<
    (),
    std::io::Error,
> {
    let mut offset: usize = 0;
    while offset < buffer.len()
        invariant
            offset <= buffer@.len(),
        decreases buffer@.len() - offset,
    {
        let size = match write_some(output, buffer, offset) {
            Ok(size) => size,
            Err(e) => {
                return Err(e);
            },
        };
        if size == 0 {
            return Err(interrupted_error());
        }
        offset = offset + size;
    }
    Ok(())
}

} // verus!
