//! The bytes of a binary PPM or PGM file for a buffer of pixels.
//!
//! The file is a short text header and then the pixels as raw bytes, alpha
//! left out: three bytes for each pixel in colour, or one byte, the mean of
//! the three, in grey.

use vstd::prelude::*;
use crate::buffer::RGBABuffer;

verus! {

/// The decimal digits of `n` as ASCII, without leading zeros.
pub open spec fn decimal(n: nat) -> Seq<u8>
    decreases n,
{
    if n < 10 {
        seq![(48 + n) as u8]
    } else {
        decimal(n / 10).push((48 + n % 10) as u8)
    }
}

/// The header: the magic number `P6` for colour or `P5` for grey, then
/// width and height with a space between them, then the largest value of a
/// channel, `255`, each on a line of its own.
pub open spec fn header(rgb: bool, width: u16, height: u16) -> Seq<u8> {
    seq![80u8, if rgb { 54u8 } else { 53u8 }, 10u8]
        + decimal(width as nat) + seq![32u8]
        + decimal(height as nat) + seq![10u8]
        + seq![50u8, 53u8, 53u8, 10u8]
}

/// The number of bytes that a pixel takes in the file.
pub open spec fn bytes_per_pixel(rgb: bool) -> int {
    if rgb {
        3
    } else {
        1
    }
}

/// The mean of a pixel's three colours, rounded down.
pub open spec fn grey(r: u8, g: u8, b: u8) -> u8 {
    ((r + g + b) / 3) as u8
}

/// What the first `n` pixels of `pixels` become in the file.
pub open spec fn payload_of(pixels: Seq<u8>, rgb: bool, n: nat) -> Seq<u8>
    decreases n,
{
    if n == 0 {
        Seq::empty()
    } else {
        let at = 4 * (n - 1);
        let before = payload_of(pixels, rgb, (n - 1) as nat);
        if rgb {
            before + pixels.subrange(at, at + 3)
        } else {
            before.push(grey(pixels[at], pixels[at + 1], pixels[at + 2]))
        }
    }
}

/// The pixels `pixels`, four bytes each, as they stand in the file.
pub open spec fn payload(pixels: Seq<u8>, rgb: bool) -> Seq<u8> {
    payload_of(pixels, rgb, (pixels.len() / 4) as nat)
}

/// The payload has the same number of bytes for every pixel.
pub proof fn lemma_payload_len(pixels: Seq<u8>, rgb: bool, n: nat)
    requires
        4 * n <= pixels.len(),
    ensures
        payload_of(pixels, rgb, n).len() == bytes_per_pixel(rgb) * n,
    decreases n,
{
    if n > 0 {
        lemma_payload_len(pixels, rgb, (n - 1) as nat);
    }
    if rgb {
        assert(payload_of(pixels, rgb, n).len() == 3 * n);
    } else {
        assert(payload_of(pixels, rgb, n).len() == n);
    }
}

/// Each pixel is found in the payload at its own place: in colour its
/// first three bytes, in grey their mean.
pub proof fn lemma_payload_pixel(pixels: Seq<u8>, rgb: bool, n: nat, p: int)
    requires
        4 * n <= pixels.len(),
        0 <= p < n,
    ensures
        payload_of(pixels, rgb, n).len() == bytes_per_pixel(rgb) * n,
        rgb ==> payload_of(pixels, rgb, n).subrange(3 * p, 3 * p + 3) == pixels.subrange(
            4 * p,
            4 * p + 3,
        ),
        !rgb ==> payload_of(pixels, rgb, n)[p] == grey(
            pixels[4 * p],
            pixels[4 * p + 1],
            pixels[4 * p + 2],
        ),
    decreases n,
{
    let m = (n - 1) as nat;
    lemma_payload_len(pixels, rgb, n);
    lemma_payload_len(pixels, rgb, m);
    if p < m {
        lemma_payload_pixel(pixels, rgb, m, p);
        if rgb {
            assert(payload_of(pixels, rgb, n).subrange(3 * p, 3 * p + 3) =~= payload_of(
                pixels,
                rgb,
                m,
            ).subrange(3 * p, 3 * p + 3));
        }
    } else {
        if rgb {
            assert(payload_of(pixels, rgb, n).subrange(3 * p, 3 * p + 3) =~= pixels.subrange(
                4 * p,
                4 * p + 3,
            ));
        }
    }
}

/// Appends the decimal digits of `n` to `out`.
pub fn push_decimal(out: &mut Vec<u8>, n: u16)
    ensures
        final(out)@ == old(out)@ + decimal(n as nat),
    decreases n,
{
    if n >= 10 {
        push_decimal(out, n / 10);
    }
    out.push(48 + (n % 10) as u8);
    assert(out@ =~= old(out)@ + decimal(n as nat));
}

/// Appends the header of an image of the given size to `out`.
pub fn push_header(out: &mut Vec<u8>, rgb: bool, width: u16, height: u16)
    ensures
        final(out)@ == old(out)@ + header(rgb, width, height),
{
    out.push(80);
    out.push(if rgb { 54 } else { 53 });
    out.push(10);
    push_decimal(out, width);
    out.push(32);
    push_decimal(out, height);
    out.push(10);
    out.push(50);
    out.push(53);
    out.push(53);
    out.push(10);
    assert(out@ =~= old(out)@ + header(rgb, width, height));
}

/// Appends the pixels of `image` to `out`, alpha left out: in colour or in
/// grey.
pub fn push_payload(out: &mut Vec<u8>, image: &RGBABuffer, rgb: bool)
    requires
        image.wf(),
    ensures
        final(out)@ == old(out)@ + payload(image@, rgb),
{
    let buf = image.buffer();
    let step: usize = RGBABuffer::components();
    let po_max: usize = buf.len();
    let mut po: usize = 0;
    let ghost mut n: nat = 0;
    while po < po_max
        invariant
            step == 4,
            po_max == buf@.len(),
            buf@.len() % 4 == 0,
            po == 4 * n,
            po <= po_max,
            out@ == old(out)@ + payload_of(buf@, rgb, n),
        decreases po_max - po,
    {
        let ghost before = out@;
        if rgb {
            out.push(buf[po]);
            out.push(buf[po + 1]);
            out.push(buf[po + 2]);
            assert(out@ =~= before + buf@.subrange(po as int, po + 3));
        } else {
            let sum: u16 = buf[po] as u16 + buf[po + 1] as u16 + buf[po + 2] as u16;
            out.push((sum / 3) as u8);
        }
        po += step;
        proof {
            n = n + 1;
            assert(out@ =~= old(out)@ + payload_of(buf@, rgb, n));
        }
    }
    assert(n == buf@.len() / 4);
}

/// The whole file for `image`: header and pixels. `width` and `height` are
/// written as they are given.
pub fn encode(image: &RGBABuffer, rgb: bool, width: u16, height: u16) -> (out: Vec<u8>)
    requires
        image.wf(),
    ensures
        out@ == header(rgb, width, height) + payload(image@, rgb),
{
    let mut out: Vec<u8> = Vec::new();
    push_header(&mut out, rgb, width, height);
    push_payload(&mut out, image, rgb);
    assert(out@ =~= header(rgb, width, height) + payload(image@, rgb));
    out
}

/// Whether a file that shows the picture as it grows is to be written
/// again: only a file is, and only at its first tile or when a second or
/// more has passed since it was last written.
pub fn flush_is_due(output_is_file: bool, millis_since_last_write: Option<u64>) -> (due: bool)
    ensures
        due == (output_is_file && match millis_since_last_write {
            None => true,
            Some(ms) => ms >= 1000,
        }),
{
    output_is_file && match millis_since_last_write {
        None => true,
        Some(ms) => ms >= 1000,
    }
}

} // verus!
