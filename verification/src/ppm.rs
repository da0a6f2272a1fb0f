use vstd::prelude::*;
use crate::color::Color;
use crate::image::{blank, index_of, lemma_index_of, Image};

verus! {

/// The decimal digits of `n` in ASCII, without leading zeros.
pub open spec fn decimal(n: nat) -> Seq<u8>
    decreases n,
{
    if n < 10 {
        seq![(0x30 + n) as u8]
    } else {
        decimal(n / 10).push((0x30 + n % 10) as u8)
    }
}

/// The magic number and the line break that open a raw pixmap: `P6\n`.
pub open spec fn magic() -> Seq<u8> {
    seq![0x50u8, 0x36u8, 0x0au8]
}

/// The line that closes the header and gives the largest channel value:
/// `\n255\n`.
pub open spec fn depth_line() -> Seq<u8> {
    seq![0x0au8, 0x32u8, 0x35u8, 0x35u8, 0x0au8]
}

/// The header of a raw pixmap: `P6\n<width> <height>\n255\n`.
pub open spec fn header(width: nat, height: nat) -> Seq<u8> {
    magic() + decimal(width) + seq![0x20u8] + decimal(height) + depth_line()
}

/// The pixels as bytes: red, green and blue of the first pixel, then of the
/// second, and so on.
pub open spec fn channels(pixels: Seq<Color>) -> Seq<u8> {
    Seq::new(
        3 * pixels.len(),
        |i: int|
            if i % 3 == 0 {
                pixels[i / 3].r
            } else if i % 3 == 1 {
                pixels[i / 3].g
            } else {
                pixels[i / 3].b
            },
    )
}

/// A whole raw pixmap file: the header, then the pixel bytes, and nothing
/// after them.
pub open spec fn encoded(pixels: Seq<Color>, width: nat, height: nat) -> Seq<u8> {
    header(width, height) + channels(pixels)
}

/// Writes `n` in decimal.
pub fn decimal_digits(n: usize) -> (digits: Vec<u8>)
    ensures
        digits@ == decimal(n as nat),
{
    let mut reversed: Vec<u8> = Vec::new();
    let mut rest: usize = n;
    // The digits of `n` are those of `rest` followed by `reversed` read backwards.
    while rest >= 10
        invariant
            decimal(n as nat) == decimal(rest as nat) + reversed@.reverse(),
        decreases rest,
    {
        let digit: u8 = 0x30u8 + (rest % 10) as u8;
        proof {
            let tail = reversed@.reverse();
            assert(reversed@.push(digit).reverse() =~= seq![digit] + tail);
            assert(decimal(rest as nat) == decimal((rest / 10) as nat).push(digit));
            assert(decimal((rest / 10) as nat).push(digit) + tail =~= decimal((rest / 10) as nat)
                + (seq![digit] + tail));
        }
        reversed.push(digit);
        rest = rest / 10;
    }
    let mut digits: Vec<u8> = Vec::new();
    digits.push(0x30u8 + rest as u8);
    let mut i: usize = reversed.len();
    while i > 0
        invariant
            i <= reversed.len(),
            digits@ == decimal(rest as nat) + reversed@.reverse().subrange(
                0,
                reversed.len() - i,
            ),
        decreases i,
    {
        i -= 1;
        let digit = reversed[i];
        proof {
            let tail = reversed@.reverse();
            let k = reversed.len() - i - 1;
            assert(tail[k] == digit);
            assert(tail.subrange(0, k + 1) =~= tail.subrange(0, k).push(digit));
            assert((decimal(rest as nat) + tail.subrange(0, k)).push(digit) =~= decimal(rest as nat)
                + tail.subrange(0, k).push(digit));
        }
        digits.push(digit);
    }
    proof {
        let tail = reversed@.reverse();
        assert(tail.subrange(0, reversed.len() as int) =~= tail);
    }
    digits
}

/// Appends `bytes` to `out`.
fn append(out: &mut Vec<u8>, bytes: &Vec<u8>)
    ensures
        final(out)@ == old(out)@ + bytes@,
{
    let mut i: usize = 0;
    while i < bytes.len()
        invariant
            i <= bytes.len(),
            out@ == old(out)@ + bytes@.subrange(0, i as int),
        decreases bytes.len() - i,
    {
        proof {
            assert(bytes@.subrange(0, i + 1) =~= bytes@.subrange(0, i as int).push(bytes@[i as int]));
            assert((old(out)@ + bytes@.subrange(0, i as int)).push(bytes@[i as int]) =~= old(out)@
                + bytes@.subrange(0, i as int).push(bytes@[i as int]));
        }
        out.push(bytes[i]);
        i += 1;
    }
    proof {
        assert(bytes@.subrange(0, bytes.len() as int) =~= bytes@);
    }
}

/// The header of a raw pixmap of the given size.
pub fn header_bytes(width: usize, height: usize) -> (out: Vec<u8>)
    ensures
        out@ == header(width as nat, height as nat),
{
    let mut out: Vec<u8> = Vec::new();
    out.push(0x50u8);
    out.push(0x36u8);
    out.push(0x0au8);
    assert(out@ =~= magic());
    let w = decimal_digits(width);
    append(&mut out, &w);
    out.push(0x20u8);
    assert(out@ =~= magic() + decimal(width as nat) + seq![0x20u8]);
    let h = decimal_digits(height);
    append(&mut out, &h);
    out.push(0x0au8);
    out.push(0x32u8);
    out.push(0x35u8);
    out.push(0x35u8);
    out.push(0x0au8);
    assert(out@ =~= header(width as nat, height as nat));
    out
}

impl Image {
    /// The canvas as a raw pixmap file.
    pub fn to_ppm(&self) -> (bytes: Vec<u8>)
        ensures
            bytes@ == encoded(self@, self.spec_width() as nat, self.spec_height() as nat),
    {
        let mut bytes = header_bytes(self.width(), self.height());
        let ghost head = bytes@;
        let pixels = self.pixels();
        let mut i: usize = 0;
        while i < pixels.len()
            invariant
                i <= pixels.len(),
                pixels@ == self@,
                bytes@ == head + channels(self@.subrange(0, i as int)),
            decreases pixels.len() - i,
        {
            let c = pixels[i];
            proof {
                let done = channels(self@.subrange(0, i as int));
                let next = channels(self@.subrange(0, i + 1));
                assert(next =~= done.push(c.r).push(c.g).push(c.b));
                assert(head + done.push(c.r).push(c.g).push(c.b) =~= (head + done).push(c.r).push(
                    c.g,
                ).push(c.b));
            }
            bytes.push(c.r);
            bytes.push(c.g);
            bytes.push(c.b);
            i += 1;
        }
        proof {
            assert(self@.subrange(0, pixels.len() as int) =~= self@);
        }
        bytes
    }
}

/// A raw pixmap is as long as its header and three bytes for each pixel.
pub proof fn lemma_encoded_len(pixels: Seq<Color>, width: nat, height: nat)
    ensures
        encoded(pixels, width, height).len() == header(width, height).len() + 3 * pixels.len(),
        encoded(pixels, width, height).subrange(0, header(width, height).len() as int) == header(
            width,
            height,
        ),
{
    let head = header(width, height);
    assert(encoded(pixels, width, height).subrange(0, head.len() as int) =~= head);
}

/// The three bytes of pixel number `k` stand at `3 * k` behind the header.
pub proof fn lemma_encoded_pixel(pixels: Seq<Color>, width: nat, height: nat, k: int)
    requires
        0 <= k < pixels.len(),
    ensures
        encoded(pixels, width, height)[header(width, height).len() + 3 * k] == pixels[k].r,
        encoded(pixels, width, height)[header(width, height).len() + 3 * k + 1] == pixels[k].g,
        encoded(pixels, width, height)[header(width, height).len() + 3 * k + 2] == pixels[k].b,
{
}

/// The file of a fresh canvas is its header followed by three zero bytes
/// for each of its `width * height` pixels.
pub proof fn lemma_blank_encoding(width: nat, height: nat)
    ensures
        encoded(blank(width, height), width, height).len() == header(width, height).len() + width
            * height * 3,
        encoded(blank(width, height), width, height).subrange(
            0,
            header(width, height).len() as int,
        ) == header(width, height),
        forall|i: int|
            header(width, height).len() <= i < encoded(blank(width, height), width, height).len()
                ==> encoded(blank(width, height), width, height)[i] == 0,
{
    lemma_encoded_len(blank(width, height), width, height);
}

} // verus!
