use vstd::prelude::*;
use crate::buffer::{Image, Pixel, cell_count};

verus! {

/// Channel `k` (0 red, 1 green, 2 blue, 3 alpha) of a pixel.
pub open spec fn channel(p: Pixel, k: int) -> u8 {
    if k == 0 {
        p.0
    } else if k == 1 {
        p.1
    } else if k == 2 {
        p.2
    } else {
        p.3
    }
}

/// Little-endian bytes of a 16-bit value.
pub open spec fn le16(v: u16) -> Seq<u8> {
    seq![(v % 256) as u8, (v / 256) as u8]
}

/// The 16-bit value stored little-endian at `bytes[at]` and `bytes[at + 1]`.
pub open spec fn read_le16(bytes: Seq<u8>, at: int) -> u16 {
    (bytes[at] + 256 * bytes[at + 1]) as u16
}

/// Pixels laid out one after another as `[R, G, B, A]` quadruples.
pub open spec fn pixel_bytes(p: Seq<Pixel>) -> Seq<u8> {
    Seq::new(4 * p.len(), |j: int| channel(p[j / 4], j % 4))
}

/// The `.pix` layout: width and height as little-endian `u16`, then the pixels row-major.
pub open spec fn pix_encoding(width: u16, height: u16, pixels: Seq<Pixel>) -> Seq<u8> {
    le16(width) + le16(height) + pixel_bytes(pixels)
}

/// The `n` pixels stored as `[R, G, B, A]` quadruples from `bytes[start]` on.
pub open spec fn quads(bytes: Seq<u8>, start: int, n: nat) -> Seq<Pixel> {
    Seq::new(
        n,
        |i: int|
            (
                bytes[start + 4 * i],
                bytes[start + 4 * i + 1],
                bytes[start + 4 * i + 2],
                bytes[start + 4 * i + 3],
            ),
    )
}

/// What a `.pix` byte string holds: `None` when it is shorter than its header
/// says; bytes after the last pixel are ignored.
pub open spec fn decode_pix(bytes: Seq<u8>) -> Option<(u16, u16, Seq<Pixel>)> {
    if bytes.len() < 4 {
        None
    } else {
        let w = read_le16(bytes, 0);
        let h = read_le16(bytes, 2);
        let n = w as int * h as int;
        if bytes.len() < 4 + 4 * n {
            None
        } else {
            Some((w, h, quads(bytes, 4, n as nat)))
        }
    }
}

/// Why a `.pix` byte string could not be read.
#[derive(Debug, Clone, Copy, PartialEq, Eq)]
pub enum PixError {
    /// The data ends before the header or before the last pixel it declares.
    Truncated,
}

/// Appends the pixels to `out` as `[R, G, B, A]` quadruples.
pub fn push_pixel_bytes(out: &mut Vec<u8>, pixels: &Vec<Pixel>)
    ensures
        final(out)@ == old(out)@ + pixel_bytes(pixels@),
{
    let ghost start = out@;
    let n = pixels.len();
    let mut i: usize = 0;
    while i < n
        invariant
            n == pixels@.len(),
            i <= n,
            out@.len() == start.len() + 4 * i,
            out@.subrange(0, start.len() as int) == start,
            forall|j: int|
                0 <= j < 4 * i ==> #[trigger] out@[start.len() + j] == channel(pixels@[j / 4], j % 4),
        decreases n - i,
    {
        let p = pixels[i];
        let ghost before = out@;
        out.push(p.0);
        out.push(p.1);
        out.push(p.2);
        out.push(p.3);
        assert(out@.subrange(0, start.len() as int) =~= before.subrange(0, start.len() as int));
        assert forall|j: int| 0 <= j < 4 * (i + 1) implies #[trigger] out@[start.len() + j] == channel(
            pixels@[j / 4],
            j % 4,
        ) by {
            if j >= 4 * i {
                assert(j / 4 == i);
            } else {
                assert(out@[start.len() + j] == before[start.len() + j]);
            }
        }
        i = i + 1;
    }
    let ghost want = start + pixel_bytes(pixels@);
    assert(out@ =~= want) by {
        assert forall|k: int| 0 <= k < out@.len() implies out@[k] == want[k] by {
            if k < start.len() {
                assert(out@[k] == out@.subrange(0, start.len() as int)[k]);
            } else {
                assert(out@[start.len() + (k - start.len())] == channel(
                    pixels@[(k - start.len()) / 4],
                    (k - start.len()) % 4,
                ));
            }
        }
    }
}

/// Reads `n` pixels stored as `[R, G, B, A]` quadruples from `bytes[start]` on.
pub fn read_quads(bytes: &Vec<u8>, start: usize, n: usize) -> (r: Vec<Pixel>)
    requires
        start + 4 * n <= bytes@.len(),
    ensures
        r@ == quads(bytes@, start as int, n as nat),
{
    let len = bytes.len();
    let mut pixels: Vec<Pixel> = Vec::new();
    let mut i: usize = 0;
    while i < n
        invariant
            len == bytes@.len(),
            start + 4 * n <= len,
            i <= n,
            pixels@ =~= quads(bytes@, start as int, i as nat),
        decreases n - i,
    {
        let at = start + 4 * i;
        pixels.push((bytes[at], bytes[at + 1], bytes[at + 2], bytes[at + 3]));
        i = i + 1;
        assert(pixels@ =~= quads(bytes@, start as int, i as nat));
    }
    pixels
}

/// Serialises the image into the `.pix` layout: `4 + 4 * width * height` bytes.
pub fn save(image: &Image) -> (r: Vec<u8>)
    requires
        image.wf(),
    ensures
        r@ == pix_encoding(image.width, image.height, image.pixels@),
{
    let mut out: Vec<u8> = Vec::new();
    out.push((image.width % 256) as u8);
    out.push((image.width / 256) as u8);
    out.push((image.height % 256) as u8);
    out.push((image.height / 256) as u8);
    assert(out@ =~= le16(image.width) + le16(image.height));
    push_pixel_bytes(&mut out, &image.pixels);
    out
}

/// Reads an image from the `.pix` layout.
pub fn load(bytes: &Vec<u8>) -> (r: Result<Image, PixError>)
    ensures
        match r {
            Ok(img) => img.wf() && decode_pix(bytes@) == Some((img.width, img.height, img.pixels@)),
            Err(e) => e == PixError::Truncated && decode_pix(bytes@) is None,
        },
{
    let len = bytes.len();
    if len < 4 {
        return Err(PixError::Truncated);
    }
    let width: u16 = bytes[0] as u16 + 256 * bytes[1] as u16;
    let height: u16 = bytes[2] as u16 + 256 * bytes[3] as u16;
    let n = cell_count(width, height);
    if (len - 4) / 4 < n {
        return Err(PixError::Truncated);
    }
    let pixels = read_quads(bytes, 4, n);
    Ok(Image { width, height, pixels })
}

/// Reading back what `save` wrote gives the same image, cell for cell.
pub proof fn lemma_pix_round_trip(width: u16, height: u16, pixels: Seq<Pixel>)
    requires
        pixels.len() == width as int * height as int,
    ensures
        decode_pix(pix_encoding(width, height, pixels)) == Some((width, height, pixels)),
{
    let b = pix_encoding(width, height, pixels);
    let n = width as int * height as int;
    assert(b[0] == (width % 256) as u8);
    assert(b[1] == (width / 256) as u8);
    assert(b[2] == (height % 256) as u8);
    assert(b[3] == (height / 256) as u8);
    assert(read_le16(b, 0) == width);
    assert(read_le16(b, 2) == height);
    let q = quads(b, 4, n as nat);
    assert forall|i: int| 0 <= i < n implies q[i] == pixels[i] by {
        assert((4 * i) / 4 == i);
        assert((4 * i + 1) / 4 == i && (4 * i + 1) % 4 == 1);
        assert((4 * i + 2) / 4 == i && (4 * i + 2) % 4 == 2);
        assert((4 * i + 3) / 4 == i && (4 * i + 3) % 4 == 3);
        assert(b[4 + 4 * i] == pixel_bytes(pixels)[4 * i]);
        assert(b[5 + 4 * i] == pixel_bytes(pixels)[4 * i + 1]);
        assert(b[6 + 4 * i] == pixel_bytes(pixels)[4 * i + 2]);
        assert(b[7 + 4 * i] == pixel_bytes(pixels)[4 * i + 3]);
    }
    assert(q =~= pixels);
}

} // verus!
