use vstd::prelude::*;

use crate::rational::{ratio_one, ratio_zero, Rat};

verus! {

/// The width and height of an image in pixels.
#[derive(Clone, Copy, PartialEq, Eq, Structural, Debug)]
pub struct ImageDimensions {
    pub height: usize,
    pub width: usize,
}

/// One labeled image: its dimensions, its class label, its pixel bytes
/// in row-major order, and its position in the file it came from.
pub struct MnistImage {
    pub dimensions: ImageDimensions,
    pub label: u8,
    pub pixels: Vec<u8>,
    pub index: u32,
}

impl MnistImage {
    /// The pixel buffer covers the full image.
    pub open spec fn wf(self) -> bool {
        self.pixels@.len() == self.dimensions.width * self.dimensions.height
    }
}

/// The big-endian 32-bit integer stored at offset `off`.
pub open spec fn be_u32(s: Seq<u8>, off: int) -> int {
    s[off] * 0x100_0000 + s[off + 1] * 0x1_0000 + s[off + 2] * 0x100 + s[off + 3]
}

/// Reads a big-endian 32-bit header field.
pub fn read_be_u32(bytes: &Vec<u8>, off: usize) -> (r: u32)
    requires
        off + 4 <= bytes@.len(),
    ensures
        r as int == be_u32(bytes@, off as int),
{
    // binding the length grounds the machine bound on the four indices
    let n = bytes.len();
    (bytes[off] as u32) * 0x100_0000 + (bytes[off + 1] as u32) * 0x1_0000 + (bytes[off
        + 2] as u32) * 0x100 + (bytes[off + 3] as u32)
}

/// A label file is well formed when it opens with the label magic
/// number, then the label count, then at least that many label bytes;
/// bytes beyond the counted ones are ignored.
pub open spec fn labels_wf(s: Seq<u8>) -> bool {
    &&& s.len() >= 8
    &&& be_u32(s, 0) == 2049
    &&& s.len() >= 8 + be_u32(s, 4)
}

/// Parses a label file: succeeds exactly on well-formed input and
/// returns the counted label bytes in file order.
#[verifier::loop_isolation(false)]
pub fn parse_labels(bytes: &Vec<u8>) -> (r: Option<Vec<u8>>)
    ensures
        r is Some <==> labels_wf(bytes@),
        r matches Some(ls) ==> ls@ == bytes@.subrange(8, 8 + be_u32(bytes@, 4)),
{
    if bytes.len() < 8 {
        return None;
    }
    let magic = read_be_u32(bytes, 0);
    if magic != 2049 {
        return None;
    }
    let count = read_be_u32(bytes, 4);
    if (bytes.len() as u64) < 8 + (count as u64) {
        return None;
    }
    let end: usize = 8 + (count as usize);
    let mut out: Vec<u8> = Vec::new();
    let mut i: usize = 8;
    while i < end
        invariant
            8 <= i <= end,
            end == 8 + count as int,
            end <= bytes@.len(),
            out@ == bytes@.subrange(8, i as int),
        decreases end - i,
    {
        out.push(bytes[i]);
        proof {
            assert(out@ =~= bytes@.subrange(8, i + 1));
        }
        i += 1;
    }
    Some(out)
}

/// An image file is well formed, against a given label count, when it
/// opens with the image magic number, a count no larger than the label
/// count, then the row and column counts, then at least count · rows ·
/// columns pixel bytes; surplus labels and bytes are ignored.
pub open spec fn images_wf(s: Seq<u8>, nlabels: int) -> bool {
    &&& s.len() >= 16
    &&& be_u32(s, 0) == 2051
    &&& be_u32(s, 4) <= nlabels
    &&& s.len() >= 16 + be_u32(s, 4) * (be_u32(s, 8) * be_u32(s, 12))
}

/// Parses an image file against already-parsed labels: succeeds exactly
/// on input well formed for that label count, and returns one record per
/// counted image carrying its label, its position, and its slice of the
/// flat pixel area.
#[verifier::loop_isolation(false)]
pub fn parse_images(bytes: &Vec<u8>, labels: &Vec<u8>) -> (r: Option<Vec<MnistImage>>)
    ensures
        r is Some <==> images_wf(bytes@, labels@.len() as int),
        r matches Some(imgs) ==> {
            &&& imgs@.len() == be_u32(bytes@, 4)
            &&& (forall|i: int|
                0 <= i < imgs@.len() ==> {
                    let img = #[trigger] imgs@[i];
                    let wh = be_u32(bytes@, 8) * be_u32(bytes@, 12);
                    &&& img.wf()
                    &&& img.label == labels@[i]
                    &&& img.index as int == i
                    &&& img.dimensions.width as int == be_u32(bytes@, 8)
                    &&& img.dimensions.height as int == be_u32(bytes@, 12)
                    &&& img.pixels@ == bytes@.subrange(16 + i * wh, 16 + (i + 1) * wh)
                })
        },
{
    if bytes.len() < 16 {
        return None;
    }
    let magic = read_be_u32(bytes, 0);
    if magic != 2051 {
        return None;
    }
    let count = read_be_u32(bytes, 4);
    if (count as u64) > (labels.len() as u64) {
        return None;
    }
    let width = read_be_u32(bytes, 8);
    let height = read_be_u32(bytes, 12);
    proof {
        assert((width as int) * (height as int) <= 0xffff_ffff * 0xffff_ffff)
            by (nonlinear_arith)
            requires
                0 <= width as int <= 0xffff_ffff,
                0 <= height as int <= 0xffff_ffff,
        {
        }
    }
    let wh: u64 = (width as u64) * (height as u64);
    proof {
        assert((count as int) * (wh as int) <= 0xffff_ffff * 0xffff_ffff_ffff_ffff)
            by (nonlinear_arith)
            requires
                0 <= count as int <= 0xffff_ffff,
                0 <= wh as int <= 0xffff_ffff_ffff_ffff,
        {
        }
    }
    if (bytes.len() as u128) < 16 + (count as u128) * (wh as u128) {
        proof {
            assert((count as int) * ((width as int) * (height as int)) == (count as int) * (
            wh as int)) by (nonlinear_arith)
                requires
                    wh as int == (width as int) * (height as int),
            {
            }
        }
        return None;
    }
    proof {
        assert((count as int) * ((width as int) * (height as int)) == (count as int) * (
        wh as int)) by (nonlinear_arith)
            requires
                wh as int == (width as int) * (height as int),
        {
        }
        assert(images_wf(bytes@, labels@.len() as int));
    }
    let n_images: usize = count as usize;
    let mut images: Vec<MnistImage> = Vec::new();
    let mut i: usize = 0;
    let mut offset: usize = 16;
    while i < n_images
        invariant
            0 <= i <= n_images,
            n_images == count as int,
            images@.len() == i,
            offset as int == 16 + i * (wh as int),
            offset <= bytes@.len(),
            bytes@.len() as int >= 16 + (count as int) * (wh as int),
            wh as int == (width as int) * (height as int),
            images_wf(bytes@, labels@.len() as int),
            forall|t: int|
                0 <= t < i ==> {
                    let img = #[trigger] images@[t];
                    &&& img.wf()
                    &&& img.label == labels@[t]
                    &&& img.index as int == t
                    &&& img.dimensions.width as int == width as int
                    &&& img.dimensions.height as int == height as int
                    &&& img.pixels@ == bytes@.subrange(
                        16 + t * (wh as int),
                        16 + (t + 1) * (wh as int),
                    )
                },
        decreases labels@.len() - i,
    {
        proof {
            assert((i + 1) * (wh as int) <= (count as int) * (wh as int)) by (nonlinear_arith)
                requires
                    0 <= i as int + 1 <= count as int,
                    0 <= wh as int,
            {
            }
            assert((i + 1) * (wh as int) == i * (wh as int) + (wh as int)) by (nonlinear_arith);
        }
        let mut pixels: Vec<u8> = Vec::new();
        let base = offset;
        let mut p: usize = 0;
        while p < (wh as usize)
            invariant
                0 <= p <= wh as int,
                base as int == 16 + i * (wh as int),
                base + wh <= bytes@.len(),
                pixels@ == bytes@.subrange(base as int, base as int + p),
            decreases wh as int - p,
        {
            pixels.push(bytes[base + p]);
            proof {
                assert(pixels@ =~= bytes@.subrange(base as int, base as int + p + 1));
            }
            p += 1;
        }
        let image = MnistImage {
            dimensions: ImageDimensions { width: width as usize, height: height as usize },
            index: i as u32,
            label: labels[i],
            pixels,
        };
        proof {
            assert((width as int) * (height as int) == wh as int);
        }
        images.push(image);
        offset = offset + (wh as usize);
        i += 1;
    }
    Some(images)
}

/// One displayable row of an image: a bright pixel renders as `0`, a
/// dark one as a space.
#[verifier::loop_isolation(false)]
pub fn render_row(image: &MnistImage, row: usize) -> (r: String)
    requires
        image.wf(),
        (row as int) < image.dimensions.height as int,
    ensures
        r@.len() == image.dimensions.width,
        forall|c: int|
            0 <= c < image.dimensions.width ==> r@[c] == (if image.pixels@[row
                * image.dimensions.width + c] > 123 {
                '0'
            } else {
                ' '
            }),
{
    let width = image.dimensions.width;
    // binding the length grounds the machine bound on the pixel indices
    let n = image.pixels.len();
    proof {
        assert((row as int) * (width as int) + (width as int) <= (image.dimensions.height as int)
            * (width as int)) by (nonlinear_arith)
            requires
                0 <= row as int,
                0 <= width as int,
                row as int + 1 <= image.dimensions.height as int,
        {
        }
        assert((image.dimensions.width as int) * (image.dimensions.height as int) == (
        image.dimensions.height as int) * (width as int)) by (nonlinear_arith)
            requires
                width as int == image.dimensions.width as int,
        {
        }
    }
    let mut r = String::new();
    let mut c: usize = 0;
    while c < width
        invariant
            c <= width,
            (row as int) * (width as int) + (width as int) <= image.pixels@.len(),
            r@.len() == c,
            forall|cc: int|
                0 <= cc < c ==> r@[cc] == (if image.pixels@[row * image.dimensions.width + cc]
                    > 123 {
                    '0'
                } else {
                    ' '
                }),
        decreases width - c,
    {
        proof {
            reveal_strlit("0");
            reveal_strlit(" ");
        }
        if image.pixels[row * width + c] > 123 {
            r.append("0");
        } else {
            r.append(" ");
        }
        c += 1;
    }
    r
}

/// The one-hot encoding of a class label: ten scalars, a one at the
/// label's position and zeros everywhere else.
#[verifier::loop_isolation(false)]
pub fn one_hot_encoding(label: u8) -> (r: Vec<Rat>)
    requires
        label < 10,
    ensures
        r@.len() == 10,
        forall|i: int|
            0 <= i < 10 ==> (#[trigger] r@[i])@ == (if i == label as int {
                ratio_one()
            } else {
                ratio_zero()
            }),
{
    let mut r: Vec<Rat> = Vec::new();
    let mut i: usize = 0;
    while i < 10
        invariant
            i <= 10,
            r@.len() == i,
            forall|t: int|
                0 <= t < i ==> (#[trigger] r@[t])@ == (if t == label as int {
                    ratio_one()
                } else {
                    ratio_zero()
                }),
        decreases 10 - i,
    {
        if i == (label as usize) {
            r.push(Rat::one());
        } else {
            r.push(Rat::zero());
        }
        i += 1;
    }
    r
}

/// The pixel bytes of an image as scalars, deliberately scaled into
/// [0, 1] — each byte over 255 — so that pixels feed a network on the
/// same footing as its unit-interval parameters; a caller who wants the
/// raw byte magnitudes can build them with `Rat::from_int` instead.
#[verifier::loop_isolation(false)]
pub fn pixel_values(image: &MnistImage) -> (r: Vec<Rat>)
    ensures
        r@.len() == image.pixels@.len(),
        forall|i: int|
            0 <= i < r@.len() ==> (#[trigger] r@[i])@ == (crate::rational::Ratio {
                n: image.pixels@[i] as int,
                d: 255,
            }),
{
    let mut r: Vec<Rat> = Vec::new();
    let mut i: usize = 0;
    while i < image.pixels.len()
        invariant
            i <= image.pixels@.len(),
            r@.len() == i,
            forall|t: int|
                0 <= t < i ==> (#[trigger] r@[t])@ == (crate::rational::Ratio {
                    n: image.pixels@[t] as int,
                    d: 255,
                }),
        decreases image.pixels@.len() - i,
    {
        r.push(Rat::new(image.pixels[i] as i64, 255));
        i += 1;
    }
    r
}

} // verus!
