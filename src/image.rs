use std::collections::HashMap;

use vstd::prelude::*;

verus! {

/// A decoded image as width, height and its pixels as RGBA bytes, four per pixel.
pub type RawImage = (u32, u32, Vec<u8>);

/// An image of colors in row-major order.
pub struct Image {
    pub width: u32,
    pub height: u32,
    pub data: Vec<u32>,
}

impl Image {
    /// The pixel buffer holds exactly one color per position.
    pub open spec fn wf(&self) -> bool {
        self.data@.len() == self.width as int * self.height as int
    }
}

/// The little-endian packing of four bytes into one color.
pub open spec fn packed_color(b0: u8, b1: u8, b2: u8, b3: u8) -> int {
    b0 as int + 256 * b1 as int + 65536 * b2 as int + 16777216 * b3 as int
}

/// The color of the `i`-th pixel of an RGBA byte sequence.
pub open spec fn pixel_color(raw: Seq<u8>, i: int) -> int {
    packed_color(raw[4 * i], raw[4 * i + 1], raw[4 * i + 2], raw[4 * i + 3])
}

fn pack_rgba(b0: u8, b1: u8, b2: u8, b3: u8) -> (r: u32)
    ensures
        r as int == packed_color(b0, b1, b2, b3),
{
    let r = (b0 as u32) | (b1 as u32) << 8 | (b2 as u32) << 16 | (b3 as u32) << 24;
    assert(r == (b0 as u32) + 256 * (b1 as u32) + 65536 * (b2 as u32) + 16777216 * (b3 as u32))
        by (bit_vector)
        requires
            r == (b0 as u32) | (b1 as u32) << 8 | (b2 as u32) << 16 | (b3 as u32) << 24,
    ;
    r
}

/// Turns decoded RGBA bytes into an image whose colors pack each pixel's four
/// bytes, red in the lowest byte. Bytes past the last pixel are ignored.
pub fn load_image(raw: &RawImage) -> (image: Image)
    requires
        raw.2@.len() >= 4 * (raw.0 as int) * (raw.1 as int),
    ensures
        image.width == raw.0,
        image.height == raw.1,
        image.wf(),
        forall|i: int|
            0 <= i < image.data@.len() ==> #[trigger] image.data@[i] as int == pixel_color(raw.2@, i),
{
    let width = raw.0;
    let height = raw.1;
    let bytes = &raw.2;
    let total = bytes.len();
    assert(width as int * height as int <= usize::MAX && total >= 4 * (width as int * height as int))
        by (nonlinear_arith)
        requires
            total >= 4 * (width as int) * (height as int),
            total <= usize::MAX,
    ;
    let n: usize = width as usize * height as usize;
    let mut data: Vec<u32> = Vec::with_capacity(n);
    let mut i: usize = 0;
    while i < n
        invariant
            n as int == width as int * height as int,
            bytes@.len() >= 4 * n,
            bytes@.len() <= usize::MAX,
            i <= n,
            data@.len() == i,
            forall|k: int| 0 <= k < i ==> #[trigger] data@[k] as int == pixel_color(bytes@, k),
        decreases n - i,
    {
        assert(4 * i + 3 < bytes@.len()) by (nonlinear_arith)
            requires
                i < n,
                bytes@.len() >= 4 * n,
        ;
        let c = pack_rgba(bytes[4 * i], bytes[4 * i + 1], bytes[4 * i + 2], bytes[4 * i + 3]);
        data.push(c);
        i += 1;
    }
    Image { width, height, data }
}

/// One pixel as red, green, blue and alpha bytes.
#[derive(Clone, Copy, Debug, PartialEq, Eq, Hash, Structural)]
pub struct RawRgba(pub u8, pub u8, pub u8, pub u8);

/// A palette of up to 256 colors, and the palette index of each color in it.
pub struct ColorMap {
    pub colors: [RawRgba; 256],
    pub indices: HashMap<RawRgba, u8>,
}

impl ColorMap {
    /// An empty palette: every slot transparent black, no color indexed.
    pub fn new() -> (r: Self)
        ensures
            r.colors@ == Seq::new(256, |i: int| RawRgba(0, 0, 0, 0)),
            r.indices@ == Map::<RawRgba, u8>::empty(),
    {
        let colors = [RawRgba(0, 0, 0, 0);256];
        assert(colors@ =~= Seq::new(256, |i: int| RawRgba(0, 0, 0, 0)));
        Self { colors, indices: HashMap::new() }
    }
}

/// An image of palette indices with its palette.
pub struct CompressedImage {
    pub color_map: ColorMap,
    pub data: Vec<u8>,
    pub height: u32,
    pub width: u32,
}

impl CompressedImage {
    /// A `width` x `height` image whose every pixel is palette index zero,
    /// with an empty palette.
    pub fn new(width: u32, height: u32) -> (r: Self)
        requires
            width as int * height as int <= usize::MAX,
        ensures
            r.width == width,
            r.height == height,
            r.data@ == Seq::new((width as int * height as int) as nat, |i: int| 0u8),
            r.color_map.colors@ == Seq::new(256, |i: int| RawRgba(0, 0, 0, 0)),
            r.color_map.indices@ == Map::<RawRgba, u8>::empty(),
    {
        let color_map = ColorMap::new();
        let n = width as usize * height as usize;
        let mut data: Vec<u8> = Vec::with_capacity(n);
        let mut i: usize = 0;
        while i < n
            invariant
                i <= n,
                data@ == Seq::new(i as nat, |k: int| 0u8),
            decreases n - i,
        {
            data.push(0);
            i += 1;
            assert(data@ =~= Seq::new(i as nat, |k: int| 0u8));
        }
        Self { color_map, data, height, width }
    }
}

} // verus!
