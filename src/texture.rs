use vstd::prelude::*;
use vstd::arithmetic::div_mod::{
    lemma_div_by_multiple_is_strongly_ordered, lemma_div_multiples_vanish, lemma_div_pos_is_pos,
    lemma_fundamental_div_mod_converse_div, lemma_fundamental_div_mod_converse_mod,
};

verus! {

/// An RGBA image with eight bits a channel, held by the `image` crate.
#[verifier::external_body]
pub struct DecodedImage {
    image: image::RgbaImage,
}

/// The pixel bytes of an image, row by row from the top, four a pixel.
pub uninterp spec fn image_bytes(img: DecodedImage) -> Seq<u8>;

pub uninterp spec fn image_width(img: DecodedImage) -> u32;

pub uninterp spec fn image_height(img: DecodedImage) -> u32;

/// Relies on `image::ImageBuffer::from_raw`: it wraps the buffer, with the
/// given size, exactly when the buffer holds at least `4 * width * height`
/// bytes.
#[verifier::external_body]
fn rgba_image_from_raw(width: u32, height: u32, buf: Vec<u8>) -> (r: Option<DecodedImage>)
    ensures
        r.is_some() <==> 4 * width * height <= buf@.len(),
        r matches Some(img) ==> image_bytes(img) == buf@ && image_width(img) == width
            && image_height(img) == height,
{
    image::RgbaImage::from_raw(width, height, buf).map(|image| DecodedImage { image })
}

impl DecodedImage {
    /// Relies on `image::ImageBuffer::as_raw`: the bytes the image was made from.
    #[verifier::external_body]
    pub fn to_bytes(&self) -> (r: Vec<u8>)
        ensures
            r@ == image_bytes(*self),
    {
        self.image.as_raw().clone()
    }

    /// Relies on `image::ImageBuffer::width`.
    #[verifier::external_body]
    pub fn width(&self) -> (r: u32)
        ensures
            r == image_width(*self),
    {
        self.image.width()
    }

    /// Relies on `image::ImageBuffer::height`.
    #[verifier::external_body]
    pub fn height(&self) -> (r: u32)
        ensures
            r == image_height(*self),
    {
        self.image.height()
    }
}

#[derive(Clone, Copy, Debug, PartialEq, Eq, Structural)]
pub enum DecodeImageError {
    /// A block was shorter than its fixed size.
    InvalidData,
    /// The pixels could not be wrapped into an image of the given size.
    ImageDecode,
}

/// Red, green, blue and alpha.
pub type Pixel4 = (u8, u8, u8, u8);

pub open spec fn expand5(v: int) -> u8 {
    (v * 8 + v / 4) as u8
}

pub open spec fn expand6(v: int) -> u8 {
    (v * 4 + v / 16) as u8
}

/// A 5-6-5 packed color widened to eight bits a channel by bit replication.
pub open spec fn rgb565(c: u16) -> (u8, u8, u8) {
    (expand5(c as int / 2048), expand6((c as int / 32) % 64), expand5(c as int % 32))
}

pub open spec fn u16_at(b: Seq<u8>, o: int) -> u16 {
    (b[o] + 256 * b[o + 1]) as u16
}

pub open spec fn u32_at(b: Seq<u8>, o: int) -> u32 {
    (b[o] + 256 * b[o + 1] + 65536 * b[o + 2] + 16777216 * b[o + 3]) as u32
}

/// Two-bit color index of pixel `k`.
pub open spec fn color_index(idx: u32, k: int) -> int {
    ((idx >> ((2 * k) as u32)) & 3u32) as int
}

/// `(wa * a + wb * b) / d`, truncated.
pub open spec fn mix(a: u8, b: u8, wa: int, wb: int, d: int) -> u8 {
    ((wa * a + wb * b) / d) as u8
}

/// Entry `j` of the opaque four-color table between `c0` and `c1`.
pub open spec fn opaque_color(c0: u16, c1: u16, j: int) -> (u8, u8, u8) {
    let (r0, g0, b0) = rgb565(c0);
    let (r1, g1, b1) = rgb565(c1);
    if j == 0 {
        (r0, g0, b0)
    } else if j == 1 {
        (r1, g1, b1)
    } else if j == 2 {
        (mix(r0, r1, 2, 1, 3), mix(g0, g1, 2, 1, 3), mix(b0, b1, 2, 1, 3))
    } else {
        (mix(r0, r1, 1, 2, 3), mix(g0, g1, 1, 2, 3), mix(b0, b1, 1, 2, 3))
    }
}

/// Entry `j` of a DXT1 color table: opaque when `c0 > c1`, else three
/// colors and a transparent black.
pub open spec fn dxt1_color(c0: u16, c1: u16, j: int) -> Pixel4 {
    let (r0, g0, b0) = rgb565(c0);
    let (r1, g1, b1) = rgb565(c1);
    if c0 > c1 || j < 2 {
        let (r, g, b) = opaque_color(c0, c1, j);
        (r, g, b, 255u8)
    } else if j == 2 {
        (mix(r0, r1, 1, 1, 2), mix(g0, g1, 1, 1, 2), mix(b0, b1, 1, 1, 2), 255u8)
    } else {
        (0u8, 0u8, 0u8, 0u8)
    }
}

/// Pixel `k` (row-major within the 4x4 block) of the 8-byte DXT1 block `b`.
pub open spec fn dxt1_pixel(b: Seq<u8>, k: int) -> Pixel4 {
    dxt1_color(u16_at(b, 0), u16_at(b, 2), color_index(u32_at(b, 4), k))
}

/// Entry `j` of a DXT5 alpha table.
pub open spec fn alpha_entry(a0: u8, a1: u8, j: int) -> u8 {
    if j == 0 {
        a0
    } else if j == 1 {
        a1
    } else if a0 > a1 {
        (((8 - j) * a0 + (j - 1) * a1) / 7) as u8
    } else if j < 6 {
        (((6 - j) * a0 + (j - 1) * a1) / 5) as u8
    } else if j == 6 {
        0
    } else {
        255
    }
}

/// The 48-bit little-endian alpha index field of a DXT5 block.
pub open spec fn alpha_bits(b: Seq<u8>) -> u64 {
    (b[2] + 256 * b[3] + 65536 * b[4] + 16777216 * b[5] + 4294967296 * b[6] + 1099511627776
        * b[7]) as u64
}

/// Three-bit alpha index of pixel `k`.
pub open spec fn alpha_index(bits: u64, k: int) -> int {
    ((bits >> ((3 * k) as u64)) & 7u64) as int
}

/// Pixel `k` of the 16-byte DXT5 block `b`.
pub open spec fn dxt5_pixel(b: Seq<u8>, k: int) -> Pixel4 {
    let (r, g, bl) = opaque_color(u16_at(b, 8), u16_at(b, 10), color_index(u32_at(b, 12), k));
    (r, g, bl, alpha_entry(b[0], b[1], alpha_index(alpha_bits(b), k)))
}

/// Index of the block that covers pixel `(x, y)`, counted in stored order.
pub open spec fn block_index(w: int, x: int, y: int) -> int {
    (y / 4) * ((w + 3) / 4) + x / 4
}

/// Pixel `(x, y)`, in stored row order, of a DXT1 image of width `w`; pixels
/// of missing blocks are zero.
pub open spec fn dxt1_texel(data: Seq<u8>, w: int, x: int, y: int) -> Pixel4 {
    let bi = block_index(w, x, y);
    if (bi + 1) * 8 <= data.len() {
        dxt1_pixel(data.subrange(bi * 8, bi * 8 + 8), (y % 4) * 4 + x % 4)
    } else {
        (0u8, 0u8, 0u8, 0u8)
    }
}

/// Pixel `(x, y)`, in stored row order, of a DXT5 image of width `w`.
pub open spec fn dxt5_texel(data: Seq<u8>, w: int, x: int, y: int) -> Pixel4 {
    let bi = block_index(w, x, y);
    if (bi + 1) * 16 <= data.len() {
        dxt5_pixel(data.subrange(bi * 16, bi * 16 + 16), (y % 4) * 4 + x % 4)
    } else {
        (0u8, 0u8, 0u8, 0u8)
    }
}

pub open spec fn channel(p: Pixel4, c: int) -> u8 {
    if c == 0 {
        p.0
    } else if c == 1 {
        p.1
    } else if c == 2 {
        p.2
    } else {
        p.3
    }
}

/// Byte `q` of the output buffer: the rows are flipped, so output row
/// `q / 4 / w` shows stored row `h - 1 - q / 4 / w`.
pub open spec fn flipped_byte(texel: spec_fn(int, int) -> Pixel4, w: int, h: int, q: int) -> u8 {
    channel(texel((q / 4) % w, h - 1 - (q / 4) / w), q % 4)
}

fn expand_bits(c: u16) -> (r: (u8, u8, u8))
    ensures
        r == rgb565(c),
{
    let r = ((c >> 11u16) & 0x1f) as u8;
    let g = ((c >> 5u16) & 0x3f) as u8;
    let b = (c & 0x1f) as u8;
    proof {
        assert((c >> 11u16) & 0x1f == c / 2048) by (bit_vector);
        assert((c >> 5u16) & 0x3f == (c / 32) % 64) by (bit_vector);
        assert(c & 0x1f == c % 32) by (bit_vector);
        assert(r < 32 ==> (r << 3u8) | (r >> 2u8) == r * 8 + r / 4) by (bit_vector);
        assert(b < 32 ==> (b << 3u8) | (b >> 2u8) == b * 8 + b / 4) by (bit_vector);
        assert(g < 64 ==> (g << 2u8) | (g >> 4u8) == g * 4 + g / 16) by (bit_vector);
    }
    ((r << 3u8) | (r >> 2u8), (g << 2u8) | (g >> 4u8), (b << 3u8) | (b >> 2u8))
}

fn read_u16_le(data: &[u8], o: usize) -> (r: u16)
    requires
        o + 2 <= data@.len(),
    ensures
        r == u16_at(data@, o as int),
{
    data[o] as u16 + 256 * data[o + 1] as u16
}

fn read_u32_le(data: &[u8], o: usize) -> (r: u32)
    requires
        o + 4 <= data@.len(),
    ensures
        r == u32_at(data@, o as int),
{
    data[o] as u32 + 256 * data[o + 1] as u32 + 65536 * data[o + 2] as u32 + 16777216
        * data[o + 3] as u32
}

fn mix_exec(a: u8, b: u8, wa: u16, wb: u16, d: u16) -> (r: u8)
    requires
        wa <= 2,
        wb <= 2,
        d >= 1,
        wa + wb <= d,
    ensures
        r == mix(a, b, wa as int, wb as int, d as int),
{
    proof {
        assert(wa * a <= 2 * 255) by (nonlinear_arith)
            requires
                wa <= 2,
                a <= 255,
        ;
        assert(wb * b <= 2 * 255) by (nonlinear_arith)
            requires
                wb <= 2,
                b <= 255,
        ;
    }
    ((wa * a as u16 + wb * b as u16) / d) as u8
}

/// Pixel `(x, y)`, in stored row order, read from decoded blocks; zero where
/// no block was given.
pub open spec fn stored_texel(blocks: Seq<Vec<Pixel4>>, w: int, x: int, y: int) -> Pixel4 {
    let bi = block_index(w, x, y);
    if 0 <= bi < blocks.len() {
        blocks[bi]@[(y % 4) * 4 + x % 4]
    } else {
        (0u8, 0u8, 0u8, 0u8)
    }
}

proof fn lemma_position(q: int, oy: int, w: int, x: int, c: int)
    requires
        0 <= oy,
        0 <= x < w,
        0 <= c < 4,
        q == (oy * w + x) * 4 + c,
    ensures
        q / 4 == oy * w + x,
        q % 4 == c,
        (q / 4) % w == x,
        (q / 4) / w == oy,
{
    lemma_fundamental_div_mod_converse_div(q, 4, oy * w + x, c);
    lemma_fundamental_div_mod_converse_mod(q, 4, oy * w + x, c);
    lemma_fundamental_div_mod_converse_div(oy * w + x, w, oy, x);
    lemma_fundamental_div_mod_converse_mod(oy * w + x, w, oy, x);
}

/// Lays decoded 4x4 blocks out as RGBA rows, the last stored row first.
fn fill_flipped(blocks: &Vec<Vec<Pixel4>>, width: u32, height: u32) -> (buf: Vec<u8>)
    requires
        width * height * 4 <= usize::MAX,
        forall|bi: int| 0 <= bi < blocks@.len() ==> (#[trigger] blocks@[bi])@.len() == 16,
    ensures
        buf@.len() == width * height * 4,
        forall|q: int|
            0 <= q < buf@.len() ==> #[trigger] buf@[q] == flipped_byte(
                |x: int, y: int| stored_texel(blocks@, width as int, x, y),
                width as int,
                height as int,
                q,
            ),
{
    let ghost tex = |x: int, y: int| stored_texel(blocks@, width as int, x, y);
    let w = width as usize;
    let h = height as usize;
    let bx = if w % 4 == 0 {
        w / 4
    } else {
        w / 4 + 1
    };
    let nb = blocks.len();
    let mut buf: Vec<u8> = Vec::new();
    let mut oy: usize = 0;
    while oy < h
        invariant
            w == width,
            h == height,
            tex == (|x: int, y: int| stored_texel(blocks@, width as int, x, y)),
            bx == (w + 3) / 4,
            nb == blocks@.len(),
            w * h * 4 <= usize::MAX,
            oy <= h,
            forall|bi: int| 0 <= bi < blocks@.len() ==> (#[trigger] blocks@[bi])@.len() == 16,
            buf@.len() == oy * w * 4,
            forall|q: int|
                0 <= q < buf@.len() ==> #[trigger] buf@[q] == flipped_byte(tex, w as int, h as int, q),
        decreases h - oy,
    {
        let y = h - 1 - oy;
        let mut x: usize = 0;
        while x < w
            invariant
                w == width,
                h == height,
                tex == (|x: int, y: int| stored_texel(blocks@, width as int, x, y)),
                bx == (w + 3) / 4,
                nb == blocks@.len(),
                w * h * 4 <= usize::MAX,
                oy < h,
                y == h - 1 - oy,
                x <= w,
                forall|bi: int| 0 <= bi < blocks@.len() ==> (#[trigger] blocks@[bi])@.len() == 16,
                buf@.len() == (oy * w + x) * 4,
                forall|q: int|
                    0 <= q < buf@.len() ==> #[trigger] buf@[q] == flipped_byte(tex, w as int, h as int, q),
            decreases w - x,
        {
            let row = y / 4;
            proof {
                assert(row * bx <= h * w) by (nonlinear_arith)
                    requires
                        row <= h,
                        bx <= w,
                ;
                assert(h * w * 4 == w * h * 4) by (nonlinear_arith);
            }
            let bi = row * bx + x / 4;
            let p: Pixel4 = if bi < nb {
                blocks[bi][(y % 4) * 4 + x % 4]
            } else {
                (0u8, 0u8, 0u8, 0u8)
            };
            assert(p == stored_texel(blocks@, w as int, x as int, y as int));
            let ghost base = buf@.len() as int;
            let ghost before = buf@;
            buf.push(p.0);
            buf.push(p.1);
            buf.push(p.2);
            buf.push(p.3);
            proof {
                assert(buf@ =~= before + seq![p.0, p.1, p.2, p.3]);
                assert forall|q: int| 0 <= q < buf@.len() implies #[trigger] buf@[q] == flipped_byte(
                    tex,
                    w as int,
                    h as int,
                    q,
                ) by {
                    if q >= base {
                        lemma_position(q, oy as int, w as int, x as int, q - base);
                        assert(h - 1 - (q / 4) / (w as int) == y);
                        assert(buf@[q] == channel(p, q - base));
                        assert(tex(x as int, y as int) == p);
                        assert(flipped_byte(tex, w as int, h as int, q) == channel(
                            tex(x as int, y as int),
                            q - base,
                        ));
                    } else {
                        assert(buf@[q] == before[q]);
                    }
                }
            }
            x = x + 1;
        }
        proof {
            assert((oy + 1) * w == oy * w + w) by (nonlinear_arith);
        }
        oy = oy + 1;
    }
    proof {
        assert(oy * w * 4 == width * height * 4) by (nonlinear_arith)
            requires
                oy == h,
                h == height,
                w == width,
        ;
    }
    buf
}

/// Byte `q` of a decoded DXT1 image of `w` by `h` pixels.
pub open spec fn dxt1_byte(data: Seq<u8>, w: int, h: int, q: int) -> u8 {
    flipped_byte(|x: int, y: int| dxt1_texel(data, w, x, y), w, h, q)
}

/// Byte `q` of a decoded DXT5 image of `w` by `h` pixels.
pub open spec fn dxt5_byte(data: Seq<u8>, w: int, h: int, q: int) -> u8 {
    flipped_byte(|x: int, y: int| dxt5_texel(data, w, x, y), w, h, q)
}

/// Every byte of an image buffer lies on a pixel inside the image.
proof fn lemma_in_image(q: int, w: int, h: int)
    requires
        0 <= q < w * h * 4,
        0 < w,
    ensures
        0 <= (q / 4) % w < w,
        0 <= h - 1 - (q / 4) / w < h,
{
    let p = q / 4;
    assert(p < w * h);
    lemma_div_pos_is_pos(p, w);
    assert(w * h == h * w) by (nonlinear_arith);
    lemma_div_by_multiple_is_strongly_ordered(p, w * h, h, w);
    lemma_div_multiples_vanish(h, w);
    assert(w * h / w == h) by (nonlinear_arith)
        requires
            w * h == w * h,
            (w * h) / w == h,
    ;
}

fn opaque_entry(c0: u16, c1: u16, j: u8) -> (r: (u8, u8, u8))
    requires
        j < 4,
    ensures
        r == opaque_color(c0, c1, j as int),
{
    let (r0, g0, b0) = expand_bits(c0);
    let (r1, g1, b1) = expand_bits(c1);
    if j == 0 {
        (r0, g0, b0)
    } else if j == 1 {
        (r1, g1, b1)
    } else if j == 2 {
        (mix_exec(r0, r1, 2, 1, 3), mix_exec(g0, g1, 2, 1, 3), mix_exec(b0, b1, 2, 1, 3))
    } else {
        (mix_exec(r0, r1, 1, 2, 3), mix_exec(g0, g1, 1, 2, 3), mix_exec(b0, b1, 1, 2, 3))
    }
}

fn alpha_value(a0: u8, a1: u8, j: u16) -> (r: u8)
    requires
        j < 8,
    ensures
        r == alpha_entry(a0, a1, j as int),
{
    if j == 0 {
        a0
    } else if j == 1 {
        a1
    } else if a0 > a1 {
        proof {
            assert((8 - j) * a0 <= 6 * 255) by (nonlinear_arith)
                requires
                    2 <= j < 8,
                    a0 <= 255,
            ;
            assert((j - 1) * a1 <= 6 * 255) by (nonlinear_arith)
                requires
                    2 <= j < 8,
                    a1 <= 255,
            ;
        }
        (((8 - j) * a0 as u16 + (j - 1) * a1 as u16) / 7) as u8
    } else if j < 6 {
        proof {
            assert((6 - j) * a0 <= 4 * 255) by (nonlinear_arith)
                requires
                    2 <= j < 6,
                    a0 <= 255,
            ;
            assert((j - 1) * a1 <= 4 * 255) by (nonlinear_arith)
                requires
                    2 <= j < 6,
                    a1 <= 255,
            ;
        }
        (((6 - j) * a0 as u16 + (j - 1) * a1 as u16) / 5) as u8
    } else if j == 6 {
        0
    } else {
        255
    }
}

/// DXT1 (BC1) textures: 8-byte blocks of two 5-6-5 colors and 2-bit indices.
pub struct DXT1;

impl DXT1 {
    /// Decodes a DXT1 texture of `width` by `height` pixels into an image.
    pub fn decode(data: &[u8], width: u32, height: u32) -> (r: Result<DecodedImage, DecodeImageError>)
        requires
            width * height * 4 <= usize::MAX,
        ensures
            data@.len() % 8 != 0 ==> r == Err::<DecodedImage, DecodeImageError>(
                DecodeImageError::InvalidData,
            ),
            data@.len() % 8 == 0 ==> (r matches Ok(img) && image_width(img) == width
                && image_height(img) == height && image_bytes(img).len() == width * height * 4
                && forall|q: int| 0 <= q < width * height * 4 ==> #[trigger] image_bytes(img)[q]
                    == dxt1_byte(data@, width as int, height as int, q)),
    {
        let buf = match Self::decode_raw(data, width, height) {
            Ok(buf) => buf,
            Err(e) => return Err(e),
        };
        proof {
            assert(4 * width * height == width * height * 4) by (nonlinear_arith);
        }
        match rgba_image_from_raw(width, height, buf) {
            Some(img) => Ok(img),
            None => Err(DecodeImageError::ImageDecode),
        }
    }

    /// The RGBA bytes of a DXT1 texture, top row first; `InvalidData` when
    /// the last block is cut short.
    pub fn decode_raw(data: &[u8], width: u32, height: u32) -> (r: Result<Vec<u8>, DecodeImageError>)
        requires
            width * height * 4 <= usize::MAX,
        ensures
            data@.len() % 8 != 0 ==> r == Err::<Vec<u8>, DecodeImageError>(
                DecodeImageError::InvalidData,
            ),
            data@.len() % 8 == 0 ==> (r matches Ok(buf) && buf@.len() == width * height * 4
                && forall|q: int| 0 <= q < buf@.len() ==> #[trigger] buf@[q] == dxt1_byte(
                data@,
                width as int,
                height as int,
                q,
            )),
    {
        if data.len() % 8 != 0 {
            return Err(DecodeImageError::InvalidData);
        }
        let n = data.len() / 8;
        let mut blocks: Vec<Vec<Pixel4>> = Vec::new();
        let mut i: usize = 0;
        while i < n
            invariant
                n == data@.len() / 8,
                data@.len() <= usize::MAX,
                i <= n,
                blocks@.len() == i,
                forall|bi: int| 0 <= bi < i ==> (#[trigger] blocks@[bi])@.len() == 16 && forall|k: int|
                    0 <= k < 16 ==> #[trigger] blocks@[bi]@[k] == dxt1_pixel(
                        data@.subrange(bi * 8, bi * 8 + 8),
                        k,
                    ),
            decreases n - i,
        {
            let block = match Self::decode_block(data, i * 8) {
                Ok(block) => block,
                Err(e) => return Err(e),
            };
            blocks.push(block);
            i = i + 1;
        }
        let buf = fill_flipped(&blocks, width, height);
        proof {
            assert forall|q: int| 0 <= q < buf@.len() implies #[trigger] buf@[q] == dxt1_byte(
                data@,
                width as int,
                height as int,
                q,
            ) by {
                lemma_in_image(q, width as int, height as int);
            }
        }
        Ok(buf)
    }

    /// The sixteen pixels, row by row, of the block at `off`; `InvalidData`
    /// when fewer than 8 bytes are left there.
    fn decode_block(data: &[u8], off: usize) -> (r: Result<Vec<Pixel4>, DecodeImageError>)
        requires
            off <= data@.len(),
        ensures
            off + 8 > data@.len() ==> r == Err::<Vec<Pixel4>, DecodeImageError>(
                DecodeImageError::InvalidData,
            ),
            off + 8 <= data@.len() ==> (r matches Ok(px) && px@.len() == 16 && forall|k: int|
                0 <= k < 16 ==> #[trigger] px@[k] == dxt1_pixel(
                data@.subrange(off as int, off + 8),
                k,
            )),
    {
        if data.len() - off < 8 {
            return Err(DecodeImageError::InvalidData);
        }
        let ghost b = data@.subrange(off as int, off + 8);
        let c0 = read_u16_le(data, off);
        let c1 = read_u16_le(data, off + 2);
        let idx = read_u32_le(data, off + 4);
        assert(c0 == u16_at(b, 0) && c1 == u16_at(b, 2) && idx == u32_at(b, 4));
        let (r0, g0, b0) = Self::rgb565_to_rgb888(c0);
        let (r1, g1, b1) = Self::rgb565_to_rgb888(c1);
        let mut colors: Vec<Pixel4> = Vec::new();
        colors.push((r0, g0, b0, 255));
        colors.push((r1, g1, b1, 255));
        if c0 > c1 {
            let (r2, g2, b2) = opaque_entry(c0, c1, 2);
            let (r3, g3, b3) = opaque_entry(c0, c1, 3);
            colors.push((r2, g2, b2, 255));
            colors.push((r3, g3, b3, 255));
        } else {
            colors.push((mix_exec(r0, r1, 1, 1, 2), mix_exec(g0, g1, 1, 1, 2), mix_exec(b0, b1, 1, 1, 2), 255));
            colors.push((0, 0, 0, 0));
        }
        assert(forall|j: int| 0 <= j < 4 ==> colors@[j] == dxt1_color(c0, c1, j));
        let mut px: Vec<Pixel4> = Vec::new();
        let mut i: u32 = 0;
        while i < 16
            invariant
                i <= 16,
                px@.len() == i,
                colors@.len() == 4,
                forall|j: int| 0 <= j < 4 ==> colors@[j] == dxt1_color(c0, c1, j),
                c0 == u16_at(b, 0),
                c1 == u16_at(b, 2),
                idx == u32_at(b, 4),
                forall|k: int| 0 <= k < i ==> #[trigger] px@[k] == dxt1_pixel(b, k),
            decreases 16 - i,
        {
            let ci = ((idx >> (2 * i)) & 3) as usize;
            proof {
                assert((idx >> (2 * i)) & 3u32 < 4) by (bit_vector);
            }
            px.push(colors[ci]);
            i = i + 1;
        }
        Ok(px)
    }

    /// Widens a 5-6-5 color to eight bits a channel.
    pub fn rgb565_to_rgb888(c: u16) -> (r: (u8, u8, u8))
        ensures
            r == rgb565(c),
    {
        expand_bits(c)
    }
}

/// DXT5 (BC3) textures: 16-byte blocks of an interpolated alpha table with
/// 3-bit indices, then an opaque DXT1-style color block.
pub struct DXT5;

impl DXT5 {
    /// Decodes a DXT5 texture of `width` by `height` pixels into an image.
    pub fn decode(data: &[u8], width: u32, height: u32) -> (r: Result<DecodedImage, DecodeImageError>)
        requires
            width * height * 4 <= usize::MAX,
        ensures
            data@.len() % 16 != 0 ==> r == Err::<DecodedImage, DecodeImageError>(
                DecodeImageError::InvalidData,
            ),
            data@.len() % 16 == 0 ==> (r matches Ok(img) && image_width(img) == width
                && image_height(img) == height && image_bytes(img).len() == width * height * 4
                && forall|q: int| 0 <= q < width * height * 4 ==> #[trigger] image_bytes(img)[q]
                    == dxt5_byte(data@, width as int, height as int, q)),
    {
        let buf = match Self::decode_raw(data, width, height) {
            Ok(buf) => buf,
            Err(e) => return Err(e),
        };
        proof {
            assert(4 * width * height == width * height * 4) by (nonlinear_arith);
        }
        match rgba_image_from_raw(width, height, buf) {
            Some(img) => Ok(img),
            None => Err(DecodeImageError::ImageDecode),
        }
    }

    /// The RGBA bytes of a DXT5 texture, top row first; `InvalidData` when
    /// the last block is cut short.
    pub fn decode_raw(data: &[u8], width: u32, height: u32) -> (r: Result<Vec<u8>, DecodeImageError>)
        requires
            width * height * 4 <= usize::MAX,
        ensures
            data@.len() % 16 != 0 ==> r == Err::<Vec<u8>, DecodeImageError>(
                DecodeImageError::InvalidData,
            ),
            data@.len() % 16 == 0 ==> (r matches Ok(buf) && buf@.len() == width * height * 4
                && forall|q: int| 0 <= q < buf@.len() ==> #[trigger] buf@[q] == dxt5_byte(
                data@,
                width as int,
                height as int,
                q,
            )),
    {
        if data.len() % 16 != 0 {
            return Err(DecodeImageError::InvalidData);
        }
        let n = data.len() / 16;
        let mut blocks: Vec<Vec<Pixel4>> = Vec::new();
        let mut i: usize = 0;
        while i < n
            invariant
                n == data@.len() / 16,
                data@.len() <= usize::MAX,
                i <= n,
                blocks@.len() == i,
                forall|bi: int| 0 <= bi < i ==> (#[trigger] blocks@[bi])@.len() == 16 && forall|k: int|
                    0 <= k < 16 ==> #[trigger] blocks@[bi]@[k] == dxt5_pixel(
                        data@.subrange(bi * 16, bi * 16 + 16),
                        k,
                    ),
            decreases n - i,
        {
            let block = match Self::decode_block(data, i * 16) {
                Ok(block) => block,
                Err(e) => return Err(e),
            };
            blocks.push(block);
            i = i + 1;
        }
        let buf = fill_flipped(&blocks, width, height);
        proof {
            assert forall|q: int| 0 <= q < buf@.len() implies #[trigger] buf@[q] == dxt5_byte(
                data@,
                width as int,
                height as int,
                q,
            ) by {
                lemma_in_image(q, width as int, height as int);
            }
        }
        Ok(buf)
    }

    /// The sixteen pixels, row by row, of the block at `off`; `InvalidData`
    /// when fewer than 16 bytes are left there.
    fn decode_block(data: &[u8], off: usize) -> (r: Result<Vec<Pixel4>, DecodeImageError>)
        requires
            off <= data@.len(),
        ensures
            off + 16 > data@.len() ==> r == Err::<Vec<Pixel4>, DecodeImageError>(
                DecodeImageError::InvalidData,
            ),
            off + 16 <= data@.len() ==> (r matches Ok(px) && px@.len() == 16 && forall|k: int|
                0 <= k < 16 ==> #[trigger] px@[k] == dxt5_pixel(
                data@.subrange(off as int, off + 16),
                k,
            )),
    {
        if data.len() - off < 16 {
            return Err(DecodeImageError::InvalidData);
        }
        let ghost b = data@.subrange(off as int, off + 16);
        let a0 = data[off];
        let a1 = data[off + 1];
        let bits: u64 = data[off + 2] as u64 + 256 * data[off + 3] as u64 + 65536 * data[off + 4] as u64
            + 16777216 * data[off + 5] as u64 + 4294967296 * data[off + 6] as u64 + 1099511627776
            * data[off + 7] as u64;
        assert(a0 == b[0] && a1 == b[1] && bits == alpha_bits(b));
        let mut alphas: Vec<u8> = Vec::new();
        let mut j: u16 = 0;
        while j < 8
            invariant
                j <= 8,
                alphas@.len() == j,
                forall|m: int| 0 <= m < j ==> #[trigger] alphas@[m] == alpha_entry(a0, a1, m),
            decreases 8 - j,
        {
            alphas.push(alpha_value(a0, a1, j));
            j = j + 1;
        }
        let c0 = read_u16_le(data, off + 8);
        let c1 = read_u16_le(data, off + 10);
        let idx = read_u32_le(data, off + 12);
        assert(c0 == u16_at(b, 8) && c1 == u16_at(b, 10) && idx == u32_at(b, 12));
        let mut colors: Vec<(u8, u8, u8)> = Vec::new();
        let mut m: u8 = 0;
        while m < 4
            invariant
                m <= 4,
                colors@.len() == m,
                forall|t: int| 0 <= t < m ==> #[trigger] colors@[t] == opaque_color(c0, c1, t),
            decreases 4 - m,
        {
            colors.push(opaque_entry(c0, c1, m));
            m = m + 1;
        }
        let mut px: Vec<Pixel4> = Vec::new();
        let mut i: u32 = 0;
        while i < 16
            invariant
                i <= 16,
                px@.len() == i,
                colors@.len() == 4,
                alphas@.len() == 8,
                forall|t: int| 0 <= t < 4 ==> #[trigger] colors@[t] == opaque_color(c0, c1, t),
                forall|t: int| 0 <= t < 8 ==> #[trigger] alphas@[t] == alpha_entry(a0, a1, t),
                a0 == b[0],
                a1 == b[1],
                bits == alpha_bits(b),
                c0 == u16_at(b, 8),
                c1 == u16_at(b, 10),
                idx == u32_at(b, 12),
                forall|k: int| 0 <= k < i ==> #[trigger] px@[k] == dxt5_pixel(b, k),
            decreases 16 - i,
        {
            let ai = ((bits >> (3 * i as u64)) & 7) as usize;
            let ci = ((idx >> (2 * i)) & 3) as usize;
            proof {
                assert((bits >> (3 * i as u64)) & 7u64 < 8) by (bit_vector);
                assert((idx >> (2 * i)) & 3u32 < 4) by (bit_vector);
            }
            let rgb = colors[ci];
            px.push((rgb.0, rgb.1, rgb.2, alphas[ai]));
            i = i + 1;
        }
        Ok(px)
    }

    /// Widens a 5-6-5 color to eight bits a channel.
    pub fn rgb565_to_rgb888(c: u16) -> (r: (u8, u8, u8))
        ensures
            r == rgb565(c),
    {
        expand_bits(c)
    }
}

/// In a DXT1 image four pixels wide and eight high, the bottom four output
/// rows show the first stored block, bottom row first.
pub proof fn lemma_first_block_fills_bottom_rows(data: Seq<u8>, q: int)
    requires
        8 <= data.len(),
        4 * 4 * 4 <= q < 4 * 8 * 4,
    ensures
        dxt1_byte(data, 4, 8, q) == channel(
            dxt1_pixel(data.subrange(0, 8), (7 - (q / 4) / 4) * 4 + (q / 4) % 4),
            q % 4,
        ),
{
    let x = (q / 4) % 4;
    let y = 7 - (q / 4) / 4;
    assert(0 <= y < 4);
    assert(0 <= x < 4);
    assert(y / 4 == 0 && x / 4 == 0 && y % 4 == y && x % 4 == x);
    assert((4int + 3) / 4 == 1);
    assert(block_index(4, x, y) == 0);
}

} // verus!
