//! Procedural textures that materials can sample: square RGBA images whose
//! pixels are shades of grey, written row by row.
use vstd::prelude::*;
use vstd::arithmetic::div_mod::lemma_fundamental_div_mod_converse;

verus! {

/// The procedural texture a material samples.
/// `Plain` samples no texture.
#[derive(Clone, Copy, Debug, PartialEq, Eq, Hash, Structural)]
pub enum TextureType {
    Plain,
    Grid,
    Noise,
    Checker,
}

impl Default for TextureType {
    fn default() -> (r: Self)
        ensures
            r == TextureType::Plain,
    {
        TextureType::Plain
    }
}

impl TextureType {
    /// Display name of the texture type.
    pub fn name(&self) -> (r: &'static str)
        ensures
            *self == TextureType::Plain ==> r@ == "None"@,
            *self == TextureType::Grid ==> r@ == "Grid"@,
            *self == TextureType::Noise ==> r@ == "Noise"@,
            *self == TextureType::Checker ==> r@ == "Checker"@,
    {
        match self {
            TextureType::Plain => "None",
            TextureType::Grid => "Grid",
            TextureType::Noise => "Noise",
            TextureType::Checker => "Checker",
        }
    }
}

/// An RGBA image of `size * size` pixels, row by row, where pixel `(x, y)`
/// has grey level `shade(x, y)` and full opacity.
pub open spec fn grey_image(size: nat, shade: spec_fn(nat, nat) -> u8) -> Seq<u8> {
    Seq::new(
        size * size * 4,
        |k: int|
            if k % 4 == 3 {
                255u8
            } else {
                shade(((k / 4) % size as int) as nat, ((k / 4) / size as int) as nat)
            },
    )
}

/// Grid lines: pixels within `line_width` of every eighth of the image are
/// bright.
pub open spec fn grid_shade(size: nat, line_width: nat, x: nat, y: nat) -> u8 {
    if x % (size / 8) < line_width || y % (size / 8) < line_width {
        255
    } else {
        180
    }
}

/// Hash of a pixel position and a seed.
pub open spec fn noise_hash(x: u32, y: u32, seed: u32) -> u32 {
    ((x.wrapping_mul(374761393u32) ^ y.wrapping_mul(668265263u32)) ^ seed.wrapping_mul(
        1013904223u32,
    )).wrapping_mul(1664525u32)
}

/// Noise: the top byte of the hash, pulled halfway toward mid grey (the
/// halving rounds toward mid grey).
pub open spec fn noise_shade(x: u32, y: u32, seed: u32) -> u8 {
    let v = noise_hash(x, y, seed) / 16777216;
    if v >= 128 {
        (128 + (v - 128) / 2) as u8
    } else {
        (128 - (128 - v) / 2) as u8
    }
}

/// Checkerboard of `tile_size` squares: the square holding the origin is
/// light.
pub open spec fn checker_shade(tile_size: nat, x: nat, y: nat) -> u8 {
    if (x / tile_size + y / tile_size) % 2 == 0 {
        220
    } else {
        160
    }
}

proof fn lemma_pixel_slot(size: nat, x: nat, y: nat, c: nat)
    requires
        x < size,
        y < size,
        c < 4,
    ensures
        ({
            let k = (4 * (y * size + x) + c) as int;
            &&& k % 4 == c as int
            &&& (k / 4) % (size as int) == x as int
            &&& (k / 4) / (size as int) == y as int
            &&& k < size * size * 4
        }),
{
    let p = y * size + x;
    let k = 4 * p + c;
    lemma_fundamental_div_mod_converse(k as int, 4, p as int, c as int);
    lemma_fundamental_div_mod_converse(p as int, size as int, y as int, x as int);
    assert(y * size + x < size * size) by (nonlinear_arith)
        requires
            x < size,
            y < size,
    ;
}

/// Appends one opaque grey pixel.
fn push_grey(data: &mut Vec<u8>, val: u8)
    ensures
        final(data)@ == old(data)@ + seq![val, val, val, 255u8],
{
    data.push(val);
    data.push(val);
    data.push(val);
    data.push(255u8);
    assert(final(data)@ =~= old(data)@ + seq![val, val, val, 255u8]);
}

/// Facts that carry one more pixel into a row-major image built so far.
proof fn lemma_next_pixel(
    old_data: Seq<u8>,
    data: Seq<u8>,
    size: nat,
    x: nat,
    y: nat,
    val: u8,
    shade: spec_fn(nat, nat) -> u8,
)
    requires
        x < size,
        y < size,
        old_data.len() == 4 * (y * size + x),
        forall|k: int| 0 <= k < old_data.len() ==> old_data[k] == #[trigger] grey_image(size, shade)[k],
        data == old_data + seq![val, val, val, 255u8],
        val == shade(x, y),
    ensures
        data.len() == 4 * (y * size + x + 1),
        forall|k: int| 0 <= k < data.len() ==> data[k] == #[trigger] grey_image(size, shade)[k],
{
    let base = 4 * (y * size + x);
    assert forall|k: int| 0 <= k < data.len() implies data[k] == #[trigger] grey_image(size, shade)[k] by {
        if k >= base {
            lemma_pixel_slot(size, x, y, (k - base) as nat);
        }
    }
}

/// Texture of grid lines, `line_width` pixels wide, every `size / 8` pixels.
pub fn generate_grid_texture(size: u32, line_width: u32) -> (data: Vec<u8>)
    requires
        size >= 8,
        size * size * 4 <= usize::MAX,
    ensures
        data@ == grey_image(size as nat, |x: nat, y: nat| grid_shade(size as nat, line_width as nat, x, y)),
{
    let ghost shade = |x: nat, y: nat| grid_shade(size as nat, line_width as nat, x, y);
    let mut data: Vec<u8> = Vec::new();
    let cell = size / 8;
    let mut y: u32 = 0;
    while y < size
        invariant
            y <= size,
            cell == size / 8,
            size >= 8,
            size * size * 4 <= usize::MAX,
            shade == (|x: nat, y: nat| grid_shade(size as nat, line_width as nat, x, y)),
            data@.len() == 4 * (y * size),
            forall|k: int| 0 <= k < data@.len() ==> data@[k] == #[trigger] grey_image(size as nat, shade)[k],
        decreases size - y,
    {
        let mut x: u32 = 0;
        while x < size
            invariant
                x <= size,
                y < size,
                cell == size / 8,
                size >= 8,
                shade == (|x: nat, y: nat| grid_shade(size as nat, line_width as nat, x, y)),
                data@.len() == 4 * (y * size + x),
                forall|k: int| 0 <= k < data@.len() ==> data@[k] == #[trigger] grey_image(size as nat, shade)[k],
            decreases size - x,
        {
            let on_grid = x % cell < line_width || y % cell < line_width;
            let val: u8 = if on_grid {
                255
            } else {
                180
            };
            let ghost old_data = data@;
            assert(val == shade(x as nat, y as nat));
            push_grey(&mut data, val);
            proof {
                lemma_next_pixel(old_data, data@, size as nat, x as nat, y as nat, val, shade);
            }
            x = x + 1;
        }
        assert(4 * (y * size + size) == 4 * ((y + 1) * size)) by (nonlinear_arith);
        y = y + 1;
    }
    assert(data@ =~= grey_image(size as nat, shade));
    data
}

/// Top byte of a hash.
fn top_byte(hash: u32) -> (v: u32)
    ensures
        v == hash / 16777216,
        v < 256,
{
    let v = (hash >> 24u32) & 0xFFu32;
    assert(v == hash / 16777216 && v < 256) by (bit_vector)
        requires
            v == (hash >> 24u32) & 0xFFu32,
    ;
    v
}

/// Texture of grey noise from a hash of each pixel position and `seed`.
pub fn generate_noise_texture(size: u32, seed: u32) -> (data: Vec<u8>)
    requires
        size * size * 4 <= usize::MAX,
    ensures
        data@ == grey_image(size as nat, |x: nat, y: nat| noise_shade(x as u32, y as u32, seed)),
{
    let ghost shade = |x: nat, y: nat| noise_shade(x as u32, y as u32, seed);
    let mut data: Vec<u8> = Vec::new();
    let mut y: u32 = 0;
    while y < size
        invariant
            y <= size,
            size * size * 4 <= usize::MAX,
            shade == (|x: nat, y: nat| noise_shade(x as u32, y as u32, seed)),
            data@.len() == 4 * (y * size),
            forall|k: int| 0 <= k < data@.len() ==> data@[k] == #[trigger] grey_image(size as nat, shade)[k],
        decreases size - y,
    {
        let mut x: u32 = 0;
        while x < size
            invariant
                x <= size,
                y < size,
                shade == (|x: nat, y: nat| noise_shade(x as u32, y as u32, seed)),
                data@.len() == 4 * (y * size + x),
                forall|k: int| 0 <= k < data@.len() ==> data@[k] == #[trigger] grey_image(size as nat, shade)[k],
            decreases size - x,
        {
            let hash = (x.wrapping_mul(374761393u32) ^ y.wrapping_mul(668265263u32) ^ seed.wrapping_mul(
                1013904223u32,
            )).wrapping_mul(1664525u32);
            let v = top_byte(hash);
            let val: u8 = if v >= 128 {
                (128 + (v - 128) / 2) as u8
            } else {
                (128 - (128 - v) / 2) as u8
            };
            let ghost old_data = data@;
            assert(val == shade(x as nat, y as nat));
            push_grey(&mut data, val);
            proof {
                lemma_next_pixel(old_data, data@, size as nat, x as nat, y as nat, val, shade);
            }
            x = x + 1;
        }
        assert(4 * (y * size + size) == 4 * ((y + 1) * size)) by (nonlinear_arith);
        y = y + 1;
    }
    assert(data@ =~= grey_image(size as nat, shade));
    data
}

/// Checkerboard texture of `tile_size`-pixel squares.
pub fn generate_checker_texture(size: u32, tile_size: u32) -> (data: Vec<u8>)
    requires
        tile_size > 0,
        size * size * 4 <= usize::MAX,
    ensures
        data@ == grey_image(size as nat, |x: nat, y: nat| checker_shade(tile_size as nat, x, y)),
{
    let ghost shade = |x: nat, y: nat| checker_shade(tile_size as nat, x, y);
    let mut data: Vec<u8> = Vec::new();
    let mut y: u32 = 0;
    while y < size
        invariant
            y <= size,
            tile_size > 0,
            size * size * 4 <= usize::MAX,
            shade == (|x: nat, y: nat| checker_shade(tile_size as nat, x, y)),
            data@.len() == 4 * (y * size),
            forall|k: int| 0 <= k < data@.len() ==> data@[k] == #[trigger] grey_image(size as nat, shade)[k],
        decreases size - y,
    {
        let mut x: u32 = 0;
        while x < size
            invariant
                x <= size,
                y < size,
                tile_size > 0,
                shade == (|x: nat, y: nat| checker_shade(tile_size as nat, x, y)),
                data@.len() == 4 * (y * size + x),
                forall|k: int| 0 <= k < data@.len() ==> data@[k] == #[trigger] grey_image(size as nat, shade)[k],
            decreases size - x,
        {
            let checker = ((x / tile_size) as u64 + (y / tile_size) as u64) % 2 == 0;
            let val: u8 = if checker {
                220
            } else {
                160
            };
            let ghost old_data = data@;
            assert(val == shade(x as nat, y as nat));
            push_grey(&mut data, val);
            proof {
                lemma_next_pixel(old_data, data@, size as nat, x as nat, y as nat, val, shade);
            }
            x = x + 1;
        }
        assert(4 * (y * size + size) == 4 * ((y + 1) * size)) by (nonlinear_arith);
        y = y + 1;
    }
    assert(data@ =~= grey_image(size as nat, shade));
    data
}

} // verus!
