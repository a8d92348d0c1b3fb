use vstd::prelude::*;

verus! {

/// The RGBA8 pixels of a PNG file, rows from top to bottom, and its `(width, height)`; `None`
/// when the bytes do not decode as a PNG.
pub uninterp spec fn png_rgba8(bytes: Seq<u8>) -> Option<(Seq<u8>, (u32, u32))>;

/// Calls `image::load` with the PNG format on `bytes`, then `to_rgba8`, `dimensions` and
/// `into_raw`: the decoded image as RGBA8 bytes and its `(width, height)`, or `None` when
/// decoding fails. The png decoder refuses a zero width or height, and the RGBA buffer
/// that `to_rgba8` allocates holds exactly four bytes per pixel.
#[verifier::external_body]
fn decode_png_rgba8(bytes: &Vec<u8>) -> (r: Option<(Vec<u8>, (u32, u32))>)
    ensures
        r is Some <==> png_rgba8(bytes@) is Some,
        r matches Some(p) ==> png_rgba8(bytes@) == Some((p.0@, p.1)),
        r matches Some(p) ==> p.1.0 > 0 && p.1.1 > 0 && p.0@.len() == 4 * p.1.0 * p.1.1,
{
    match image::load(std::io::Cursor::new(bytes.as_slice()), image::ImageFormat::Png) {
        Ok(decoded) => {
            let rgba = decoded.to_rgba8();
            let dims = rgba.dimensions();
            Some((rgba.into_raw(), dims))
        },
        Err(_) => None,
    }
}

/// `pixels` cut into rows of `width` RGBA pixels (`4 * width` bytes, the last row possibly
/// shorter), with the rows in reverse order: the layout a texture wants, bottom row first.
pub open spec fn rows_reversed(pixels: Seq<u8>, width: nat) -> Seq<u8>
    decreases pixels.len(),
{
    let row = 4 * width;
    if row == 0 || pixels.len() <= row {
        pixels
    } else {
        rows_reversed(pixels.skip(row as int), width) + pixels.take(row as int)
    }
}

/// Byte `b` of row `k` of `pixels`, cut into rows of `width` RGBA pixels.
pub open spec fn row_byte(pixels: Seq<u8>, width: nat, k: int, b: int) -> u8 {
    pixels[4 * width * k + b]
}

/// For an image of `height` whole rows, reversing the rows keeps its length and puts row
/// `height - 1 - k` of the input, byte for byte, at row `k` of the output.
pub proof fn lemma_rows_reversed_rows(pixels: Seq<u8>, width: nat, height: nat)
    requires
        width > 0,
        pixels.len() == 4 * width * height,
    ensures
        rows_reversed(pixels, width).len() == pixels.len(),
        forall|k: int, b: int|
            0 <= k < height && 0 <= b < 4 * width ==> #[trigger] row_byte(
                rows_reversed(pixels, width),
                width,
                k,
                b,
            ) == row_byte(pixels, width, height - 1 - k, b),
    decreases height,
{
    let row: int = 4 * width as int;
    let h: int = height as int;
    if h <= 1 {
        assert(pixels.len() <= row) by (nonlinear_arith)
            requires
                pixels.len() == row * h,
                h <= 1,
                row > 0,
        ;
        assert forall|k: int, b: int| 0 <= k < height && 0 <= b < 4 * width implies #[trigger] row_byte(
            rows_reversed(pixels, width),
            width,
            k,
            b,
        ) == row_byte(pixels, width, height - 1 - k, b) by {
            assert(k == 0 && h - 1 - k == 0);
        }
    } else {
        assert(pixels.len() > row) by (nonlinear_arith)
            requires
                pixels.len() == row * h,
                h >= 2,
                row > 0,
        ;
        let tail = pixels.skip(row);
        let hm1: nat = (height - 1) as nat;
        assert(tail.len() == 4 * width * hm1) by (nonlinear_arith)
            requires
                pixels.len() == row * h,
                row == 4 * width,
                h == height,
                hm1 == h - 1,
                tail.len() == pixels.len() - row,
        ;
        lemma_rows_reversed_rows(tail, width, hm1);
        let rest = rows_reversed(tail, width);
        assert(rows_reversed(pixels, width) == rest + pixels.take(row));
        assert forall|k: int, b: int| 0 <= k < height && 0 <= b < 4 * width implies #[trigger] row_byte(
            rows_reversed(pixels, width),
            width,
            k,
            b,
        ) == row_byte(pixels, width, height - 1 - k, b) by {
            if k < h - 1 {
                assert(row * k + b < row * (h - 1) && row * (h - 2 - k) + b + row == row * (h - 1
                    - k) + b && 0 <= row * (h - 2 - k) && row * (h - 2 - k) + b < row * (h - 1)
                    && row * (h - 1 - k) + b < row * h) by (nonlinear_arith)
                    requires
                        0 <= k < h - 1,
                        0 <= b < row,
                        row > 0,
                ;
                assert(rest.len() == row * (h - 1)) by (nonlinear_arith)
                    requires
                        rest.len() == tail.len(),
                        tail.len() == 4 * width * hm1,
                        row == 4 * width,
                        hm1 == h - 1,
                ;
                let idx = row * k + b;
                assert(rows_reversed(pixels, width)[idx] == rest[idx]);
                assert(row_byte(rest, width, k, b) == row_byte(tail, width, hm1 - 1 - k, b));
                assert(pixels.len() == row * h);
                assert(tail[row * (h - 2 - k) + b] == pixels[row * (h - 1 - k) + b]);
            } else {
                assert(k == h - 1);
                assert(row * k == row * (h - 1));
                assert(rest.len() == row * (h - 1)) by (nonlinear_arith)
                    requires
                        rest.len() == tail.len(),
                        tail.len() == 4 * width * hm1,
                        row == 4 * width,
                        hm1 == h - 1,
                ;
                assert(row * (h - 1 - k) == 0) by (nonlinear_arith)
                    requires
                        k == h - 1,
                ;
                let idx = row * k + b;
                assert(rows_reversed(pixels, width)[idx] == pixels.take(row)[b]);
            }
        }
    }
}

/// The texture layer made from a PNG file: its pixels with the rows reversed, and its
/// `(width, height)`.
pub open spec fn terrain_layer(png: Seq<u8>) -> (Seq<u8>, (u32, u32)) {
    let (pixels, dims) = png_rgba8(png).unwrap();
    (rows_reversed(pixels, dims.0 as nat), dims)
}

/// Appends `pixels[from..to]` to `out`.
fn append_range(out: &mut Vec<u8>, pixels: &Vec<u8>, from: usize, to: usize)
    requires
        from <= to <= pixels.len(),
    ensures
        final(out)@ == old(out)@ + pixels@.subrange(from as int, to as int),
{
    let mut k: usize = from;
    while k < to
        invariant
            from <= k <= to <= pixels.len(),
            out@ == old(out)@ + pixels@.subrange(from as int, k as int),
        decreases to - k,
    {
        out.push(pixels[k]);
        k += 1;
        assert(out@ =~= old(out)@ + pixels@.subrange(from as int, k as int));
    }
}

/// The rows of `pixels`, `width` RGBA pixels each, in reverse order.
pub fn reverse_rows(pixels: &Vec<u8>, width: u32) -> (r: Vec<u8>)
    requires
        width > 0,
        4 * width <= usize::MAX,
    ensures
        r@ == rows_reversed(pixels@, width as nat),
{
    let row: usize = 4 * (width as usize);
    let len = pixels.len();
    let ghost p = pixels@;
    let mut out: Vec<u8> = Vec::new();
    if len == 0 {
        assert(out@ =~= p);
        return out;
    }
    proof {
        vstd::arithmetic::div_mod::lemma_fundamental_div_mod((len - 1) as int, row as int);
        vstd::arithmetic::div_mod::lemma_mod_pos_bound((len - 1) as int, row as int);
    }
    let mut start: usize = row * ((len - 1) / row);
    let ghost mut j: int = (len as int - 1) / (row as int);
    append_range(&mut out, pixels, start, len);
    assert(p.skip(start as int) =~= p.subrange(start as int, len as int));
    assert(out@ == rows_reversed(p.skip(start as int), width as nat));
    while start > 0
        invariant
            row == 4 * width,
            row > 0,
            len == p.len(),
            p == pixels@,
            start < len,
            start == row * j,
            out@ == rows_reversed(p.skip(start as int), width as nat),
        decreases start,
    {
        assert(start >= row && row * (j - 1) == start - row) by (nonlinear_arith)
            requires
                start == row * j,
                start > 0,
                row > 0,
        ;
        let prev = start - row;
        let ghost tail = p.skip(prev as int);
        assert(tail.skip(row as int) =~= p.skip(start as int));
        assert(tail.take(row as int) =~= p.subrange(prev as int, start as int));
        append_range(&mut out, pixels, prev, start);
        start = prev;
        proof {
            j = j - 1;
        }
    }
    assert(p.skip(0) =~= p);
    out
}

/// The terrain texture layers, Stone, Brick and Dirt in that order, from the bytes of the
/// stone, bricks and dirt PNG files; `None` when one of them does not decode.
pub fn terrain_layers(stone: &Vec<u8>, bricks: &Vec<u8>, dirt: &Vec<u8>) -> (r: Option<
    Vec<(Vec<u8>, (u32, u32))>,
>)
    ensures
        r is Some <==> (png_rgba8(stone@) is Some && png_rgba8(bricks@) is Some && png_rgba8(
            dirt@,
        ) is Some),
        r matches Some(l) ==> {
            &&& l@.len() == 3
            &&& (l@[0].0@, l@[0].1) == terrain_layer(stone@)
            &&& (l@[1].0@, l@[1].1) == terrain_layer(bricks@)
            &&& (l@[2].0@, l@[2].1) == terrain_layer(dirt@)
        },
{
    let mut layers: Vec<(Vec<u8>, (u32, u32))> = Vec::new();
    let stone_layer = match layer_from_png(stone) {
        Some(layer) => layer,
        None => return None,
    };
    let bricks_layer = match layer_from_png(bricks) {
        Some(layer) => layer,
        None => return None,
    };
    let dirt_layer = match layer_from_png(dirt) {
        Some(layer) => layer,
        None => return None,
    };
    layers.push(stone_layer);
    layers.push(bricks_layer);
    layers.push(dirt_layer);
    Some(layers)
}

/// The texture layer made from the bytes of one PNG file, or `None` when they do not decode:
/// row `k` of the layer is row `height - 1 - k` of the decoded image.
pub fn layer_from_png(png: &Vec<u8>) -> (r: Option<(Vec<u8>, (u32, u32))>)
    ensures
        r is Some <==> png_rgba8(png@) is Some,
        r matches Some(l) ==> (l.0@, l.1) == terrain_layer(png@),
        r matches Some(l) ==> l.0@.len() == 4 * l.1.0 * l.1.1,
        r matches Some(l) ==> forall|k: int, b: int|
            0 <= k < l.1.1 && 0 <= b < 4 * l.1.0 ==> #[trigger] row_byte(l.0@, l.1.0 as nat, k, b)
                == row_byte(png_rgba8(png@).unwrap().0, l.1.0 as nat, l.1.1 - 1 - k, b),
{
    match decode_png_rgba8(png) {
        Some((pixels, dims)) => {
            assert(4 * dims.0 <= pixels@.len()) by (nonlinear_arith)
                requires
                    dims.1 > 0,
                    pixels@.len() == 4 * dims.0 * dims.1,
            ;
            let n = pixels.len();
            assert(4 * dims.0 <= n);
            let reversed = reverse_rows(&pixels, dims.0);
            proof {
                lemma_rows_reversed_rows(pixels@, dims.0 as nat, dims.1 as nat);
            }
            Some((reversed, dims))
        },
        None => None,
    }
}

} // verus!
