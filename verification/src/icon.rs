//! The store listing's pictures: a key's mark centred on a field of its
//! background colour, blended over it so the mark's soft edge fades into
//! the field rather than into transparency.
use vstd::prelude::*;

verus! {

/// One channel of `p` at opacity `a` over `b`.
pub open spec fn blend(p: u8, a: u8, b: u8) -> int {
    (p * a + b * (255 - a)) / 255
}

/// Where the mark starts, along a side `side` long.
pub open spec fn offset(side: int, mark: int) -> int {
    (side - mark) / 2
}

/// Channel `c` of the field's pixel at column `x`, row `y`: inside the
/// centred square the mark's pixel over the background, opaque; outside it
/// the background, opaque.
pub open spec fn field_byte(
    raster: Seq<u8>,
    back: [u8; 3],
    width: int,
    height: int,
    mark: int,
    x: int,
    y: int,
    c: int,
) -> int {
    let ox = offset(width, mark);
    let oy = offset(height, mark);
    let inside = x >= ox && y >= oy && x - ox < mark && y - oy < mark;
    if c == 3 {
        255
    } else if inside {
        let i = ((y - oy) * mark + (x - ox)) * 4;
        blend(raster[i + c], raster[i + 3], back[c])
    } else {
        back[c] as int
    }
}

/// Byte `k` of the field, row by row, four to a pixel.
pub open spec fn field_at(raster: Seq<u8>, back: [u8; 3], width: int, height: int, mark: int, k: int) -> int {
    field_byte(raster, back, width, height, mark, (k / 4) % width, (k / 4) / width, k % 4)
}

proof fn lemma_blend_bound(p: u8, a: u8, b: u8)
    ensures
        p * a <= 65025,
        b * (255 - a) <= 65025,
        p * a + b * (255 - a) <= 65025,
{
    assert(p * a <= 255 * a) by (nonlinear_arith)
        requires
            p <= 255,
            a >= 0,
    ;
    assert(b * (255 - a) <= 255 * (255 - a)) by (nonlinear_arith)
        requires
            b <= 255,
            a <= 255,
    ;
}

proof fn lemma_in_square(dy: int, dx: int, mark: int)
    requires
        0 <= dy < mark,
        0 <= dx < mark,
    ensures
        (dy * mark + dx) * 4 + 4 <= mark * mark * 4,
{
    assert(dy * mark + dx + 1 <= mark * mark) by (nonlinear_arith)
        requires
            0 <= dy < mark,
            0 <= dx < mark,
    ;
}

fn blend_u8(p: u8, a: u8, b: u8) -> (r: u8)
    ensures
        r == blend(p, a, b),
{
    proof {
        lemma_blend_bound(p, a, b);
    }
    let sum: u32 = p as u32 * a as u32 + b as u32 * (255 - a as u32);
    (sum / 255) as u8
}

/// A `width`×`height` field of `back` with the `mark`-pixel square
/// `raster` (RGBA, row by row) in the middle; RGBA, row by row.
pub fn mark_on_field(raster: &[u8], back: [u8; 3], width: usize, height: usize, mark: usize) -> (out: Vec<u8>)
    requires
        mark <= width,
        mark <= height,
        raster@.len() >= mark * mark * 4,
        width * height * 4 <= usize::MAX,
    ensures
        out@.len() == width * height * 4,
        forall|k: int|
            0 <= k < out@.len() ==> #[trigger] out@[k] as int == field_at(
                raster@,
                back,
                width as int,
                height as int,
                mark as int,
                k,
            ),
{
    let n: usize = width * height;
    let ox: usize = (width - mark) / 2;
    let oy: usize = (height - mark) / 2;
    let mut out: Vec<u8> = Vec::new();
    let mut p: usize = 0;
    assert(mark * mark * 4 <= raster.len());
    while p < n
        invariant
            n == width * height,
            n * 4 <= usize::MAX,
            p <= n,
            ox == offset(width as int, mark as int),
            oy == offset(height as int, mark as int),
            raster@.len() >= mark * mark * 4,
            mark * mark * 4 <= usize::MAX,
            out@.len() == p * 4,
            forall|k: int|
                0 <= k < out@.len() ==> #[trigger] out@[k] as int == field_at(
                    raster@,
                    back,
                    width as int,
                    height as int,
                    mark as int,
                    k,
                ),
        decreases n - p,
    {
        let x: usize = p % width;
        let y: usize = p / width;
        let inside = x >= ox && y >= oy && x - ox < mark && y - oy < mark;
        let px: [u8; 4] = if inside {
            proof {
                lemma_in_square((y - oy) as int, (x - ox) as int, mark as int);
            }
            let i: usize = ((y - oy) * mark + (x - ox)) * 4;
            let a = raster[i + 3];
            [
                blend_u8(raster[i], a, back[0]),
                blend_u8(raster[i + 1], a, back[1]),
                blend_u8(raster[i + 2], a, back[2]),
                255,
            ]
        } else {
            [back[0], back[1], back[2], 255]
        };
        let ghost before = out@;
        out.push(px[0]);
        out.push(px[1]);
        out.push(px[2]);
        out.push(px[3]);
        proof {
            assert forall|k: int| 0 <= k < out@.len() implies #[trigger] out@[k] as int == field_at(
                raster@,
                back,
                width as int,
                height as int,
                mark as int,
                k,
            ) by {
                if k < p * 4 {
                    assert(out@[k] == before[k]);
                } else {
                    let c = k - p * 4;
                    assert(k / 4 == p && k % 4 == c) by {
                        vstd::arithmetic::div_mod::lemma_fundamental_div_mod_converse(k, 4, p as int, c);
                    }
                }
            }
        }
        p = p + 1;
    }
    out
}

} // verus!
