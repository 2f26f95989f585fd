//! The tiled ("block-linear") pixel-layout transform.
//!
//! A GOB (group of bytes) is a 64-byte-wide, 8-row tile whose interior uses a
//! fixed bit-interleaved mapping from local coordinates to a byte offset.
//! GOBs stack vertically into blocks of `2^block_height_log2` GOBs (clamped to
//! the rows the surface actually has); blocks tile the surface left-to-right,
//! then top-to-bottom.  `swizzle` scatters a row-major surface into that
//! layout, `deswizzle` gathers it back; both work at byte granularity, so a
//! pixel of `bytes_per_element` bytes only scales the row width in bytes.
use vstd::prelude::*;
use vstd::arithmetic::div_mod::{
    lemma_fundamental_div_mod, lemma_fundamental_div_mod_converse,
    lemma_mod_division_less_than_divisor, lemma_mod_mod,
};

verus! {

/// Why a layout transform was refused.
#[derive(Clone, Copy, Debug, PartialEq, Eq, Structural)]
pub enum SwizzleError {
    /// A width, height, depth, level count or element size of zero.
    ZeroSize,
    /// A block height parameter above the largest block the layout defines.
    BlockHeightOutOfRange,
    /// The surface sizes do not fit in this machine's address space.
    TooLarge,
    /// The source buffer does not hold the bytes the dimensions call for.
    SourceSizeMismatch,
}

/// A block is 1 to 32 GOBs tall, always a power of two.
pub open spec fn valid_bh(bh: int) -> bool {
    bh == 1 || bh == 2 || bh == 4 || bh == 8 || bh == 16 || bh == 32
}

/// Width of a surface in GOBs, given its width in bytes.
pub open spec fn wgobs(wb: int) -> int {
    (wb + 63) / 64
}

/// Height of a surface in block rows: GOB rows grouped `bh` at a time.
pub open spec fn blk_rows(h: int, bh: int) -> int {
    (h + 8 * bh - 1) / (8 * bh)
}

/// Total byte size of the tiled surface: whole blocks in both directions.
pub open spec fn surf_size(wb: int, h: int, bh: int) -> int {
    blk_rows(h, bh) * (512 * bh * wgobs(wb))
}

/// Byte offset inside one GOB for local byte column `xg` and row `yg`.
pub open spec fn gob_off(xg: int, yg: int) -> int {
    (xg / 32) * 256 + (yg / 2) * 64 + ((xg % 32) / 16) * 32 + (yg % 2) * 16 + xg % 16
}

/// Tiled byte offset of the element byte at column `xb` (bytes) and row `y`
/// of a surface `wb` bytes wide with block height `bh`.
pub open spec fn baddr(wb: int, bh: int, xb: int, y: int) -> int {
    (y / (8 * bh)) * (512 * bh * wgobs(wb)) + (xb / 64) * (512 * bh) + ((y % (8 * bh)) / 8) * 512
        + gob_off(xb % 64, y % 8)
}

/// The byte column that tiled offset `a` came from: `baddr`'s inverse, first
/// coordinate.
pub open spec fn rec_xb(wb: int, bh: int, a: int) -> int {
    let r1 = a % (512 * bh * wgobs(wb));
    let qx = r1 / (512 * bh);
    let r3 = (r1 % (512 * bh)) % 512;
    let g5 = r3 / 256;
    let r5 = (r3 % 256) % 64;
    let g3 = r5 / 32;
    let g1 = (r5 % 32) % 16;
    qx * 64 + g5 * 32 + g3 * 16 + g1
}

/// The row that tiled offset `a` came from: `baddr`'s inverse, second
/// coordinate.
pub open spec fn rec_y(wb: int, bh: int, a: int) -> int {
    let qy = a / (512 * bh * wgobs(wb));
    let r2 = (a % (512 * bh * wgobs(wb))) % (512 * bh);
    let ry = r2 / 512;
    let r4 = (r2 % 512) % 256;
    let g4 = r4 / 64;
    let g2 = ((r4 % 64) % 32) / 16;
    qy * (8 * bh) + ry * 8 + g4 * 2 + g2
}

/// A surface one byte wide and one row tall already needs one whole block.
pub proof fn lemma_surf_pos(wb: int, h: int, bh: int)
    requires
        wb >= 1,
        h >= 1,
        valid_bh(bh),
    ensures
        wgobs(wb) >= 1,
        blk_rows(h, bh) >= 1,
        wb <= wgobs(wb) * 64,
        h <= blk_rows(h, bh) * (8 * bh),
        surf_size(wb, h, bh) >= 512 * bh * wgobs(wb),
{
    lemma_fundamental_div_mod(wb + 63, 64);
    lemma_mod_division_less_than_divisor(wb + 63, 64);
    lemma_fundamental_div_mod(h + 8 * bh - 1, 8 * bh);
    lemma_mod_division_less_than_divisor(h + 8 * bh - 1, 8 * bh);
    assert(wgobs(wb) >= 1 && wb <= wgobs(wb) * 64) by (nonlinear_arith)
        requires
            wb >= 1,
            wb + 63 == 64 * ((wb + 63) / 64) + (wb + 63) % 64,
            0 <= (wb + 63) % 64 < 64,
            wgobs(wb) == (wb + 63) / 64,
    ;
    assert(blk_rows(h, bh) >= 1 && h <= blk_rows(h, bh) * (8 * bh)) by (nonlinear_arith)
        requires
            h >= 1,
            bh >= 1,
            h + 8 * bh - 1 == (8 * bh) * ((h + 8 * bh - 1) / (8 * bh)) + (h + 8 * bh - 1) % (8
                * bh),
            0 <= (h + 8 * bh - 1) % (8 * bh) < 8 * bh,
            blk_rows(h, bh) == (h + 8 * bh - 1) / (8 * bh),
    ;
    assert(surf_size(wb, h, bh) >= 512 * bh * wgobs(wb)) by (nonlinear_arith)
        requires
            blk_rows(h, bh) >= 1,
            bh >= 1,
            wgobs(wb) >= 1,
            surf_size(wb, h, bh) == blk_rows(h, bh) * (512 * bh * wgobs(wb)),
    ;
}

/// Recovering the coordinates inverts the tiled address function: `baddr` is
/// injective on the surface, and lands inside the tiled extent.
pub proof fn lemma_baddr_inverts(wb: int, h: int, bh: int, xb: int, y: int)
    requires
        wb >= 1,
        h >= 1,
        valid_bh(bh),
        0 <= xb < wgobs(wb) * 64,
        0 <= y < blk_rows(h, bh) * (8 * bh),
    ensures
        0 <= baddr(wb, bh, xb, y) < surf_size(wb, h, bh),
        rec_xb(wb, bh, baddr(wb, bh, xb, y)) == xb,
        rec_y(wb, bh, baddr(wb, bh, xb, y)) == y,
{
    lemma_surf_pos(wb, h, bh);
    let g = 8 * bh;
    let s = 512 * bh;
    let dd = 512 * bh * wgobs(wb);
    let nb = blk_rows(h, bh);
    let wg = wgobs(wb);

    // Decompose the row index.
    lemma_fundamental_div_mod(y, g);
    lemma_mod_division_less_than_divisor(y, g);
    let qy = y / g;
    let mg = y % g;
    lemma_fundamental_div_mod(mg, 8);
    lemma_mod_division_less_than_divisor(mg, 8);
    let ry = mg / 8;
    lemma_mod_mod(y, 8, bh);
    assert(mg % 8 == y % 8);
    lemma_fundamental_div_mod(y % 8, 2);
    lemma_mod_division_less_than_divisor(y % 8, 2);
    let g4 = (y % 8) / 2;
    lemma_mod_mod(y, 2, 4);
    let g2 = y % 2;
    assert((y % 8) % 2 == g2);
    assert(0 <= g2 < 2 && 0 <= g4 < 4);
    assert(ry < bh) by (nonlinear_arith)
        requires
            mg == 8 * ry + mg % 8,
            0 <= mg % 8 < 8,
            mg < 8 * bh,
            bh >= 1,
    ;
    assert(qy >= 0 && qy < nb) by (nonlinear_arith)
        requires
            y == g * qy + mg,
            0 <= mg < g,
            0 <= y < nb * g,
            g >= 8,
    ;

    // Decompose the byte column.
    lemma_fundamental_div_mod(xb, 64);
    lemma_mod_division_less_than_divisor(xb, 64);
    let qx = xb / 64;
    let m64 = xb % 64;
    lemma_fundamental_div_mod(m64, 32);
    lemma_mod_mod(xb, 32, 2);
    let g5 = m64 / 32;
    let m32 = xb % 32;
    assert(m64 % 32 == m32);
    lemma_mod_division_less_than_divisor(xb, 32);
    lemma_fundamental_div_mod(m32, 16);
    lemma_mod_mod(xb, 16, 2);
    let g3 = m32 / 16;
    let g1 = xb % 16;
    assert(m32 % 16 == g1);
    lemma_mod_division_less_than_divisor(xb, 16);
    lemma_mod_mod(xb, 16, 4);
    assert(m64 % 16 == g1);
    assert(0 <= g5 < 2 && 0 <= g3 < 2 && 0 <= g1 < 16);
    assert(qx >= 0 && qx < wg) by (nonlinear_arith)
        requires
            xb == 64 * qx + m64,
            0 <= m64 < 64,
            0 <= xb < wg * 64,
    ;

    // The address is the mixed-radix number built from those digits.
    let i3 = g5 * 256 + g4 * 64 + g3 * 32 + g2 * 16 + g1;
    assert(gob_off(xb % 64, y % 8) == i3);
    let r2 = ry * 512 + i3;
    let r1 = qx * s + r2;
    let a = baddr(wb, bh, xb, y);
    assert(a == qy * dd + r1);
    assert(0 <= i3 < 512);
    assert(0 <= r2 < s) by (nonlinear_arith)
        requires
            r2 == ry * 512 + i3,
            0 <= i3 < 512,
            0 <= ry < bh,
            s == 512 * bh,
    ;
    assert(0 <= r1 < dd) by (nonlinear_arith)
        requires
            r1 == qx * s + r2,
            0 <= r2 < s,
            0 <= qx < wg,
            dd == 512 * bh * wgobs(wb),
            s == 512 * bh,
            wg == wgobs(wb),
    ;
    assert(0 <= a < nb * dd) by (nonlinear_arith)
        requires
            a == qy * dd + r1,
            0 <= r1 < dd,
            0 <= qy < nb,
    ;
    assert(surf_size(wb, h, bh) == nb * dd);

    // Peel the digits back off, outermost first.
    lemma_fundamental_div_mod_converse(a, dd, qy, r1);
    lemma_fundamental_div_mod_converse(r1, s, qx, r2);
    lemma_fundamental_div_mod_converse(r2, 512, ry, i3);
    lemma_fundamental_div_mod_converse(i3, 256, g5, g4 * 64 + g3 * 32 + g2 * 16 + g1);
    lemma_fundamental_div_mod_converse(g4 * 64 + g3 * 32 + g2 * 16 + g1, 64, g4, g3 * 32 + g2 * 16
        + g1);
    lemma_fundamental_div_mod_converse(g3 * 32 + g2 * 16 + g1, 32, g3, g2 * 16 + g1);
    lemma_fundamental_div_mod_converse(g2 * 16 + g1, 16, g2, g1);
    assert(rec_xb(wb, bh, a) == qx * 64 + g5 * 32 + g3 * 16 + g1);
    assert(rec_y(wb, bh, a) == qy * g + ry * 8 + g4 * 2 + g2);
    assert(xb == qx * 64 + g5 * 32 + g3 * 16 + g1);
    assert(y == qy * g + ry * 8 + g4 * 2 + g2);
}

/// Every tiled offset decomposes to coordinates that map back to it: the
/// address function covers the tiled extent exactly once.
pub proof fn lemma_recover_in_range(wb: int, h: int, bh: int, a: int)
    requires
        wb >= 1,
        h >= 1,
        valid_bh(bh),
        0 <= a < surf_size(wb, h, bh),
    ensures
        0 <= rec_xb(wb, bh, a) < wgobs(wb) * 64,
        0 <= rec_y(wb, bh, a) < blk_rows(h, bh) * (8 * bh),
        baddr(wb, bh, rec_xb(wb, bh, a), rec_y(wb, bh, a)) == a,
{
    lemma_surf_pos(wb, h, bh);
    let g = 8 * bh;
    let s = 512 * bh;
    let dd = 512 * bh * wgobs(wb);
    let nb = blk_rows(h, bh);
    let wg = wgobs(wb);
    assert(s >= 512 && dd >= 512 && dd == s * wg) by (nonlinear_arith)
        requires
            valid_bh(bh),
            wg >= 1,
            s == 512 * bh,
            dd == 512 * bh * wg,
    ;

    lemma_fundamental_div_mod(a, dd);
    lemma_mod_division_less_than_divisor(a, dd);
    let qy = a / dd;
    let r1 = a % dd;
    lemma_fundamental_div_mod(r1, s);
    lemma_mod_division_less_than_divisor(r1, s);
    let qx = r1 / s;
    let r2 = r1 % s;
    lemma_fundamental_div_mod(r2, 512);
    lemma_mod_division_less_than_divisor(r2, 512);
    let ry = r2 / 512;
    let r3 = r2 % 512;
    lemma_fundamental_div_mod(r3, 256);
    lemma_mod_division_less_than_divisor(r3, 256);
    let g5 = r3 / 256;
    let r4 = r3 % 256;
    lemma_fundamental_div_mod(r4, 64);
    lemma_mod_division_less_than_divisor(r4, 64);
    let g4 = r4 / 64;
    let r5 = r4 % 64;
    lemma_fundamental_div_mod(r5, 32);
    lemma_mod_division_less_than_divisor(r5, 32);
    let g3 = r5 / 32;
    let r6 = r5 % 32;
    lemma_fundamental_div_mod(r6, 16);
    lemma_mod_division_less_than_divisor(r6, 16);
    let g2 = r6 / 16;
    let g1 = r6 % 16;

    assert(qy >= 0 && qy < nb) by (nonlinear_arith)
        requires
            a == dd * qy + r1,
            0 <= r1 < dd,
            0 <= a < nb * dd,
            dd >= 512,
    ;
    assert(qx >= 0 && qx < wg) by (nonlinear_arith)
        requires
            r1 == s * qx + r2,
            0 <= r2 < s,
            0 <= r1 < dd,
            dd == 512 * bh * wg,
            s == 512 * bh,
            s >= 512,
    ;
    assert(ry >= 0 && ry < bh) by (nonlinear_arith)
        requires
            r2 == 512 * ry + r3,
            0 <= r3 < 512,
            0 <= r2 < s,
            s == 512 * bh,
    ;

    let xb = qx * 64 + g5 * 32 + g3 * 16 + g1;
    let y = qy * g + ry * 8 + g4 * 2 + g2;
    assert(rec_xb(wb, bh, a) == xb);
    assert(rec_y(wb, bh, a) == y);
    assert(0 <= g5 < 2 && 0 <= g4 < 4 && 0 <= g3 < 2 && 0 <= g2 < 2 && 0 <= g1 < 16);

    assert(0 <= xb < wg * 64) by (nonlinear_arith)
        requires
            xb == qx * 64 + g5 * 32 + g3 * 16 + g1,
            0 <= qx < wg,
            0 <= g5 < 2,
            0 <= g3 < 2,
            0 <= g1 < 16,
    ;
    assert(0 <= y < nb * g) by (nonlinear_arith)
        requires
            y == qy * g + ry * 8 + g4 * 2 + g2,
            0 <= qy < nb,
            0 <= ry < bh,
            0 <= g4 < 4,
            0 <= g2 < 2,
            g == 8 * bh,
    ;

    // Re-extract each digit from the rebuilt coordinates.
    lemma_fundamental_div_mod_converse(xb, 64, qx, g5 * 32 + g3 * 16 + g1);
    assert(xb % 64 == g5 * 32 + g3 * 16 + g1 && xb / 64 == qx);
    assert(xb == (qx * 2 + g5) * 32 + (g3 * 16 + g1)) by (nonlinear_arith)
        requires
            xb == qx * 64 + g5 * 32 + g3 * 16 + g1,
    ;
    lemma_fundamental_div_mod_converse(xb, 32, qx * 2 + g5, g3 * 16 + g1);
    assert(xb % 32 == g3 * 16 + g1);
    assert(xb == (qx * 4 + g5 * 2 + g3) * 16 + g1) by (nonlinear_arith)
        requires
            xb == qx * 64 + g5 * 32 + g3 * 16 + g1,
    ;
    lemma_fundamental_div_mod_converse(xb, 16, qx * 4 + g5 * 2 + g3, g1);
    assert(xb % 16 == g1);
    lemma_fundamental_div_mod_converse(g5 * 32 + g3 * 16 + g1, 32, g5, g3 * 16 + g1);
    lemma_fundamental_div_mod_converse(g3 * 16 + g1, 16, g3, g1);

    assert(y == g * qy + (ry * 8 + g4 * 2 + g2)) by (nonlinear_arith)
        requires
            y == qy * g + ry * 8 + g4 * 2 + g2,
    ;
    lemma_fundamental_div_mod_converse(y, g, qy, ry * 8 + g4 * 2 + g2);
    assert(y % g == ry * 8 + g4 * 2 + g2 && y / g == qy);
    lemma_fundamental_div_mod_converse(ry * 8 + g4 * 2 + g2, 8, ry, g4 * 2 + g2);
    assert(y == (qy * bh + ry) * 8 + (g4 * 2 + g2)) by (nonlinear_arith)
        requires
            y == qy * g + ry * 8 + g4 * 2 + g2,
            g == 8 * bh,
    ;
    lemma_fundamental_div_mod_converse(y, 8, qy * bh + ry, g4 * 2 + g2);
    assert(y % 8 == g4 * 2 + g2);
    lemma_fundamental_div_mod_converse(g4 * 2 + g2, 2, g4, g2);
    assert(y == ((qy * bh + ry) * 4 + g4) * 2 + g2) by (nonlinear_arith)
        requires
            y == qy * g + ry * 8 + g4 * 2 + g2,
            g == 8 * bh,
    ;
    lemma_fundamental_div_mod_converse(y, 2, (qy * bh + ry) * 4 + g4, g2);
    assert(y % 2 == g2);

    assert(gob_off(xb % 64, y % 8) == g5 * 256 + g4 * 64 + g3 * 32 + g2 * 16 + g1);
    assert(baddr(wb, bh, xb, y) == qy * dd + qx * s + ry * 512 + (g5 * 256 + g4 * 64 + g3 * 32 + g2
        * 16 + g1));
    assert(a == dd * qy + (s * qx + (512 * ry + (256 * g5 + (64 * g4 + (32 * g3 + (16 * g2
        + g1)))))));
    assert(baddr(wb, bh, xb, y) == a) by (nonlinear_arith)
        requires
            baddr(wb, bh, xb, y) == qy * dd + qx * s + ry * 512 + (g5 * 256 + g4 * 64 + g3 * 32 + g2
                * 16 + g1),
            a == dd * qy + (s * qx + (512 * ry + (256 * g5 + (64 * g4 + (32 * g3 + (16 * g2
                + g1)))))),
    ;
}

/// The tiled image of a row-major surface: byte `a` of the result is the
/// linear byte whose coordinates `baddr` maps to `a`, and padding bytes are
/// zero.
pub open spec fn swz_surface(wb: int, h: int, bh: int, lin: Seq<u8>) -> Seq<u8> {
    Seq::new(
        surf_size(wb, h, bh) as nat,
        |a: int|
            {
                let xb = rec_xb(wb, bh, a);
                let y = rec_y(wb, bh, a);
                if 0 <= xb < wb && 0 <= y < h {
                    lin[y * wb + xb]
                } else {
                    0u8
                }
            },
    )
}

/// The row-major image of a tiled surface: linear byte `l` is read from its
/// tiled address.
pub open spec fn dswz_surface(wb: int, h: int, bh: int, tiled: Seq<u8>) -> Seq<u8> {
    Seq::new((h * wb) as nat, |l: int| tiled[baddr(wb, bh, l % wb, l / wb)])
}

/// Deswizzling a swizzled surface gives the surface back, byte for byte.
pub proof fn lemma_surface_round_trip(wb: int, h: int, bh: int, lin: Seq<u8>)
    requires
        wb >= 1,
        h >= 1,
        valid_bh(bh),
        lin.len() == h * wb,
    ensures
        dswz_surface(wb, h, bh, swz_surface(wb, h, bh, lin)) == lin,
{
    lemma_surf_pos(wb, h, bh);
    let til = swz_surface(wb, h, bh, lin);
    let back = dswz_surface(wb, h, bh, til);
    assert forall|l: int| 0 <= l < h * wb implies back[l] == lin[l] by {
        lemma_fundamental_div_mod(l, wb);
        lemma_mod_division_less_than_divisor(l, wb);
        let xb = l % wb;
        let y = l / wb;
        assert(0 <= y < h) by (nonlinear_arith)
            requires
                l == wb * y + xb,
                0 <= xb < wb,
                0 <= l < h * wb,
        ;
        assert(y < blk_rows(h, bh) * (8 * bh));
        assert(xb < wgobs(wb) * 64);
        lemma_baddr_inverts(wb, h, bh, xb, y);
        let a = baddr(wb, bh, xb, y);
        assert(til[a] == lin[y * wb + xb]);
        assert(y * wb + xb == l) by (nonlinear_arith)
            requires
                l == wb * y + xb,
        ;
    }
    assert(back =~= lin);
}

} // verus!

verus! {

/// Lower bound relating a tiled surface to its dimensions: tiling only pads.
pub proof fn lemma_surf_lower(wb: int, h: int, bh: int)
    requires
        wb >= 1,
        h >= 1,
        valid_bh(bh),
    ensures
        surf_size(wb, h, bh) >= 64 * h,
        surf_size(wb, h, bh) >= 8 * wb,
        surf_size(wb, h, bh) >= h * wb,
{
    lemma_surf_pos(wb, h, bh);
    let nb = blk_rows(h, bh);
    let wg = wgobs(wb);
    assert(surf_size(wb, h, bh) >= 64 * h) by (nonlinear_arith)
        requires
            nb >= 1,
            wg >= 1,
            bh >= 1,
            h <= nb * (8 * bh),
            surf_size(wb, h, bh) == nb * (512 * bh * wg),
    ;
    assert(surf_size(wb, h, bh) >= 8 * wb) by (nonlinear_arith)
        requires
            nb >= 1,
            wg >= 1,
            bh >= 1,
            wb <= wg * 64,
            surf_size(wb, h, bh) == nb * (512 * bh * wg),
    ;
    assert(surf_size(wb, h, bh) >= h * wb) by (nonlinear_arith)
        requires
            nb >= 1,
            wg >= 1,
            bh >= 1,
            h >= 1,
            wb >= 1,
            h <= nb * (8 * bh),
            wb <= wg * 64,
            surf_size(wb, h, bh) == nb * (512 * bh * wg),
    ;
}

/// Computes the tiled byte offset of byte column `xb`, row `y`.
fn block_addr(xb: usize, y: usize, wb: usize, h: usize, bh: usize) -> (r: usize)
    requires
        1 <= wb,
        1 <= h,
        valid_bh(bh as int),
        xb < wb,
        y < h,
        surf_size(wb as int, h as int, bh as int) <= usize::MAX,
    ensures
        r == baddr(wb as int, bh as int, xb as int, y as int),
        r < surf_size(wb as int, h as int, bh as int),
{
    proof {
        lemma_surf_pos(wb as int, h as int, bh as int);
        lemma_surf_lower(wb as int, h as int, bh as int);
        lemma_baddr_inverts(wb as int, h as int, bh as int, xb as int, y as int);
        lemma_mod_division_less_than_divisor(y as int, 8 * bh as int);
        lemma_mod_division_less_than_divisor(y as int, 8);
        lemma_mod_division_less_than_divisor(xb as int, 64);
        lemma_mod_division_less_than_divisor(xb as int, 32);
        lemma_mod_division_less_than_divisor(xb as int, 16);
    }
    let g: usize = 8 * bh;
    let s: usize = 512 * bh;
    let wg: usize = (wb + 63) / 64;
    proof {
        assert((s * wg) as int <= surf_size(wb as int, h as int, bh as int)) by (nonlinear_arith)
            requires
                blk_rows(h as int, bh as int) >= 1,
                s == 512 * bh,
                wg == wgobs(wb as int),
                surf_size(wb as int, h as int, bh as int) == blk_rows(h as int, bh as int) * (512
                    * (bh as int) * wgobs(wb as int)),
        ;
    }
    let dd: usize = s * wg;
    let ghost ia = baddr(wb as int, bh as int, xb as int, y as int);
    proof {
        assert((y as int / (8 * bh as int)) * (512 * (bh as int) * wgobs(wb as int)) >= 0 && (
        xb as int / 64) * (512 * bh as int) >= 0 && ((y as int % (8 * bh as int)) / 8) * 512 >= 0
            && gob_off(xb as int % 64, y as int % 8) >= 0) by (nonlinear_arith)
            requires
                0 <= y as int % (8 * bh as int),
                0 <= xb as int % 64 < 64,
                0 <= xb as int % 32,
                0 <= xb as int % 16,
                0 <= y as int % 8 < 8,
                xb >= 0,
                y >= 0,
                bh >= 1,
                wgobs(wb as int) >= 1,
        ;
    }
    let t1: usize = (y / g) * dd;
    let t2: usize = (xb / 64) * s;
    let t3: usize = ((y % g) / 8) * 512;
    let xg: usize = xb % 64;
    let yg: usize = y % 8;
    let go: usize = (xg / 32) * 256 + (yg / 2) * 64 + ((xg % 32) / 16) * 32 + (yg % 2) * 16 + xg
        % 16;
    t1 + t2 + t3 + go
}

/// Scatters one row-major surface at `src[sbase..]` into tiled order,
/// appending exactly one tiled surface to `out` (padding bytes zero).
fn swizzle_surface(src: &Vec<u8>, sbase: usize, wb: usize, h: usize, bh: usize, out: &mut Vec<u8>)
    requires
        1 <= wb,
        1 <= h,
        valid_bh(bh as int),
        sbase + h * wb <= src@.len(),
        surf_size(wb as int, h as int, bh as int) <= usize::MAX,
        old(out)@.len() + surf_size(wb as int, h as int, bh as int) <= usize::MAX,
    ensures
        final(out)@ == old(out)@ + swz_surface(
            wb as int,
            h as int,
            bh as int,
            src@.subrange(sbase as int, sbase + h * wb),
        ),
{
    let ghost lin = src@.subrange(sbase as int, sbase + h * wb);
    let ghost pre = out@;
    let srclen: usize = src.len();
    proof {
        lemma_surf_pos(wb as int, h as int, bh as int);
        lemma_surf_lower(wb as int, h as int, bh as int);
    }
    let g: usize = 8 * bh;
    let nb: usize = (h + (g - 1)) / g;
    let s: usize = 512 * bh;
    let wg: usize = (wb + 63) / 64;
    proof {
        assert(blk_rows(h as int, bh as int) * ((512 * bh) as int * wg as int) == surf_size(
            wb as int,
            h as int,
            bh as int,
        ) && (512 * bh) as int * wg as int <= surf_size(wb as int, h as int, bh as int))
            by (nonlinear_arith)
            requires
                blk_rows(h as int, bh as int) >= 1,
                wg == wgobs(wb as int),
                surf_size(wb as int, h as int, bh as int) == blk_rows(h as int, bh as int) * (512
                    * (bh as int) * wgobs(wb as int)),
        ;
    }
    let surfv: usize = nb * (s * wg);
    assert(surfv == surf_size(wb as int, h as int, bh as int));
    let obase: usize = out.len();

    // Fill the fresh extent with zeroes, then scatter every source byte.
    let mut k: usize = 0;
    while k < surfv
        invariant
            k <= surfv,
            out@ == pre + Seq::new(k as nat, |i: int| 0u8),
        decreases surfv - k,
    {
        out.push(0u8);
        assert(out@ =~= pre + Seq::new((k + 1) as nat, |i: int| 0u8));
        k = k + 1;
    }

    let ghost surfi = surf_size(wb as int, h as int, bh as int);
    let mut y: usize = 0;
    while y < h
        invariant
            y <= h,
            1 <= wb,
            1 <= h,
            valid_bh(bh as int),
            sbase + h * wb <= src@.len(),
            src@.len() == srclen,
            surfi == surf_size(wb as int, h as int, bh as int),
            surfi <= usize::MAX,
            obase == pre.len(),
            obase + surfi <= usize::MAX,
            out@.len() == obase + surfi,
            lin == src@.subrange(sbase as int, sbase + h * wb),
            out@.subrange(0, obase as int) == pre,
            forall|a: int| #![trigger rec_xb(wb as int, bh as int, a)]
                0 <= a < surfi ==> out@[obase + a] == {
                    let rx = rec_xb(wb as int, bh as int, a);
                    let ryy = rec_y(wb as int, bh as int, a);
                    if 0 <= rx < wb && 0 <= ryy < h && ryy < y {
                        lin[ryy * wb + rx]
                    } else {
                        0u8
                    }
                },
        decreases h - y,
    {
        let mut xb: usize = 0;
        while xb < wb
            invariant
                xb <= wb,
                y < h,
                1 <= wb,
                1 <= h,
                valid_bh(bh as int),
                sbase + h * wb <= src@.len(),
                src@.len() == srclen,
                surfi == surf_size(wb as int, h as int, bh as int),
                surfi <= usize::MAX,
                obase == pre.len(),
                obase + surfi <= usize::MAX,
                out@.len() == obase + surfi,
                lin == src@.subrange(sbase as int, sbase + h * wb),
                out@.subrange(0, obase as int) == pre,
                forall|a: int| #![trigger rec_xb(wb as int, bh as int, a)]
                    0 <= a < surfi ==> out@[obase + a] == {
                        let rx = rec_xb(wb as int, bh as int, a);
                        let ryy = rec_y(wb as int, bh as int, a);
                        if 0 <= rx < wb && 0 <= ryy < h && (ryy < y || (ryy == y && rx < xb)) {
                            lin[ryy * wb + rx]
                        } else {
                            0u8
                        }
                    },
            decreases wb - xb,
        {
            proof {
                lemma_surf_pos(wb as int, h as int, bh as int);
                assert(y * wb + xb < h * wb && y * wb + xb >= 0) by (nonlinear_arith)
                    requires
                        0 <= y < h,
                        0 <= xb < wb,
                ;
            }
            let a0 = block_addr(xb, y, wb, h, bh);
            let ghost prev = out@;
            let v = src[sbase + y * wb + xb];
            assert(lin[y * wb + xb] == v);
            out.set(obase + a0, v);
            proof {
                lemma_baddr_inverts(wb as int, h as int, bh as int, xb as int, y as int);
                assert(out@.subrange(0, obase as int) =~= prev.subrange(0, obase as int));
                assert forall|a: int| #![trigger rec_xb(wb as int, bh as int, a)]
                    0 <= a < surfi implies out@[obase + a] == {
                    let rx = rec_xb(wb as int, bh as int, a);
                    let ryy = rec_y(wb as int, bh as int, a);
                    if 0 <= rx < wb && 0 <= ryy < h && (ryy < y || (ryy == y && rx < xb + 1)) {
                        lin[ryy * wb + rx]
                    } else {
                        0u8
                    }
                } by {
                    if a == a0 {
                        assert(rec_xb(wb as int, bh as int, a) == xb);
                        assert(rec_y(wb as int, bh as int, a) == y);
                    } else {
                        assert(out@[obase + a] == prev[obase + a]);
                        let rx = rec_xb(wb as int, bh as int, a);
                        let ryy = rec_y(wb as int, bh as int, a);
                        if 0 <= rx < wb && 0 <= ryy < h {
                            lemma_recover_in_range(wb as int, h as int, bh as int, a);
                            assert(baddr(wb as int, bh as int, rx, ryy) == a);
                            if rx == xb && ryy == y {
                                assert(a == a0);
                            }
                        }
                    }
                }
            }
            xb = xb + 1;
        }
        y = y + 1;
    }
    proof {
        let res = swz_surface(wb as int, h as int, bh as int, lin);
        assert(out@ =~= pre + res);
    }
}

/// Gathers one tiled surface at `src[sbase..]` back into row-major order,
/// appending exactly `h * wb` bytes to `out`.
fn deswizzle_surface(src: &Vec<u8>, sbase: usize, wb: usize, h: usize, bh: usize, out: &mut Vec<u8>)
    requires
        1 <= wb,
        1 <= h,
        valid_bh(bh as int),
        surf_size(wb as int, h as int, bh as int) <= usize::MAX,
        sbase + surf_size(wb as int, h as int, bh as int) <= src@.len(),
        old(out)@.len() + h * wb <= usize::MAX,
    ensures
        final(out)@ == old(out)@ + dswz_surface(
            wb as int,
            h as int,
            bh as int,
            src@.subrange(sbase as int, sbase + surf_size(wb as int, h as int, bh as int)),
        ),
{
    let ghost surfi = surf_size(wb as int, h as int, bh as int);
    let ghost til = src@.subrange(sbase as int, sbase + surfi);
    let ghost pre = out@;
    let ghost res = dswz_surface(wb as int, h as int, bh as int, til);
    let srclen: usize = src.len();
    proof {
        lemma_surf_pos(wb as int, h as int, bh as int);
        lemma_surf_lower(wb as int, h as int, bh as int);
        assert(res.len() == h * wb);
    }
    let mut y: usize = 0;
    while y < h
        invariant
            y <= h,
            1 <= wb,
            1 <= h,
            valid_bh(bh as int),
            surfi == surf_size(wb as int, h as int, bh as int),
            surfi <= usize::MAX,
            sbase + surfi <= src@.len(),
            src@.len() == srclen,
            pre.len() + h * wb <= usize::MAX,
            til == src@.subrange(sbase as int, sbase + surfi),
            res == dswz_surface(wb as int, h as int, bh as int, til),
            out@.len() == pre.len() + y * wb,
            out@ == pre + res.subrange(0, (y * wb) as int),
        decreases h - y,
    {
        let mut xb: usize = 0;
        proof {
            assert(y * wb + wb <= h * wb && y * wb >= 0) by (nonlinear_arith)
                requires
                    0 <= y < h,
                    wb >= 1,
            ;
        }
        while xb < wb
            invariant
                xb <= wb,
                y < h,
                1 <= wb,
                1 <= h,
                valid_bh(bh as int),
                surfi == surf_size(wb as int, h as int, bh as int),
                surfi <= usize::MAX,
                sbase + surfi <= src@.len(),
                src@.len() == srclen,
                pre.len() + h * wb <= usize::MAX,
                y * wb + wb <= h * wb,
                til == src@.subrange(sbase as int, sbase + surfi),
                res == dswz_surface(wb as int, h as int, bh as int, til),
                out@.len() == pre.len() + y * wb + xb,
                out@ == pre + res.subrange(0, y * wb + xb),
            decreases wb - xb,
        {
            let a = block_addr(xb, y, wb, h, bh);
            let ghost l0 = y * wb + xb;
            proof {
                lemma_fundamental_div_mod_converse(l0, wb as int, y as int, xb as int);
                assert(res[l0] == til[baddr(wb as int, bh as int, xb as int, y as int)]);
            }
            let v = src[sbase + a];
            out.push(v);
            assert(out@ =~= pre + res.subrange(0, l0 + 1));
            xb = xb + 1;
        }
        proof {
            assert((y + 1) * wb == y * wb + wb) by (nonlinear_arith);
        }
        y = y + 1;
    }
    assert(res.subrange(0, (h * wb) as int) =~= res);
}

} // verus!

verus! {

/// Dimension of mip level `m`: halved per level, never below one texel.
pub open spec fn dim_at(base: int, m: int) -> int
    decreases m,
{
    if m <= 0 {
        base
    } else {
        let p = dim_at(base, m - 1) / 2;
        if p < 1 {
            1
        } else {
            p
        }
    }
}

/// Block height actually used by a surface of `h` rows: the declared height,
/// halved until a block no longer overshoots the GOB rows the surface has.
pub open spec fn eff_bh(bh: int, h: int) -> int
    decreases bh,
{
    if bh > 1 && (h + 7) / 8 <= bh / 2 {
        eff_bh(bh / 2, h)
    } else {
        bh
    }
}

/// Row bytes of mip level `m`.
pub open spec fn mip_wb(w: int, bpe: int, m: int) -> int {
    dim_at(w, m) * bpe
}

/// Rows of mip level `m`.
pub open spec fn mip_h(h: int, m: int) -> int {
    dim_at(h, m)
}

/// Depth slices of mip level `m`: only a 3-D texture scales its depth down.
pub open spec fn mip_d(d: int, is3d: bool, m: int) -> int {
    if is3d {
        dim_at(d, m)
    } else {
        d
    }
}

/// Effective block height of mip level `m`.
pub open spec fn mip_bh(bh0: int, h: int, m: int) -> int {
    eff_bh(bh0, mip_h(h, m))
}

/// Row-major byte size of mip level `m`, all slices.
pub open spec fn lin_mip(w: int, h: int, d: int, bpe: int, is3d: bool, m: int) -> int {
    mip_d(d, is3d, m) * (mip_h(h, m) * mip_wb(w, bpe, m))
}

/// Tiled byte size of mip level `m`, all slices.
pub open spec fn til_mip(w: int, h: int, d: int, bpe: int, is3d: bool, bh0: int, m: int) -> int {
    mip_d(d, is3d, m) * surf_size(mip_wb(w, bpe, m), mip_h(h, m), mip_bh(bh0, h, m))
}

/// Row-major byte size of the first `m` mip levels of one array layer.
pub open spec fn lin_chain(w: int, h: int, d: int, bpe: int, is3d: bool, m: int) -> int
    decreases m,
{
    if m <= 0 {
        0
    } else {
        lin_chain(w, h, d, bpe, is3d, m - 1) + lin_mip(w, h, d, bpe, is3d, m - 1)
    }
}

/// Tiled byte size of the first `m` mip levels of one array layer.
pub open spec fn til_chain(w: int, h: int, d: int, bpe: int, is3d: bool, bh0: int, m: int) -> int
    decreases m,
{
    if m <= 0 {
        0
    } else {
        til_chain(w, h, d, bpe, is3d, bh0, m - 1) + til_mip(w, h, d, bpe, is3d, bh0, m - 1)
    }
}

/// Mip dimensions stay between one and the base dimension.
pub proof fn lemma_dim_at_bounds(base: int, m: int)
    requires
        base >= 1,
        m >= 0,
    ensures
        1 <= dim_at(base, m) <= base,
    decreases m,
{
    if m > 0 {
        lemma_dim_at_bounds(base, m - 1);
    }
}

/// Clamping a valid block height stays valid and never grows it.
pub proof fn lemma_eff_bh_props(bh: int, h: int)
    requires
        valid_bh(bh),
    ensures
        valid_bh(eff_bh(bh, h)),
        eff_bh(bh, h) <= bh,
    decreases bh,
{
    if bh > 1 && (h + 7) / 8 <= bh / 2 {
        lemma_eff_bh_props(bh / 2, h);
    }
}

/// Every mip level occupies at least a byte, and tiling only pads it.
pub proof fn lemma_mip_sizes(w: int, h: int, d: int, bpe: int, is3d: bool, bh0: int, m: int)
    requires
        w >= 1,
        h >= 1,
        d >= 1,
        bpe >= 1,
        valid_bh(bh0),
        m >= 0,
    ensures
        1 <= lin_mip(w, h, d, bpe, is3d, m),
        lin_mip(w, h, d, bpe, is3d, m) <= til_mip(w, h, d, bpe, is3d, bh0, m),
        1 <= til_mip(w, h, d, bpe, is3d, bh0, m),
        mip_wb(w, bpe, m) >= 1,
        mip_h(h, m) >= 1,
        mip_d(d, is3d, m) >= 1,
        valid_bh(mip_bh(bh0, h, m)),
{
    lemma_dim_at_bounds(w, m);
    lemma_dim_at_bounds(h, m);
    lemma_dim_at_bounds(d, m);
    lemma_eff_bh_props(bh0, mip_h(h, m));
    let wbv = mip_wb(w, bpe, m);
    let hv = mip_h(h, m);
    let dv = mip_d(d, is3d, m);
    let bh = mip_bh(bh0, h, m);
    assert(wbv >= 1) by (nonlinear_arith)
        requires
            dim_at(w, m) >= 1,
            bpe >= 1,
            wbv == dim_at(w, m) * bpe,
    ;
    lemma_surf_lower(wbv, hv, bh);
    assert(1 <= dv * (hv * wbv) && dv * (hv * wbv) <= dv * surf_size(wbv, hv, bh) && 1 <= dv
        * surf_size(wbv, hv, bh)) by (nonlinear_arith)
        requires
            dv >= 1,
            hv >= 1,
            wbv >= 1,
            surf_size(wbv, hv, bh) >= hv * wbv,
    ;
}

/// Chain sizes are monotone in the level count, and the tiled chain is never
/// smaller than the row-major chain.
pub proof fn lemma_chain_bounds(w: int, h: int, d: int, bpe: int, is3d: bool, bh0: int, m: int)
    requires
        w >= 1,
        h >= 1,
        d >= 1,
        bpe >= 1,
        valid_bh(bh0),
        m >= 0,
    ensures
        0 <= lin_chain(w, h, d, bpe, is3d, m),
        lin_chain(w, h, d, bpe, is3d, m) <= til_chain(w, h, d, bpe, is3d, bh0, m),
        m >= 1 ==> lin_chain(w, h, d, bpe, is3d, m) >= lin_mip(w, h, d, bpe, is3d, m - 1),
        m >= 1 ==> lin_chain(w, h, d, bpe, is3d, m) >= lin_chain(w, h, d, bpe, is3d, m - 1),
        m >= 1 ==> til_chain(w, h, d, bpe, is3d, bh0, m) >= til_mip(w, h, d, bpe, is3d, bh0, m - 1),
        m >= 1 ==> til_chain(w, h, d, bpe, is3d, bh0, m) >= til_chain(w, h, d, bpe, is3d, bh0, m
            - 1),
    decreases m,
{
    if m > 0 {
        lemma_chain_bounds(w, h, d, bpe, is3d, bh0, m - 1);
        lemma_mip_sizes(w, h, d, bpe, is3d, bh0, m - 1);
    }
}

/// The whole chain bounds each of its prefixes.
pub proof fn lemma_chain_mono(w: int, h: int, d: int, bpe: int, is3d: bool, bh0: int, m1: int, m2: int)
    requires
        w >= 1,
        h >= 1,
        d >= 1,
        bpe >= 1,
        valid_bh(bh0),
        0 <= m1 <= m2,
    ensures
        lin_chain(w, h, d, bpe, is3d, m1) <= lin_chain(w, h, d, bpe, is3d, m2),
        til_chain(w, h, d, bpe, is3d, bh0, m1) <= til_chain(w, h, d, bpe, is3d, bh0, m2),
    decreases m2 - m1,
{
    if m1 < m2 {
        lemma_chain_mono(w, h, d, bpe, is3d, bh0, m1, m2 - 1);
        lemma_chain_bounds(w, h, d, bpe, is3d, bh0, m2);
    }
}

/// Multiplies, refusing a product beyond the address space.
fn mul_usize(a: usize, b: usize) -> (r: Option<usize>)
    ensures
        r == if a * b > usize::MAX {
            None
        } else {
            Some((a * b) as usize)
        },
{
    if a == 0 {
        Some(0)
    } else if b <= usize::MAX / a {
        proof {
            lemma_fundamental_div_mod(usize::MAX as int, a as int);
            assert(a * b <= usize::MAX) by (nonlinear_arith)
                requires
                    a >= 1,
                    b <= usize::MAX as int / a as int,
                    usize::MAX as int == a as int * (usize::MAX as int / a as int) + usize::MAX as int
                        % a as int,
                    usize::MAX as int % a as int >= 0,
            ;
        }
        Some(a * b)
    } else {
        proof {
            lemma_fundamental_div_mod(usize::MAX as int, a as int);
            lemma_mod_division_less_than_divisor(usize::MAX as int, a as int);
            assert(a * b > usize::MAX) by (nonlinear_arith)
                requires
                    a >= 1,
                    b > usize::MAX as int / a as int,
                    usize::MAX as int == a as int * (usize::MAX as int / a as int) + usize::MAX as int
                        % a as int,
                    (usize::MAX as int % a as int) < a as int,
            ;
        }
        None
    }
}

/// Adds, refusing a sum beyond the address space.
fn add_usize(a: usize, b: usize) -> (r: Option<usize>)
    ensures
        r == if a + b > usize::MAX {
            None
        } else {
            Some((a + b) as usize)
        },
{
    if b <= usize::MAX - a {
        Some(a + b)
    } else {
        None
    }
}

/// Rounds `a` up to the next multiple of `b` and divides, without overflow.
fn ceil_div(a: usize, b: usize) -> (r: usize)
    requires
        b >= 1,
    ensures
        r as int == (a + b - 1) / (b as int),
{
    proof {
        let ai = a as int;
        let bi = b as int;
        lemma_fundamental_div_mod(ai, bi);
        lemma_mod_division_less_than_divisor(ai, bi);
        if ai % bi == 0 {
            assert(ai + bi - 1 == (ai / bi) * bi + (bi - 1)) by (nonlinear_arith)
                requires
                    ai == bi * (ai / bi) + ai % bi,
                    ai % bi == 0,
            ;
            lemma_fundamental_div_mod_converse(ai + bi - 1, bi, ai / bi, bi - 1);
        } else {
            assert(ai + bi - 1 == (ai / bi + 1) * bi + (ai % bi - 1)) by (nonlinear_arith)
                requires
                    ai == bi * (ai / bi) + ai % bi,
            ;
            lemma_fundamental_div_mod_converse(ai + bi - 1, bi, ai / bi + 1, ai % bi - 1);
            assert(ai / bi + 1 <= usize::MAX) by (nonlinear_arith)
                requires
                    ai == bi * (ai / bi) + ai % bi,
                    1 <= ai % bi < bi,
                    0 <= ai <= usize::MAX,
                    ai / bi >= 0,
            ;
        }
    }
    if a % b == 0 {
        a / b
    } else {
        a / b + 1
    }
}

/// The block height a power-of-two exponent denotes.
pub open spec fn bh_of_log2(l: int) -> int {
    if l == 0 {
        1
    } else if l == 1 {
        2
    } else if l == 2 {
        4
    } else if l == 3 {
        8
    } else if l == 4 {
        16
    } else {
        32
    }
}

fn bh_from_log2(l: u32) -> (r: usize)
    requires
        l <= 5,
    ensures
        r as int == bh_of_log2(l as int),
        valid_bh(r as int),
{
    if l == 0 {
        1
    } else if l == 1 {
        2
    } else if l == 2 {
        4
    } else if l == 3 {
        8
    } else if l == 4 {
        16
    } else {
        32
    }
}

/// Computes the clamped block height of a surface of `h` rows.
fn eff_bh_exec(bh: usize, h: usize) -> (r: usize)
    requires
        valid_bh(bh as int),
    ensures
        r as int == eff_bh(bh as int, h as int),
        valid_bh(r as int),
        r <= bh,
    decreases bh,
{
    let hg = ceil_div(h, 8);
    if bh > 1 && hg <= bh / 2 {
        eff_bh_exec(bh / 2, h)
    } else {
        bh
    }
}

/// Computes the row-major and tiled totals over every layer and mip level.
/// `None` stands for a total beyond this machine's address space.
#[verifier::loop_isolation(false)]
fn compute_sizes(
    w: usize,
    h: usize,
    d: usize,
    bpe: usize,
    is3d: bool,
    bh0: usize,
    mips: usize,
    layers: usize,
) -> (r: (Option<usize>, Option<usize>))
    requires
        w >= 1,
        h >= 1,
        d >= 1,
        bpe >= 1,
        mips >= 1,
        layers >= 1,
        valid_bh(bh0 as int),
    ensures
        r.0 == if (layers as int) * lin_chain(w as int, h as int, d as int, bpe as int, is3d, mips as int)
            > usize::MAX {
            None
        } else {
            Some(
                ((layers as int) * lin_chain(w as int, h as int, d as int, bpe as int, is3d, mips as int)) as usize,
            )
        },
        r.1 == if (layers as int) * til_chain(
            w as int,
            h as int,
            d as int,
            bpe as int,
            is3d,
            bh0 as int,
            mips as int,
        ) > usize::MAX {
            None
        } else {
            Some(
                ((layers as int) * til_chain(
                    w as int,
                    h as int,
                    d as int,
                    bpe as int,
                    is3d,
                    bh0 as int,
                    mips as int,
                )) as usize,
            )
        },
{
    let ghost wi = w as int;
    let ghost hi = h as int;
    let ghost di = d as int;
    let ghost bi = bpe as int;
    let ghost bhi = bh0 as int;
    let ghost mx = usize::MAX as int;
    let mut acc_lin: usize = 0;
    let mut acc_til: Option<usize> = Some(0);
    let mut cw: usize = w;
    let mut ch: usize = h;
    let mut cd: usize = d;
    let mut m: usize = 0;
    while m < mips
        invariant
            m <= mips,
            cw as int == dim_at(wi, m as int),
            ch as int == dim_at(hi, m as int),
            cd as int == mip_d(di, is3d, m as int),
            acc_lin as int == lin_chain(wi, hi, di, bi, is3d, m as int),
            acc_til == if til_chain(wi, hi, di, bi, is3d, bhi, m as int) > mx {
                None
            } else {
                Some(til_chain(wi, hi, di, bi, is3d, bhi, m as int) as usize)
            },
        decreases mips - m,
    {
        proof {
            lemma_dim_at_bounds(wi, m as int);
            lemma_dim_at_bounds(hi, m as int);
            lemma_dim_at_bounds(di, m as int);
            lemma_mip_sizes(wi, hi, di, bi, is3d, bhi, m as int);
            lemma_chain_bounds(wi, hi, di, bi, is3d, bhi, m as int);
            lemma_chain_mono(wi, hi, di, bi, is3d, bhi, m as int, mips as int);
        }
        let ghost lmip = lin_mip(wi, hi, di, bi, is3d, m as int);
        let ghost tmip = til_mip(wi, hi, di, bi, is3d, bhi, m as int);
        // Row bytes of this level.
        let wbv = match mul_usize(cw, bpe) {
            Some(v) => v,
            None => {
                proof {
                    lemma_overflow_kills_both(wi, hi, di, bi, is3d, bhi, m as int, mips as int, layers as int, cw as int * bi);
                }
                return (None, None);
            },
        };
        // Row-major size of this level.
        let sl_lin = match mul_usize(ch, wbv) {
            Some(v) => v,
            None => {
                proof {
                    lemma_overflow_kills_both(wi, hi, di, bi, is3d, bhi, m as int, mips as int, layers as int, (ch as int) * (wbv as int));
                }
                return (None, None);
            },
        };
        let mip_lin = match mul_usize(cd, sl_lin) {
            Some(v) => v,
            None => {
                proof {
                    lemma_overflow_kills_both(wi, hi, di, bi, is3d, bhi, m as int, mips as int, layers as int, (cd as int) * (sl_lin as int));
                }
                return (None, None);
            },
        };
        let new_lin = match add_usize(acc_lin, mip_lin) {
            Some(v) => v,
            None => {
                proof {
                    lemma_overflow_kills_both(wi, hi, di, bi, is3d, bhi, m as int, mips as int, layers as int, acc_lin as int + mip_lin as int);
                }
                return (None, None);
            },
        };
        acc_lin = new_lin;
        // Tiled size of this level.
        let ebh = eff_bh_exec(bh0, ch);
        proof {
            assert(ebh as int == mip_bh(bhi, hi, m as int));
        }
        let mut til_chunk: Option<usize> = None;
        let wg = ceil_div(wbv, 64);
        let nb = ceil_div(ch, 8 * ebh);
        proof {
            assert(wg as int == wgobs(wbv as int));
            assert(nb as int == blk_rows(ch as int, ebh as int));
        }
        match mul_usize(512 * ebh, wg) {
            Some(sw) => {
                match mul_usize(nb, sw) {
                    Some(sf) => {
                        proof {
                            assert(sf as int == surf_size(wbv as int, ch as int, ebh as int))
                                by (nonlinear_arith)
                                requires
                                    sf as int == nb as int * sw as int,
                                    sw as int == (512 * ebh as int) * wg as int,
                                    nb as int == blk_rows(ch as int, ebh as int),
                                    wg as int == wgobs(wbv as int),
                                    surf_size(wbv as int, ch as int, ebh as int) == blk_rows(
                                        ch as int,
                                        ebh as int,
                                    ) * (512 * ebh as int * wgobs(wbv as int)),
                            ;
                        }
                        til_chunk = mul_usize(cd, sf);
                        proof {
                            if til_chunk is None {
                                assert(tmip > mx);
                            } else {
                                assert(til_chunk == Some(tmip as usize));
                            }
                        }
                    },
                    None => {
                        proof {
                            assert(tmip > mx) by (nonlinear_arith)
                                requires
                                    tmip == cd as int * surf_size(wbv as int, ch as int, ebh as int),
                                    surf_size(wbv as int, ch as int, ebh as int) == blk_rows(
                                        ch as int,
                                        ebh as int,
                                    ) * (512 * ebh as int * wgobs(wbv as int)),
                                    nb as int * sw as int > mx,
                                    sw as int == (512 * ebh as int) * wg as int,
                                    nb as int == blk_rows(ch as int, ebh as int),
                                    wg as int == wgobs(wbv as int),
                                    cd >= 1,
                            ;
                        }
                    },
                }
            },
            None => {
                proof {
                    lemma_surf_pos(wbv as int, ch as int, ebh as int);
                    assert(tmip > mx) by (nonlinear_arith)
                        requires
                            tmip == cd as int * surf_size(wbv as int, ch as int, ebh as int),
                            surf_size(wbv as int, ch as int, ebh as int) == blk_rows(
                                ch as int,
                                ebh as int,
                            ) * (512 * ebh as int * wgobs(wbv as int)),
                            blk_rows(ch as int, ebh as int) >= 1,
                            (512 * ebh as int) * wgobs(wbv as int) > mx,
                            wg as int == wgobs(wbv as int),
                            cd >= 1,
                    ;
                }
            },
        }
        acc_til = match (acc_til, til_chunk) {
            (Some(a), Some(b)) => add_usize(a, b),
            _ => None,
        };
        proof {
            assert(lin_chain(wi, hi, di, bi, is3d, (m + 1) as int) == lin_chain(wi, hi, di, bi, is3d, m as int) + lmip);
            assert(til_chain(wi, hi, di, bi, is3d, bhi, (m + 1) as int) == til_chain(wi, hi, di, bi, is3d, bhi, m as int) + tmip);
        }
        // Next level's dimensions.
        let nw = if cw / 2 >= 1 { cw / 2 } else { 1 };
        let nh = if ch / 2 >= 1 { ch / 2 } else { 1 };
        cw = nw;
        ch = nh;
        if is3d {
            let nd = if cd / 2 >= 1 { cd / 2 } else { 1 };
            cd = nd;
        }
        m = m + 1;
    }
    let r0 = mul_usize(layers, acc_lin);
    let r1 = match acc_til {
        Some(v) => mul_usize(layers, v),
        None => {
            proof {
                assert((layers as int) * til_chain(wi, hi, di, bi, is3d, bhi, mips as int) > mx)
                    by (nonlinear_arith)
                    requires
                        til_chain(wi, hi, di, bi, is3d, bhi, mips as int) > mx,
                        layers >= 1,
                        mx >= 0,
                ;
            }
            None
        },
    };
    proof {
        let tl = lin_chain(wi, hi, di, bi, is3d, mips as int);
        let tc = til_chain(wi, hi, di, bi, is3d, bhi, mips as int);
        lemma_chain_bounds(wi, hi, di, bi, is3d, bhi, mips as int);
        assert(acc_lin as int == tl);
        assert(acc_til == if tc > mx { None } else { Some(tc as usize) });
        assert(r0 == if (layers as int) * tl > mx { None } else { Some(((layers as int) * tl) as usize) });
        assert(r1 == if (layers as int) * tc > mx { None } else { Some(((layers as int) * tc) as usize) });
    }
    (r0, r1)
}

/// A level size beyond the address space puts both totals beyond it.
proof fn lemma_overflow_kills_both(
    w: int,
    h: int,
    d: int,
    bpe: int,
    is3d: bool,
    bh0: int,
    m: int,
    mips: int,
    layers: int,
    over: int,
)
    requires
        w >= 1,
        h >= 1,
        d >= 1,
        bpe >= 1,
        layers >= 1,
        valid_bh(bh0),
        0 <= m < mips,
        over > usize::MAX,
        over == dim_at(w, m) * bpe || over == mip_h(h, m) * mip_wb(w, bpe, m) || over == mip_d(
            d,
            is3d,
            m,
        ) * (mip_h(h, m) * mip_wb(w, bpe, m)) || over == lin_chain(w, h, d, bpe, is3d, m) + lin_mip(
            w,
            h,
            d,
            bpe,
            is3d,
            m,
        ),
    ensures
        layers * lin_chain(w, h, d, bpe, is3d, mips) > usize::MAX,
        layers * til_chain(w, h, d, bpe, is3d, bh0, mips) > usize::MAX,
{
    lemma_dim_at_bounds(w, m);
    lemma_dim_at_bounds(h, m);
    lemma_dim_at_bounds(d, m);
    lemma_mip_sizes(w, h, d, bpe, is3d, bh0, m);
    lemma_chain_bounds(w, h, d, bpe, is3d, bh0, m);
    let wbv = mip_wb(w, bpe, m);
    let hv = mip_h(h, m);
    let dv = mip_d(d, is3d, m);
    let lm = lin_mip(w, h, d, bpe, is3d, m);
    // Whatever overflowed, the full level is at least as large.
    assert(lm >= wbv && lm >= hv * wbv) by (nonlinear_arith)
        requires
            lm == dv * (hv * wbv),
            dv >= 1,
            hv >= 1,
            wbv >= 1,
    ;
    assert(lin_chain(w, h, d, bpe, is3d, m + 1) > usize::MAX);
    lemma_chain_mono(w, h, d, bpe, is3d, bh0, m + 1, mips);
    lemma_chain_bounds(w, h, d, bpe, is3d, bh0, mips);
    assert(layers * lin_chain(w, h, d, bpe, is3d, mips) > usize::MAX && layers * til_chain(
        w,
        h,
        d,
        bpe,
        is3d,
        bh0,
        mips,
    ) > usize::MAX) by (nonlinear_arith)
        requires
            layers >= 1,
            lin_chain(w, h, d, bpe, is3d, mips) > usize::MAX,
            til_chain(w, h, d, bpe, is3d, bh0, mips) >= lin_chain(w, h, d, bpe, is3d, mips),
    ;
}

} // verus!

verus! {

/// Tiled image of the first `nz` depth slices of one mip level, laid out
/// consecutively; slice `z` reads its rows from `lin` at `lbase + z` slices.
pub open spec fn swz_slices(wb: int, h: int, bh: int, nz: int, lin: Seq<u8>, lbase: int) -> Seq<u8>
    decreases nz,
{
    if nz <= 0 {
        Seq::empty()
    } else {
        swz_slices(wb, h, bh, nz - 1, lin, lbase) + swz_surface(
            wb,
            h,
            bh,
            lin.subrange(lbase + (nz - 1) * (h * wb), lbase + nz * (h * wb)),
        )
    }
}

/// Tiled image of the first `nm` mip levels of one array layer.
pub open spec fn swz_mips(
    w: int,
    h: int,
    d: int,
    bpe: int,
    is3d: bool,
    bh0: int,
    nm: int,
    lin: Seq<u8>,
    lbase: int,
) -> Seq<u8>
    decreases nm,
{
    if nm <= 0 {
        Seq::empty()
    } else {
        swz_mips(w, h, d, bpe, is3d, bh0, nm - 1, lin, lbase) + swz_slices(
            mip_wb(w, bpe, nm - 1),
            mip_h(h, nm - 1),
            mip_bh(bh0, h, nm - 1),
            mip_d(d, is3d, nm - 1),
            lin,
            lbase + lin_chain(w, h, d, bpe, is3d, nm - 1),
        )
    }
}

/// Tiled image of the first `nl` array layers.
pub open spec fn swz_layers(
    w: int,
    h: int,
    d: int,
    bpe: int,
    is3d: bool,
    bh0: int,
    mips: int,
    nl: int,
    lin: Seq<u8>,
) -> Seq<u8>
    decreases nl,
{
    if nl <= 0 {
        Seq::empty()
    } else {
        swz_layers(w, h, d, bpe, is3d, bh0, mips, nl - 1, lin) + swz_mips(
            w,
            h,
            d,
            bpe,
            is3d,
            bh0,
            mips,
            lin,
            (nl - 1) * lin_chain(w, h, d, bpe, is3d, mips),
        )
    }
}

/// Row-major image of the first `nz` depth slices of one tiled mip level.
pub open spec fn dswz_slices(wb: int, h: int, bh: int, nz: int, til: Seq<u8>, tbase: int) -> Seq<
    u8,
>
    decreases nz,
{
    if nz <= 0 {
        Seq::empty()
    } else {
        dswz_slices(wb, h, bh, nz - 1, til, tbase) + dswz_surface(
            wb,
            h,
            bh,
            til.subrange(
                tbase + (nz - 1) * surf_size(wb, h, bh),
                tbase + nz * surf_size(wb, h, bh),
            ),
        )
    }
}

/// Row-major image of the first `nm` tiled mip levels of one array layer.
pub open spec fn dswz_mips(
    w: int,
    h: int,
    d: int,
    bpe: int,
    is3d: bool,
    bh0: int,
    nm: int,
    til: Seq<u8>,
    tbase: int,
) -> Seq<u8>
    decreases nm,
{
    if nm <= 0 {
        Seq::empty()
    } else {
        dswz_mips(w, h, d, bpe, is3d, bh0, nm - 1, til, tbase) + dswz_slices(
            mip_wb(w, bpe, nm - 1),
            mip_h(h, nm - 1),
            mip_bh(bh0, h, nm - 1),
            mip_d(d, is3d, nm - 1),
            til,
            tbase + til_chain(w, h, d, bpe, is3d, bh0, nm - 1),
        )
    }
}

/// Row-major image of the first `nl` tiled array layers.
pub open spec fn dswz_layers(
    w: int,
    h: int,
    d: int,
    bpe: int,
    is3d: bool,
    bh0: int,
    mips: int,
    nl: int,
    til: Seq<u8>,
) -> Seq<u8>
    decreases nl,
{
    if nl <= 0 {
        Seq::empty()
    } else {
        dswz_layers(w, h, d, bpe, is3d, bh0, mips, nl - 1, til) + dswz_mips(
            w,
            h,
            d,
            bpe,
            is3d,
            bh0,
            mips,
            til,
            (nl - 1) * til_chain(w, h, d, bpe, is3d, bh0, mips),
        )
    }
}

proof fn lemma_swz_slices_len(wb: int, h: int, bh: int, nz: int, lin: Seq<u8>, lbase: int)
    requires
        nz >= 0,
        wb >= 1,
        h >= 1,
        valid_bh(bh),
    ensures
        swz_slices(wb, h, bh, nz, lin, lbase).len() == nz * surf_size(wb, h, bh),
    decreases nz,
{
    let s = surf_size(wb, h, bh);
    lemma_surf_pos(wb, h, bh);
    if nz > 0 {
        lemma_swz_slices_len(wb, h, bh, nz - 1, lin, lbase);
        assert(nz * s == (nz - 1) * s + s) by (nonlinear_arith);
    } else {
        assert(nz * s == 0) by (nonlinear_arith)
            requires
                nz == 0,
        ;
    }
}

proof fn lemma_dswz_slices_len(wb: int, h: int, bh: int, nz: int, til: Seq<u8>, tbase: int)
    requires
        nz >= 0,
        wb >= 0,
        h >= 0,
    ensures
        dswz_slices(wb, h, bh, nz, til, tbase).len() == nz * (h * wb),
    decreases nz,
{
    if nz > 0 {
        lemma_dswz_slices_len(wb, h, bh, nz - 1, til, tbase);
        assert(nz * (h * wb) == (nz - 1) * (h * wb) + h * wb) by (nonlinear_arith);
    } else {
        assert(nz * (h * wb) == 0) by (nonlinear_arith)
            requires
                nz == 0,
        ;
    }
}

proof fn lemma_swz_mips_len(
    w: int,
    h: int,
    d: int,
    bpe: int,
    is3d: bool,
    bh0: int,
    nm: int,
    lin: Seq<u8>,
    lbase: int,
)
    requires
        w >= 1,
        h >= 1,
        d >= 1,
        bpe >= 1,
        valid_bh(bh0),
        nm >= 0,
    ensures
        swz_mips(w, h, d, bpe, is3d, bh0, nm, lin, lbase).len() == til_chain(
            w,
            h,
            d,
            bpe,
            is3d,
            bh0,
            nm,
        ),
    decreases nm,
{
    if nm > 0 {
        lemma_swz_mips_len(w, h, d, bpe, is3d, bh0, nm - 1, lin, lbase);
        lemma_mip_sizes(w, h, d, bpe, is3d, bh0, nm - 1);
        lemma_swz_slices_len(
            mip_wb(w, bpe, nm - 1),
            mip_h(h, nm - 1),
            mip_bh(bh0, h, nm - 1),
            mip_d(d, is3d, nm - 1),
            lin,
            lbase + lin_chain(w, h, d, bpe, is3d, nm - 1),
        );
    }
}

proof fn lemma_dswz_mips_len(
    w: int,
    h: int,
    d: int,
    bpe: int,
    is3d: bool,
    bh0: int,
    nm: int,
    til: Seq<u8>,
    tbase: int,
)
    requires
        w >= 1,
        h >= 1,
        d >= 1,
        bpe >= 1,
        valid_bh(bh0),
        nm >= 0,
    ensures
        dswz_mips(w, h, d, bpe, is3d, bh0, nm, til, tbase).len() == lin_chain(
            w,
            h,
            d,
            bpe,
            is3d,
            nm,
        ),
    decreases nm,
{
    if nm > 0 {
        lemma_dswz_mips_len(w, h, d, bpe, is3d, bh0, nm - 1, til, tbase);
        lemma_mip_sizes(w, h, d, bpe, is3d, bh0, nm - 1);
        lemma_dswz_slices_len(
            mip_wb(w, bpe, nm - 1),
            mip_h(h, nm - 1),
            mip_bh(bh0, h, nm - 1),
            mip_d(d, is3d, nm - 1),
            til,
            tbase + til_chain(w, h, d, bpe, is3d, bh0, nm - 1),
        );
    }
}

proof fn lemma_swz_layers_len(
    w: int,
    h: int,
    d: int,
    bpe: int,
    is3d: bool,
    bh0: int,
    mips: int,
    nl: int,
    lin: Seq<u8>,
)
    requires
        w >= 1,
        h >= 1,
        d >= 1,
        bpe >= 1,
        valid_bh(bh0),
        mips >= 0,
        nl >= 0,
    ensures
        swz_layers(w, h, d, bpe, is3d, bh0, mips, nl, lin).len() == nl * til_chain(
            w,
            h,
            d,
            bpe,
            is3d,
            bh0,
            mips,
        ),
    decreases nl,
{
    let tc = til_chain(w, h, d, bpe, is3d, bh0, mips);
    if nl > 0 {
        lemma_swz_layers_len(w, h, d, bpe, is3d, bh0, mips, nl - 1, lin);
        lemma_swz_mips_len(
            w,
            h,
            d,
            bpe,
            is3d,
            bh0,
            mips,
            lin,
            (nl - 1) * lin_chain(w, h, d, bpe, is3d, mips),
        );
        assert(nl * tc == (nl - 1) * tc + tc) by (nonlinear_arith);
    } else {
        assert(nl * tc == 0) by (nonlinear_arith)
            requires
                nl == 0,
        ;
    }
}

proof fn lemma_dswz_layers_len(
    w: int,
    h: int,
    d: int,
    bpe: int,
    is3d: bool,
    bh0: int,
    mips: int,
    nl: int,
    til: Seq<u8>,
)
    requires
        w >= 1,
        h >= 1,
        d >= 1,
        bpe >= 1,
        valid_bh(bh0),
        mips >= 0,
        nl >= 0,
    ensures
        dswz_layers(w, h, d, bpe, is3d, bh0, mips, nl, til).len() == nl * lin_chain(
            w,
            h,
            d,
            bpe,
            is3d,
            mips,
        ),
    decreases nl,
{
    let lc = lin_chain(w, h, d, bpe, is3d, mips);
    if nl > 0 {
        lemma_dswz_layers_len(w, h, d, bpe, is3d, bh0, mips, nl - 1, til);
        lemma_dswz_mips_len(
            w,
            h,
            d,
            bpe,
            is3d,
            bh0,
            mips,
            til,
            (nl - 1) * til_chain(w, h, d, bpe, is3d, bh0, mips),
        );
        assert(nl * lc == (nl - 1) * lc + lc) by (nonlinear_arith);
    } else {
        assert(nl * lc == 0) by (nonlinear_arith)
            requires
                nl == 0,
        ;
    }
}

/// What `swizzle` returns, for every input.
pub open spec fn spec_swizzle(
    w: int,
    h: int,
    d: int,
    log2: int,
    mips: int,
    layers: int,
    is3d: bool,
    bpe: int,
    tm: int,
    data: Seq<u8>,
) -> Result<Seq<u8>, SwizzleError> {
    if w <= 0 || h <= 0 || d <= 0 || mips <= 0 || layers <= 0 || bpe <= 0 {
        Err(SwizzleError::ZeroSize)
    } else if log2 > 5 {
        Err(SwizzleError::BlockHeightOutOfRange)
    } else {
        let bh0 = bh_of_log2(log2);
        let tl = layers * lin_chain(w, h, d, bpe, is3d, mips);
        if tm == 1 {
            if tl > usize::MAX {
                Err(SwizzleError::TooLarge)
            } else if data.len() != tl {
                Err(SwizzleError::SourceSizeMismatch)
            } else {
                Ok(data)
            }
        } else {
            let tt = layers * til_chain(w, h, d, bpe, is3d, bh0, mips);
            if tl > usize::MAX || tt > usize::MAX {
                Err(SwizzleError::TooLarge)
            } else if data.len() != tl {
                Err(SwizzleError::SourceSizeMismatch)
            } else {
                Ok(swz_layers(w, h, d, bpe, is3d, bh0, mips, layers, data))
            }
        }
    }
}

/// What `deswizzle` returns, for every input.
pub open spec fn spec_deswizzle(
    w: int,
    h: int,
    d: int,
    log2: int,
    mips: int,
    layers: int,
    is3d: bool,
    bpe: int,
    tm: int,
    data: Seq<u8>,
) -> Result<Seq<u8>, SwizzleError> {
    if w <= 0 || h <= 0 || d <= 0 || mips <= 0 || layers <= 0 || bpe <= 0 {
        Err(SwizzleError::ZeroSize)
    } else if log2 > 5 {
        Err(SwizzleError::BlockHeightOutOfRange)
    } else {
        let bh0 = bh_of_log2(log2);
        let tl = layers * lin_chain(w, h, d, bpe, is3d, mips);
        if tm == 1 {
            if tl > usize::MAX {
                Err(SwizzleError::TooLarge)
            } else if data.len() < tl {
                Err(SwizzleError::SourceSizeMismatch)
            } else {
                Ok(data.subrange(0, tl))
            }
        } else {
            let tt = layers * til_chain(w, h, d, bpe, is3d, bh0, mips);
            if tl > usize::MAX || tt > usize::MAX {
                Err(SwizzleError::TooLarge)
            } else if data.len() < tt {
                Err(SwizzleError::SourceSizeMismatch)
            } else {
                Ok(dswz_layers(w, h, d, bpe, is3d, bh0, mips, layers, data))
            }
        }
    }
}

} // verus!

verus! {


/// Tiles the `cd` consecutive row-major slices of one mip level, appending
/// `cd` tiled surfaces to `out`; returns the source offset after the level.
#[verifier::loop_isolation(false)]
fn swizzle_mip(
    data: &Vec<u8>,
    spos: usize,
    wbv: usize,
    ch: usize,
    ebh: usize,
    cd: usize,
    out: &mut Vec<u8>,
) -> (newpos: usize)
    requires
        1 <= wbv,
        1 <= ch,
        1 <= cd,
        valid_bh(ebh as int),
        spos + cd * (ch * wbv) <= data@.len(),
        old(out)@.len() + cd * surf_size(wbv as int, ch as int, ebh as int) <= usize::MAX,
    ensures
        final(out)@ == old(out)@ + swz_slices(wbv as int, ch as int, ebh as int, cd as int, data@, spos as int),
        newpos == spos + cd * (ch * wbv),
{
    let ghost surf = surf_size(wbv as int, ch as int, ebh as int);
    let ghost pre = out@;
    let dlen: usize = data.len();
    proof {
        lemma_surf_pos(wbv as int, ch as int, ebh as int);
        assert(ch * wbv <= cd * (ch * wbv) && surf <= cd as int * surf && 0 <= cd as int * surf)
            by (nonlinear_arith)
            requires
                cd >= 1,
                ch >= 1,
                wbv >= 1,
                surf >= 0,
        ;
    }
    let slice: usize = ch * wbv;
    let mut pos: usize = spos;
    let mut z: usize = 0;
    while z < cd
        invariant
            z <= cd,
            pos as int == spos + z as int * slice as int,
            out@ == pre + swz_slices(wbv as int, ch as int, ebh as int, z as int, data@, spos as int),
            out@.len() == pre.len() + z as int * surf,
        decreases cd - z,
    {
        proof {
            assert((z + 1) as int * slice as int == z as int * slice as int + slice as int && (z
                + 1) as int * slice as int <= cd as int * slice as int && (z + 1) as int * surf
                == z as int * surf + surf && (z + 1) as int * surf <= cd as int * surf
                && z as int * slice as int >= 0 && z as int * surf >= 0) by (nonlinear_arith)
                requires
                    z < cd,
                    slice >= 0,
                    surf >= 0,
            ;
            assert(cd as int * slice as int == cd * (ch * wbv)) by (nonlinear_arith)
                requires
                    slice as int == ch as int * wbv as int,
            ;
        }
        swizzle_surface(data, pos, wbv, ch, ebh, out);
        proof {
            assert(out@ =~= pre + swz_slices(
                wbv as int,
                ch as int,
                ebh as int,
                z as int + 1,
                data@,
                spos as int,
            ));
        }
        pos = pos + slice;
        z = z + 1;
    }
    proof {
        assert(cd as int * slice as int == cd * (ch * wbv)) by (nonlinear_arith)
            requires
                slice as int == ch as int * wbv as int,
        ;
    }
    pos
}

/// Gathers the `cd` consecutive tiled surfaces of one mip level back into
/// row-major slices appended to `out`; returns the source offset after them.
#[verifier::loop_isolation(false)]
fn deswizzle_mip(
    data: &Vec<u8>,
    spos: usize,
    wbv: usize,
    ch: usize,
    ebh: usize,
    cd: usize,
    out: &mut Vec<u8>,
) -> (newpos: usize)
    requires
        1 <= wbv,
        1 <= ch,
        1 <= cd,
        valid_bh(ebh as int),
        spos + cd * surf_size(wbv as int, ch as int, ebh as int) <= data@.len(),
        old(out)@.len() + cd * (ch * wbv) <= usize::MAX,
    ensures
        final(out)@ == old(out)@ + dswz_slices(wbv as int, ch as int, ebh as int, cd as int, data@, spos as int),
        newpos as int == spos + cd as int * surf_size(wbv as int, ch as int, ebh as int),
{
    let ghost surf = surf_size(wbv as int, ch as int, ebh as int);
    let ghost pre = out@;
    let dlen: usize = data.len();
    proof {
        lemma_surf_pos(wbv as int, ch as int, ebh as int);
        assert(surf <= cd as int * surf && 0 <= cd as int * surf && ch * wbv <= cd * (ch * wbv))
            by (nonlinear_arith)
            requires
                cd >= 1,
                ch >= 1,
                wbv >= 1,
                surf >= 0,
        ;
    }
    let slice: usize = ch * wbv;
    let wg = ceil_div(wbv, 64);
    let nb = ceil_div(ch, 8 * ebh);
    proof {
        assert(wg as int == wgobs(wbv as int));
        assert(nb as int == blk_rows(ch as int, ebh as int));
        assert(nb as int * ((512 * ebh as int) * wg as int) == surf && (512 * ebh as int)
            * wg as int <= surf) by (nonlinear_arith)
            requires
                nb as int == blk_rows(ch as int, ebh as int),
                wg as int == wgobs(wbv as int),
                nb as int >= 1,
                surf == blk_rows(ch as int, ebh as int) * (512 * ebh as int * wgobs(wbv as int)),
        ;
    }
    let surfv: usize = nb * (512 * ebh * wg);
    let mut pos: usize = spos;
    let mut z: usize = 0;
    while z < cd
        invariant
            z <= cd,
            surfv as int == surf,
            pos as int == spos + z as int * surf,
            out@ == pre + dswz_slices(wbv as int, ch as int, ebh as int, z as int, data@, spos as int),
            out@.len() == pre.len() + z as int * slice as int,
        decreases cd - z,
    {
        proof {
            assert((z + 1) as int * slice as int == z as int * slice as int + slice as int && (z
                + 1) as int * slice as int <= cd as int * slice as int && (z + 1) as int * surf
                == z as int * surf + surf && (z + 1) as int * surf <= cd as int * surf
                && z as int * slice as int >= 0 && z as int * surf >= 0) by (nonlinear_arith)
                requires
                    z < cd,
                    slice >= 0,
                    surf >= 0,
            ;
            assert(cd as int * slice as int == cd * (ch * wbv)) by (nonlinear_arith)
                requires
                    slice as int == ch as int * wbv as int,
            ;
        }
        deswizzle_surface(data, pos, wbv, ch, ebh, out);
        proof {
            assert(out@ =~= pre + dswz_slices(
                wbv as int,
                ch as int,
                ebh as int,
                z as int + 1,
                data@,
                spos as int,
            ));
        }
        pos = pos + surfv;
        z = z + 1;
    }
    pos
}

/// Tiles every mip level of every array layer, in order.
#[verifier::loop_isolation(false)]
#[verifier::rlimit(100)]
fn swizzle_block_linear(
    w: usize,
    h: usize,
    d: usize,
    bpe: usize,
    is3d: bool,
    bh0: usize,
    mips: usize,
    layers: usize,
    tl: usize,
    tt: usize,
    data: &Vec<u8>,
) -> (out: Vec<u8>)
    requires
        w >= 1,
        h >= 1,
        d >= 1,
        bpe >= 1,
        mips >= 1,
        layers >= 1,
        valid_bh(bh0 as int),
        tl as int == layers as int * lin_chain(w as int, h as int, d as int, bpe as int, is3d, mips as int),
        tt as int == layers as int * til_chain(w as int, h as int, d as int, bpe as int, is3d, bh0 as int, mips as int),
        data@.len() == tl,
    ensures
        out@ == swz_layers(
            w as int,
            h as int,
            d as int,
            bpe as int,
            is3d,
            bh0 as int,
            mips as int,
            layers as int,
            data@,
        ),
        out@.len() == tt,
{
    let ghost wi = w as int;
    let ghost hi = h as int;
    let ghost di = d as int;
    let ghost bi = bpe as int;
    let ghost bhi = bh0 as int;
    let ghost mi = mips as int;
    let ghost li = layers as int;
    let ghost chain_l = lin_chain(wi, hi, di, bi, is3d, mi);
    let ghost chain_t = til_chain(wi, hi, di, bi, is3d, bhi, mi);
    proof {
        lemma_chain_bounds(wi, hi, di, bi, is3d, bhi, mi);
        assert(chain_l <= tl as int && chain_t <= tt as int) by (nonlinear_arith)
            requires
                li >= 1,
                chain_l >= 0,
                0 <= chain_l <= chain_t,
                tl as int == li * chain_l,
                tt as int == li * chain_t,
        ;
    }
    let mut out: Vec<u8> = Vec::new();
    let mut spos: usize = 0;
    let mut lay: usize = 0;
    while lay < layers
        invariant
            lay <= layers,
            spos as int == lay as int * chain_l,
            out@ == swz_layers(wi, hi, di, bi, is3d, bhi, mi, lay as int, data@),
            out@.len() == lay as int * chain_t,
        decreases layers - lay,
    {
        let ghost lay_lbase = lay as int * chain_l;
        let ghost lay_pre = out@;
        proof {
            assert((lay + 1) as int * chain_l <= li * chain_l && (lay + 1) as int * chain_t <= li
                * chain_t && (lay + 1) as int * chain_l == lay as int * chain_l + chain_l && (lay
                + 1) as int * chain_t == lay as int * chain_t + chain_t) by (nonlinear_arith)
                requires
                    lay as int + 1 <= li,
                    chain_l >= 0,
                    chain_t >= 0,
            ;
        }
        let mut cw: usize = w;
        let mut ch: usize = h;
        let mut cd: usize = d;
        let mut m: usize = 0;
        while m < mips
            invariant
                m <= mips,
                cw as int == dim_at(wi, m as int),
                ch as int == dim_at(hi, m as int),
                cd as int == mip_d(di, is3d, m as int),
                spos as int == lay_lbase + lin_chain(wi, hi, di, bi, is3d, m as int),
                out@ == lay_pre + swz_mips(wi, hi, di, bi, is3d, bhi, m as int, data@, lay_lbase),
                out@.len() == lay as int * chain_t + til_chain(wi, hi, di, bi, is3d, bhi, m as int),
            decreases mips - m,
        {
            proof {
                lemma_dim_at_bounds(wi, m as int);
                lemma_dim_at_bounds(hi, m as int);
                lemma_dim_at_bounds(di, m as int);
                lemma_mip_sizes(wi, hi, di, bi, is3d, bhi, m as int);
                lemma_chain_bounds(wi, hi, di, bi, is3d, bhi, m as int);
                lemma_chain_mono(wi, hi, di, bi, is3d, bhi, m as int + 1, mi);
                lemma_chain_bounds(wi, hi, di, bi, is3d, bhi, m as int + 1);
            }
            let ghost lmip = lin_mip(wi, hi, di, bi, is3d, m as int);
            let ghost tmip = til_mip(wi, hi, di, bi, is3d, bhi, m as int);
            proof {
                assert(cw as int * bi <= lmip && lmip == cd as int * ((ch as int) * (cw as int
                    * bi))) by (nonlinear_arith)
                    requires
                        cw as int == dim_at(wi, m as int),
                        ch as int == dim_at(hi, m as int),
                        cd as int == mip_d(di, is3d, m as int),
                        cw >= 1,
                        ch >= 1,
                        cd >= 1,
                        bi >= 1,
                        lmip == mip_d(di, is3d, m as int) * (mip_h(hi, m as int) * mip_wb(
                            wi,
                            bi,
                            m as int,
                        )),
                ;
                assert(lmip <= chain_l && tmip <= chain_t);
            }
            let wbv: usize = cw * bpe;
            let ebh = eff_bh_exec(bh0, ch);
            let ghost surf = surf_size(wbv as int, ch as int, ebh as int);
            proof {
                assert(ebh as int == mip_bh(bhi, hi, m as int));
                assert(tmip == cd as int * surf);
                assert(cd * (ch * wbv) == lmip) by (nonlinear_arith)
                    requires
                        wbv as int == cw as int * bi,
                        lmip == cd as int * ((ch as int) * (cw as int * bi)),
                ;
                assert(spos as int + lmip <= tl as int);
                assert(out@.len() + tmip <= tt as int);
            }
            let newpos = swizzle_mip(data, spos, wbv, ch, ebh, cd, &mut out);
            spos = newpos;
            proof {
                lemma_swz_slices_len(
                    wbv as int,
                    ch as int,
                    ebh as int,
                    cd as int,
                    data@,
                    lay_lbase + lin_chain(wi, hi, di, bi, is3d, m as int),
                );
                assert(out@ =~= lay_pre + swz_mips(
                    wi,
                    hi,
                    di,
                    bi,
                    is3d,
                    bhi,
                    m as int + 1,
                    data@,
                    lay_lbase,
                ));
            }
            let nw = if cw / 2 >= 1 {
                cw / 2
            } else {
                1
            };
            let nh = if ch / 2 >= 1 {
                ch / 2
            } else {
                1
            };
            cw = nw;
            ch = nh;
            if is3d {
                let nd = if cd / 2 >= 1 {
                    cd / 2
                } else {
                    1
                };
                cd = nd;
            }
            m = m + 1;
        }
        proof {
            assert(out@ =~= swz_layers(wi, hi, di, bi, is3d, bhi, mi, lay as int + 1, data@));
        }
        lay = lay + 1;
    }
    out
}

/// Gathers every tiled mip level of every array layer back, in order.
#[verifier::loop_isolation(false)]
#[verifier::rlimit(100)]
fn deswizzle_block_linear(
    w: usize,
    h: usize,
    d: usize,
    bpe: usize,
    is3d: bool,
    bh0: usize,
    mips: usize,
    layers: usize,
    tl: usize,
    tt: usize,
    data: &Vec<u8>,
) -> (out: Vec<u8>)
    requires
        w >= 1,
        h >= 1,
        d >= 1,
        bpe >= 1,
        mips >= 1,
        layers >= 1,
        valid_bh(bh0 as int),
        tl as int == layers as int * lin_chain(w as int, h as int, d as int, bpe as int, is3d, mips as int),
        tt as int == layers as int * til_chain(w as int, h as int, d as int, bpe as int, is3d, bh0 as int, mips as int),
        tt as int <= data@.len(),
        tl <= usize::MAX,
        data@.len() <= usize::MAX,
    ensures
        out@ == dswz_layers(
            w as int,
            h as int,
            d as int,
            bpe as int,
            is3d,
            bh0 as int,
            mips as int,
            layers as int,
            data@,
        ),
        out@.len() == tl,
{
    let ghost wi = w as int;
    let ghost hi = h as int;
    let ghost di = d as int;
    let ghost bi = bpe as int;
    let ghost bhi = bh0 as int;
    let ghost mi = mips as int;
    let ghost li = layers as int;
    let ghost chain_l = lin_chain(wi, hi, di, bi, is3d, mi);
    let ghost chain_t = til_chain(wi, hi, di, bi, is3d, bhi, mi);
    proof {
        lemma_chain_bounds(wi, hi, di, bi, is3d, bhi, mi);
        assert(chain_l <= tl as int && chain_t <= tt as int) by (nonlinear_arith)
            requires
                li >= 1,
                chain_l >= 0,
                0 <= chain_l <= chain_t,
                tl as int == li * chain_l,
                tt as int == li * chain_t,
        ;
    }
    let mut out: Vec<u8> = Vec::new();
    let mut spos: usize = 0;
    let mut lay: usize = 0;
    while lay < layers
        invariant
            lay <= layers,
            spos as int == lay as int * chain_t,
            out@ == dswz_layers(wi, hi, di, bi, is3d, bhi, mi, lay as int, data@),
            out@.len() == lay as int * chain_l,
        decreases layers - lay,
    {
        let ghost lay_tbase = lay as int * chain_t;
        let ghost lay_pre = out@;
        proof {
            assert((lay + 1) as int * chain_l <= li * chain_l && (lay + 1) as int * chain_t <= li
                * chain_t && (lay + 1) as int * chain_l == lay as int * chain_l + chain_l && (lay
                + 1) as int * chain_t == lay as int * chain_t + chain_t) by (nonlinear_arith)
                requires
                    lay as int + 1 <= li,
                    chain_l >= 0,
                    chain_t >= 0,
            ;
        }
        let mut cw: usize = w;
        let mut ch: usize = h;
        let mut cd: usize = d;
        let mut m: usize = 0;
        while m < mips
            invariant
                m <= mips,
                cw as int == dim_at(wi, m as int),
                ch as int == dim_at(hi, m as int),
                cd as int == mip_d(di, is3d, m as int),
                spos as int == lay_tbase + til_chain(wi, hi, di, bi, is3d, bhi, m as int),
                out@ == lay_pre + dswz_mips(wi, hi, di, bi, is3d, bhi, m as int, data@, lay_tbase),
                out@.len() == lay as int * chain_l + lin_chain(wi, hi, di, bi, is3d, m as int),
            decreases mips - m,
        {
            proof {
                lemma_dim_at_bounds(wi, m as int);
                lemma_dim_at_bounds(hi, m as int);
                lemma_dim_at_bounds(di, m as int);
                lemma_mip_sizes(wi, hi, di, bi, is3d, bhi, m as int);
                lemma_chain_bounds(wi, hi, di, bi, is3d, bhi, m as int);
                lemma_chain_mono(wi, hi, di, bi, is3d, bhi, m as int + 1, mi);
                lemma_chain_bounds(wi, hi, di, bi, is3d, bhi, m as int + 1);
            }
            let ghost lmip = lin_mip(wi, hi, di, bi, is3d, m as int);
            let ghost tmip = til_mip(wi, hi, di, bi, is3d, bhi, m as int);
            proof {
                assert(cw as int * bi <= lmip && lmip == cd as int * ((ch as int) * (cw as int
                    * bi))) by (nonlinear_arith)
                    requires
                        cw as int == dim_at(wi, m as int),
                        ch as int == dim_at(hi, m as int),
                        cd as int == mip_d(di, is3d, m as int),
                        cw >= 1,
                        ch >= 1,
                        cd >= 1,
                        bi >= 1,
                        lmip == mip_d(di, is3d, m as int) * (mip_h(hi, m as int) * mip_wb(
                            wi,
                            bi,
                            m as int,
                        )),
                ;
                assert(lmip <= chain_l && tmip <= chain_t);
            }
            let wbv: usize = cw * bpe;
            let ebh = eff_bh_exec(bh0, ch);
            let ghost surf = surf_size(wbv as int, ch as int, ebh as int);
            proof {
                assert(ebh as int == mip_bh(bhi, hi, m as int));
                assert(tmip == cd as int * surf);
                assert(cd * (ch * wbv) == lmip) by (nonlinear_arith)
                    requires
                        wbv as int == cw as int * bi,
                        lmip == cd as int * ((ch as int) * (cw as int * bi)),
                ;
                assert(spos as int + tmip <= tt as int);
                assert(out@.len() + lmip <= tl as int);
            }
            let newpos = deswizzle_mip(data, spos, wbv, ch, ebh, cd, &mut out);
            spos = newpos;
            proof {
                lemma_dswz_slices_len(
                    wbv as int,
                    ch as int,
                    ebh as int,
                    cd as int,
                    data@,
                    lay_tbase + til_chain(wi, hi, di, bi, is3d, bhi, m as int),
                );
                assert(out@ =~= lay_pre + dswz_mips(
                    wi,
                    hi,
                    di,
                    bi,
                    is3d,
                    bhi,
                    m as int + 1,
                    data@,
                    lay_tbase,
                ));
            }
            let nw = if cw / 2 >= 1 {
                cw / 2
            } else {
                1
            };
            let nh = if ch / 2 >= 1 {
                ch / 2
            } else {
                1
            };
            cw = nw;
            ch = nh;
            if is3d {
                let nd = if cd / 2 >= 1 {
                    cd / 2
                } else {
                    1
                };
                cd = nd;
            }
            m = m + 1;
        }
        proof {
            assert(out@ =~= dswz_layers(wi, hi, di, bi, is3d, bhi, mi, lay as int + 1, data@));
        }
        lay = lay + 1;
    }
    out
}

/// Scatters row-major pixel data into the GPU's tiled layout: every mip
/// level of every array layer in order, each slice tiled on its own.
/// Tile mode 1 is the linear layout, where the transform is the identity.
#[verifier::loop_isolation(false)]
#[verifier::rlimit(100)]
pub fn swizzle(
    width: u32,
    height: u32,
    depth: u32,
    block_height_log2: u32,
    mip_count: u32,
    layer_count: u32,
    is_3d: bool,
    bytes_per_element: u32,
    tile_mode: u16,
    data: &Vec<u8>,
) -> (r: Result<Vec<u8>, SwizzleError>)
    ensures
        ({
            let sr = spec_swizzle(
                width as int,
                height as int,
                depth as int,
                block_height_log2 as int,
                mip_count as int,
                layer_count as int,
                is_3d,
                bytes_per_element as int,
                tile_mode as int,
                data@,
            );
            match r {
                Ok(v) => sr == Ok::<Seq<u8>, SwizzleError>(v@),
                Err(e) => sr == Err::<Seq<u8>, SwizzleError>(e),
            }
        }),
{
    if width == 0 || height == 0 || depth == 0 || mip_count == 0 || layer_count == 0
        || bytes_per_element == 0 {
        return Err(SwizzleError::ZeroSize);
    }
    if block_height_log2 > 5 {
        return Err(SwizzleError::BlockHeightOutOfRange);
    }
    let w = width as usize;
    let h = height as usize;
    let d = depth as usize;
    let bpe = bytes_per_element as usize;
    let mips = mip_count as usize;
    let layers = layer_count as usize;
    let bh0 = bh_from_log2(block_height_log2);
    let ghost wi = w as int;
    let ghost hi = h as int;
    let ghost di = d as int;
    let ghost bi = bpe as int;
    let ghost bhi = bh0 as int;
    let ghost mi = mips as int;
    let ghost li = layers as int;
    let ghost chain_l = lin_chain(wi, hi, di, bi, is_3d, mi);
    let ghost chain_t = til_chain(wi, hi, di, bi, is_3d, bhi, mi);
    let (lin_opt, til_opt) = compute_sizes(w, h, d, bpe, is_3d, bh0, mips, layers);
    if tile_mode == 1 {
        match lin_opt {
            None => Err(SwizzleError::TooLarge),
            Some(tl) => {
                proof {
                    lemma_chain_bounds(wi, hi, di, bi, is_3d, bhi, mi);
                    assert(li * chain_l >= 0) by (nonlinear_arith)
                        requires
                            li >= 1,
                            chain_l >= 0,
                    ;
                }
                if data.len() != tl {
                    Err(SwizzleError::SourceSizeMismatch)
                } else {
                    let mut out: Vec<u8> = Vec::new();
                    crate::bytes::push_bytes(&mut out, data);
                    assert(out@ =~= data@);
                    Ok(out)
                }
            },
        }
    } else {
        let (tl, tt) = match (lin_opt, til_opt) {
            (Some(a), Some(b)) => (a, b),
            _ => {
                return Err(SwizzleError::TooLarge);
            },
        };
        if data.len() != tl {
            return Err(SwizzleError::SourceSizeMismatch);
        }
        proof {
            lemma_chain_bounds(wi, hi, di, bi, is_3d, bhi, mi);
            assert(li * chain_l >= 0 && li * chain_t >= 0) by (nonlinear_arith)
                requires
                    li >= 1,
                    0 <= chain_l <= chain_t,
            ;
        }
        let out = swizzle_block_linear(w, h, d, bpe, is_3d, bh0, mips, layers, tl, tt, data);
        proof {
            let sr = spec_swizzle(
                width as int,
                height as int,
                depth as int,
                block_height_log2 as int,
                mip_count as int,
                layer_count as int,
                is_3d,
                bytes_per_element as int,
                tile_mode as int,
                data@,
            );
            assert(li * chain_l <= usize::MAX as int && li * chain_t <= usize::MAX as int);
            assert(data@.len() == li * chain_l);
            assert(sr == Ok::<Seq<u8>, SwizzleError>(
                swz_layers(wi, hi, di, bi, is_3d, bhi, mi, li, data@),
            ));
            assert(out@ == swz_layers(wi, hi, di, bi, is_3d, bhi, mi, li, data@));
        }
        Ok(out)
    }
}

/// Gathers tiled texel data back into row-major order: the inverse of
/// `swizzle` on every byte the surfaces actually hold.
#[verifier::loop_isolation(false)]
#[verifier::rlimit(100)]
pub fn deswizzle(
    width: u32,
    height: u32,
    depth: u32,
    block_height_log2: u32,
    mip_count: u32,
    layer_count: u32,
    is_3d: bool,
    bytes_per_element: u32,
    tile_mode: u16,
    data: &Vec<u8>,
) -> (r: Result<Vec<u8>, SwizzleError>)
    ensures
        ({
            let sr = spec_deswizzle(
                width as int,
                height as int,
                depth as int,
                block_height_log2 as int,
                mip_count as int,
                layer_count as int,
                is_3d,
                bytes_per_element as int,
                tile_mode as int,
                data@,
            );
            match r {
                Ok(v) => sr == Ok::<Seq<u8>, SwizzleError>(v@),
                Err(e) => sr == Err::<Seq<u8>, SwizzleError>(e),
            }
        }),
{
    if width == 0 || height == 0 || depth == 0 || mip_count == 0 || layer_count == 0
        || bytes_per_element == 0 {
        return Err(SwizzleError::ZeroSize);
    }
    if block_height_log2 > 5 {
        return Err(SwizzleError::BlockHeightOutOfRange);
    }
    let w = width as usize;
    let h = height as usize;
    let d = depth as usize;
    let bpe = bytes_per_element as usize;
    let mips = mip_count as usize;
    let layers = layer_count as usize;
    let bh0 = bh_from_log2(block_height_log2);
    let ghost wi = w as int;
    let ghost hi = h as int;
    let ghost di = d as int;
    let ghost bi = bpe as int;
    let ghost bhi = bh0 as int;
    let ghost mi = mips as int;
    let ghost li = layers as int;
    let ghost chain_l = lin_chain(wi, hi, di, bi, is_3d, mi);
    let ghost chain_t = til_chain(wi, hi, di, bi, is_3d, bhi, mi);
    let (lin_opt, til_opt) = compute_sizes(w, h, d, bpe, is_3d, bh0, mips, layers);
    if tile_mode == 1 {
        match lin_opt {
            None => Err(SwizzleError::TooLarge),
            Some(tl) => {
                proof {
                    lemma_chain_bounds(wi, hi, di, bi, is_3d, bhi, mi);
                    assert(li * chain_l >= 0) by (nonlinear_arith)
                        requires
                            li >= 1,
                            chain_l >= 0,
                    ;
                }
                if data.len() < tl {
                    Err(SwizzleError::SourceSizeMismatch)
                } else {
                    let mut out: Vec<u8> = Vec::new();
                    let mut k: usize = 0;
                    while k < tl
                        invariant
                            k <= tl,
                            tl <= data@.len(),
                            out@ == data@.subrange(0, k as int),
                        decreases tl - k,
                    {
                        out.push(data[k]);
                        assert(out@ =~= data@.subrange(0, k as int + 1));
                        k = k + 1;
                    }
                    Ok(out)
                }
            },
        }
    } else {
        let (tl, tt) = match (lin_opt, til_opt) {
            (Some(a), Some(b)) => (a, b),
            _ => {
                return Err(SwizzleError::TooLarge);
            },
        };
        proof {
            lemma_chain_bounds(wi, hi, di, bi, is_3d, bhi, mi);
            assert(li * chain_l >= 0 && li * chain_t >= 0) by (nonlinear_arith)
                requires
                    li >= 1,
                    0 <= chain_l <= chain_t,
            ;
        }
        if data.len() < tt {
            return Err(SwizzleError::SourceSizeMismatch);
        }
        let dlen: usize = data.len();
        let out = deswizzle_block_linear(w, h, d, bpe, is_3d, bh0, mips, layers, tl, tt, data);
        proof {
            let sr = spec_deswizzle(
                width as int,
                height as int,
                depth as int,
                block_height_log2 as int,
                mip_count as int,
                layer_count as int,
                is_3d,
                bytes_per_element as int,
                tile_mode as int,
                data@,
            );
            assert(li * chain_l <= usize::MAX as int && li * chain_t <= usize::MAX as int);
            assert(data@.len() >= li * chain_t);
            assert(sr == Ok::<Seq<u8>, SwizzleError>(
                dswz_layers(wi, hi, di, bi, is_3d, bhi, mi, li, data@),
            ));
            assert(out@ == dswz_layers(wi, hi, di, bi, is_3d, bhi, mi, li, data@));
        }
        Ok(out)
    }
}

} // verus!

verus! {

/// Law: deswizzling a swizzled pixel buffer gives the buffer back.  For a
/// single-level, single-layer surface of any positive width, height and
/// element size, in either tile mode, `swizzle` succeeds and `deswizzle` of
/// its output returns the input, byte for byte.
pub proof fn lemma_deswizzle_inverts_swizzle(
    w: int,
    h: int,
    log2: int,
    bpe: int,
    tm: int,
    data: Seq<u8>,
)
    requires
        1 <= w,
        1 <= h,
        1 <= bpe,
        0 <= log2 <= 5,
        data.len() == h * (w * bpe),
        til_chain(w, h, 1, bpe, false, bh_of_log2(log2), 1) <= usize::MAX,
    ensures
        spec_swizzle(w, h, 1, log2, 1, 1, false, bpe, tm, data) is Ok,
        spec_swizzle(w, h, 1, log2, 1, 1, false, bpe, tm, data) matches Ok(til) ==> spec_deswizzle(
            w,
            h,
            1,
            log2,
            1,
            1,
            false,
            bpe,
            tm,
            til,
        ) == Ok::<Seq<u8>, SwizzleError>(data),
{
    let bh0 = bh_of_log2(log2);
    let wb = w * bpe;
    let ebh = eff_bh(bh0, h);
    assert(valid_bh(bh0));
    lemma_eff_bh_props(bh0, h);
    assert(wb >= 1) by (nonlinear_arith)
        requires
            w >= 1,
            bpe >= 1,
            wb == w * bpe,
    ;
    assert(lin_chain(w, h, 1, bpe, false, 0) == 0);
    assert(til_chain(w, h, 1, bpe, false, bh0, 0) == 0);
    assert(swz_layers(w, h, 1, bpe, false, bh0, 1, 0, data) =~= Seq::<u8>::empty());
    assert(swz_mips(w, h, 1, bpe, false, bh0, 0, data, 0) =~= Seq::<u8>::empty());
    assert(swz_slices(wb, h, eff_bh(bh0, h), 0, data, 0) =~= Seq::<u8>::empty());
    assert(dim_at(w, 0) == w && dim_at(h, 0) == h);
    assert(mip_wb(w, bpe, 0) == wb && mip_h(h, 0) == h && mip_d(1, false, 0) == 1);
    assert(mip_bh(bh0, h, 0) == ebh);
    let lmip = lin_mip(w, h, 1, bpe, false, 0);
    assert(lmip == 1 * (h * wb));
    assert(lmip == h * wb) by (nonlinear_arith)
        requires
            lmip == 1 * (h * wb),
    ;
    let lc = lin_chain(w, h, 1, bpe, false, 1);
    assert(lc == 0 + lmip);
    let tmip = til_mip(w, h, 1, bpe, false, bh0, 0);
    let surf = surf_size(wb, h, ebh);
    assert(tmip == 1 * surf);
    assert(tmip == surf) by (nonlinear_arith)
        requires
            tmip == 1 * surf,
    ;
    let tc = til_chain(w, h, 1, bpe, false, bh0, 1);
    assert(tc == 0 + tmip);
    lemma_surf_pos(wb, h, ebh);
    lemma_surf_lower(wb, h, ebh);
    assert(1 * lc == lc && 1 * tc == tc) by (nonlinear_arith);

    if tm == 1 {
        let sr = spec_swizzle(w, h, 1, log2, 1, 1, false, bpe, tm, data);
        assert(sr == Ok::<Seq<u8>, SwizzleError>(data));
        assert(data.subrange(0, lc) =~= data);
        assert(spec_deswizzle(w, h, 1, log2, 1, 1, false, bpe, tm, data) == Ok::<
            Seq<u8>,
            SwizzleError,
        >(data));
    } else {
        let til = swz_layers(w, h, 1, bpe, false, bh0, 1, 1, data);
        let sr = spec_swizzle(w, h, 1, log2, 1, 1, false, bpe, tm, data);
        assert(sr == Ok::<Seq<u8>, SwizzleError>(til));
        // One layer, one level, one slice: the chain collapses to one surface.
        assert(0 * lc == 0 && 0 * surf == 0 && 0 * (h * wb) == 0 && 1 * (h * wb) == h * wb && 1
            * surf == surf) by (nonlinear_arith);
        assert(data.subrange(0 + 0 * (h * wb), 0 + 1 * (h * wb)) =~= data);
        let sur = swz_surface(wb, h, ebh, data.subrange(0 + 0 * (h * wb), 0 + 1 * (h * wb)));
        assert(swz_slices(wb, h, ebh, 1, data, 0) =~= sur);
        assert(swz_mips(w, h, 1, bpe, false, bh0, 1, data, 0) =~= sur);
        assert(til =~= sur);
        assert(til =~= swz_surface(wb, h, ebh, data));
        assert(til.len() == surf);
        // Deswizzling it gathers that one surface back.
        let ds = dswz_layers(w, h, 1, bpe, false, bh0, 1, 1, til);
        assert(dswz_layers(w, h, 1, bpe, false, bh0, 1, 0, til) =~= Seq::<u8>::empty());
        assert(dswz_mips(w, h, 1, bpe, false, bh0, 0, til, 0) =~= Seq::<u8>::empty());
        assert(dswz_slices(wb, h, ebh, 0, til, 0) =~= Seq::<u8>::empty());
        assert(til.subrange(0 + 0 * surf, 0 + 1 * surf) =~= til);
        let bak = dswz_surface(wb, h, ebh, til.subrange(0 + 0 * surf, 0 + 1 * surf));
        assert(dswz_slices(wb, h, ebh, 1, til, 0) =~= bak);
        assert(dswz_mips(w, h, 1, bpe, false, bh0, 1, til, 0) =~= bak);
        assert(ds =~= bak);
        lemma_surface_round_trip(wb, h, ebh, data);
        assert(dswz_surface(wb, h, ebh, swz_surface(wb, h, ebh, data)) == data);
        assert(bak == dswz_surface(wb, h, ebh, til));
        assert(ds == data);
        assert(spec_deswizzle(w, h, 1, log2, 1, 1, false, bpe, tm, til) == Ok::<
            Seq<u8>,
            SwizzleError,
        >(ds));
    }
}

/// Law: a deswizzled buffer holds exactly the row-major bytes of every level
/// and layer: `layers * lin_chain(..)` bytes, which for a single-level,
/// single-layer surface is depth times height times width times element size.
pub proof fn lemma_deswizzle_output_length(
    w: int,
    h: int,
    d: int,
    log2: int,
    mips: int,
    layers: int,
    is3d: bool,
    bpe: int,
    tm: int,
    data: Seq<u8>,
)
    requires
        1 <= w,
        1 <= h,
        1 <= d,
        1 <= bpe,
        1 <= mips,
        1 <= layers,
        0 <= log2 <= 5,
    ensures
        spec_deswizzle(w, h, d, log2, mips, layers, is3d, bpe, tm, data) matches Ok(v) ==> v.len()
            == layers * lin_chain(w, h, d, bpe, is3d, mips),
        mips == 1 && layers == 1 ==> layers * lin_chain(w, h, d, bpe, is3d, mips) == d * (h * (w
            * bpe)),
{
    let bh0 = bh_of_log2(log2);
    assert(valid_bh(bh0));
    lemma_chain_bounds(w, h, d, bpe, is3d, bh0, mips);
    let sr = spec_deswizzle(w, h, d, log2, mips, layers, is3d, bpe, tm, data);
    if sr is Ok {
        if tm == 1 {
        } else {
            lemma_dswz_layers_len(w, h, d, bpe, is3d, bh0, mips, layers, data);
        }
    }
    if mips == 1 && layers == 1 {
        assert(mip_d(d, is3d, 0) == d && mip_h(h, 0) == h && mip_wb(w, bpe, 0) == w * bpe);
        assert(lin_chain(w, h, d, bpe, is3d, 0) == 0);
        assert(lin_mip(w, h, d, bpe, is3d, 0) == d * (h * (w * bpe)));
        assert(lin_chain(w, h, d, bpe, is3d, 1) == 0 + lin_mip(w, h, d, bpe, is3d, 0));
        assert(1 * lin_chain(w, h, d, bpe, is3d, 1) == lin_chain(w, h, d, bpe, is3d, 1))
            by (nonlinear_arith);
    }
}

} // verus!
