//! Rendering the grid into an RGB raster, and encoding a raster as a BMP
//! image.

use vstd::prelude::*;
use vstd::arithmetic::div_mod::{
    lemma_div_is_ordered, lemma_div_multiples_vanish, lemma_fundamental_div_mod,
    lemma_fundamental_div_mod_converse,
};
use crate::agent::UNIT;
use crate::grid::{Grid, root_of};
use crate::stats::{Statistics, ratio};

verus! {

/// The most pixels a frame may have.
pub const MAX_FRAME_PIXELS: u64 = 0x400_0000;

/// Component `c` (0 red, 1 green, 2 blue) of `color`.
pub open spec fn component(color: (u8, u8, u8), c: int) -> u8 {
    if c == 0 {
        color.0
    } else if c == 1 {
        color.1
    } else {
        color.2
    }
}

/// Byte `i` of a `w`-pixel-wide RGB raster lies in the rectangle
/// `[x0, x1) × [y0, y1)`.
pub open spec fn in_rect(i: int, w: int, x0: int, y0: int, x1: int, y1: int) -> bool {
    let p = i / 3;
    &&& x0 <= p % w < x1
    &&& y0 <= p / w < y1
}

/// A byte painted with color component `c`: replaced by it, or blended as
/// one fifth of the old value and four fifths of `c` (rounded down).
pub open spec fn paint(old: u8, c: u8, blend: bool) -> u8 {
    if blend {
        ((2 * old + 8 * c) / 10) as u8
    } else {
        c
    }
}

/// `frame` with the rectangle `[x0, x1) × [y0, y1)` painted in `color`.
pub open spec fn paint_rect(
    frame: Seq<u8>,
    w: int,
    x0: int,
    y0: int,
    x1: int,
    y1: int,
    color: (u8, u8, u8),
    blend: bool,
) -> Seq<u8> {
    Seq::new(
        frame.len(),
        |i: int|
            if in_rect(i, w, x0, y0, x1, y1) {
                paint(frame[i], component(color, i % 3), blend)
            } else {
                frame[i]
            },
    )
}

/// `frame` with the rectangle `[x0, x1) × [y0, y1)` filled with `color`.
pub open spec fn fill_rect(
    frame: Seq<u8>,
    w: int,
    x0: int,
    y0: int,
    x1: int,
    y1: int,
    color: (u8, u8, u8),
) -> Seq<u8> {
    paint_rect(frame, w, x0, y0, x1, y1, color, false)
}

/// The smaller of two integers.
pub open spec fn min_of(a: int, b: int) -> int {
    if a < b {
        a
    } else {
        b
    }
}

/// Where byte `c` of pixel (`px`, `py`) of a `w`-wide raster lies.
proof fn lemma_pixel_index(px: int, py: int, c: int, w: int)
    requires
        0 <= px < w,
        0 <= py,
        0 <= c < 3,
    ensures
        ((py * w + px) * 3 + c) / 3 == py * w + px,
        ((py * w + px) * 3 + c) % 3 == c,
        (py * w + px) % w == px,
        (py * w + px) / w == py,
{
    lemma_fundamental_div_mod_converse((py * w + px) * 3 + c, 3, py * w + px, c);
    lemma_fundamental_div_mod_converse(py * w + px, w, py, px);
}

fn paint_byte(old: u8, c: u8, blend: bool) -> (r: u8)
    ensures
        r == paint(old, c, blend),
{
    if blend {
        ((2 * (old as u16) + 8 * (c as u16)) / 10) as u8
    } else {
        c
    }
}

/// Paints the rectangle `[x0, x1) × [y0, y1)` of a `w` by `h` raster.
pub fn paint_rect_exec(
    frame: &mut Vec<u8>,
    w: u32,
    h: u32,
    x0: u32,
    y0: u32,
    x1: u32,
    y1: u32,
    color: (u8, u8, u8),
    blend: bool,
)
    requires
        old(frame)@.len() == w as int * h as int * 3,
        w as int * h as int <= MAX_FRAME_PIXELS,
        x1 <= w,
        y1 <= h,
    ensures
        final(frame)@ == paint_rect(
            old(frame)@,
            w as int,
            x0 as int,
            y0 as int,
            x1 as int,
            y1 as int,
            color,
            blend,
        ),
{
    let ghost f0 = frame@;
    let mut py: u32 = y0;
    while py < y1
        invariant
            frame@.len() == f0.len(),
            f0.len() == w as int * h as int * 3,
            w as int * h as int <= MAX_FRAME_PIXELS,
            x1 <= w,
            y1 <= h,
            y0 <= py,
            py <= y1 || py == y0,
            frame@ == paint_rect(f0, w as int, x0 as int, y0 as int, x1 as int, if py < y1 { py as int } else { y1 as int }, color, blend),
        decreases y1 - py,
    {
        let ghost row0 = frame@;
        let mut px: u32 = x0;
        while px < x1
            invariant
                frame@.len() == f0.len(),
                f0.len() == w as int * h as int * 3,
                w as int * h as int <= MAX_FRAME_PIXELS,
                x1 <= w,
                py < y1 <= h,
                y0 <= py,
                x0 <= px,
                px <= x1 || px == x0,
                row0 == paint_rect(f0, w as int, x0 as int, y0 as int, x1 as int, py as int, color, blend),
                frame@ == paint_rect(row0, w as int, x0 as int, py as int, if px < x1 { px as int } else { x1 as int }, py as int + 1, color, blend),
            decreases x1 - px,
        {
            assert((py as int * w as int + px as int) * 3 + 2 < w as int * h as int * 3) by (nonlinear_arith)
                requires
                    px < w,
                    py < h,
            ;
            let base: usize = ((py as usize) * (w as usize) + px as usize) * 3;
            let ghost before = frame@;
            let v0 = paint_byte(frame[base], color.0, blend);
            frame.set(base, v0);
            let v1 = paint_byte(frame[base + 1], color.1, blend);
            frame.set(base + 1, v1);
            let v2 = paint_byte(frame[base + 2], color.2, blend);
            frame.set(base + 2, v2);
            proof {
                lemma_pixel_index(px as int, py as int, 0, w as int);
                lemma_pixel_index(px as int, py as int, 1, w as int);
                lemma_pixel_index(px as int, py as int, 2, w as int);
                let target = paint_rect(row0, w as int, x0 as int, py as int, px as int + 1, py as int + 1, color, blend);
                assert forall|i: int| 0 <= i < frame@.len() implies #[trigger] frame@[i] == target[i] by {
                    if base <= i < base + 3 {
                        lemma_pixel_index(px as int, py as int, i - base, w as int);
                    } else {
                        let p = i / 3;
                        lemma_fundamental_div_mod(p, w as int);
                        lemma_fundamental_div_mod(i, 3);
                        if p % (w as int) == px as int && p / (w as int) == py as int {
                            assert(p == py as int * w as int + px as int) by (nonlinear_arith)
                                requires
                                    p == (w as int) * (p / (w as int)) + p % (w as int),
                                    p % (w as int) == px as int,
                                    p / (w as int) == py as int,
                            ;
                            assert(false);
                        }
                    }
                }
                assert(frame@ =~= target);
            }
            px = px + 1;
        }
        proof {
            let next = paint_rect(f0, w as int, x0 as int, y0 as int, x1 as int, py as int + 1, color, blend);
            assert forall|i: int| 0 <= i < frame@.len() implies #[trigger] frame@[i] == next[i] by {}
            assert(frame@ =~= next);
        }
        py = py + 1;
    }
    proof {
        if y0 >= y1 {
            assert(frame@ =~= paint_rect(f0, w as int, x0 as int, y0 as int, x1 as int, y1 as int, color, blend));
        }
    }
}

/// Paints a `bw` by `bh` block with its upper left corner at (`x`, `y`),
/// clipped to the raster.
pub fn draw_block(
    frame: &mut Vec<u8>,
    w: u32,
    h: u32,
    x: u32,
    y: u32,
    bw: u32,
    bh: u32,
    color: (u8, u8, u8),
)
    requires
        old(frame)@.len() == w as int * h as int * 3,
        w as int * h as int <= MAX_FRAME_PIXELS,
    ensures
        final(frame)@ == fill_rect(
            old(frame)@,
            w as int,
            x as int,
            y as int,
            min_of(x + bw, w as int),
            min_of(y + bh, h as int),
            color,
        ),
{
    let x1: u32 = if (x as u64) + (bw as u64) < w as u64 {
        x + bw
    } else {
        w
    };
    let y1: u32 = if (y as u64) + (bh as u64) < h as u64 {
        y + bh
    } else {
        h
    };
    paint_rect_exec(frame, w, h, x, y, x1, y1, color, false);
}

/// Color of an organism of `size` agents: a spectrum from dark red for
/// single agents to violet for organisms larger than ten.
pub open spec fn color_of(size: u32) -> (u8, u8, u8) {
    if size == 1 {
        (158, 1, 66)
    } else if size == 2 {
        (213, 62, 79)
    } else if size == 3 {
        (244, 109, 67)
    } else if size == 4 {
        (253, 174, 97)
    } else if size == 5 {
        (254, 224, 139)
    } else if size == 6 {
        (230, 245, 152)
    } else if size == 7 {
        (171, 221, 164)
    } else if size == 8 {
        (102, 194, 165)
    } else if size == 9 {
        (50, 136, 189)
    } else if size == 10 {
        (94, 79, 162)
    } else {
        (140, 81, 255)
    }
}

/// Color of an organism of `organism_size` agents.
pub fn agent_color(organism_size: u32) -> (r: (u8, u8, u8))
    ensures
        r == color_of(organism_size),
{
    if organism_size == 1 {
        (158, 1, 66)
    } else if organism_size == 2 {
        (213, 62, 79)
    } else if organism_size == 3 {
        (244, 109, 67)
    } else if organism_size == 4 {
        (253, 174, 97)
    } else if organism_size == 5 {
        (254, 224, 139)
    } else if organism_size == 6 {
        (230, 245, 152)
    } else if organism_size == 7 {
        (171, 221, 164)
    } else if organism_size == 8 {
        (102, 194, 165)
    } else if organism_size == 9 {
        (50, 136, 189)
    } else if organism_size == 10 {
        (94, 79, 162)
    } else {
        (140, 81, 255)
    }
}

/// Color of cell `k`: that of the organism its current root stands for.
pub open spec fn cell_color(g: &Grid, k: int) -> (u8, u8, u8) {
    color_of(g.agents@[root_of(g.agents@, k)].organism_size())
}

/// A `w` by `h` raster after painting the first `k` cells of `g`, each over
/// its share of the raster: cell (x, y) of a `gw` by `gh` grid covers
/// `[x w / gw, (x + 1) w / gw) × [y h / gh, (y + 1) h / gh)`.
pub open spec fn rendered_cells(g: &Grid, w: int, h: int, k: nat) -> Seq<u8>
    decreases k,
{
    if k == 0 {
        Seq::new((w * h * 3) as nat, |i: int| 0u8)
    } else {
        let c = k - 1;
        let gw = g.grid_width as int;
        let gh = g.grid_height as int;
        let x = c % gw;
        let y = c / gw;
        fill_rect(
            rendered_cells(g, w, h, (k - 1) as nat),
            w,
            x * w / gw,
            y * h / gh,
            (x + 1) * w / gw,
            (y + 1) * h / gh,
            cell_color(g, c),
        )
    }
}

/// The share of a `len`-pixel axis that cell `n` of `cells` covers ends
/// within the axis.
proof fn lemma_span_end(n: int, len: int, cells: int)
    requires
        0 <= n < cells,
        0 <= len,
    ensures
        (n + 1) * len / cells <= len,
        n * len / cells <= (n + 1) * len / cells,
{
    assert((n + 1) * len <= cells * len) by (nonlinear_arith)
        requires
            n + 1 <= cells,
            0 <= len,
    ;
    assert(n * len <= (n + 1) * len) by (nonlinear_arith)
        requires
            0 <= len,
    ;
    lemma_div_is_ordered((n + 1) * len, cells * len, cells);
    lemma_div_is_ordered(n * len, (n + 1) * len, cells);
    lemma_div_multiples_vanish(len, cells);
}

/// Paints every cell of the grid, colored by the size of the organism its
/// current root stands for, into a `width` by `height` raster.
pub fn render_cells(grid: &Grid, width: u32, height: u32) -> (r: Vec<u8>)
    requires
        grid.wf(),
        width as int * height as int <= MAX_FRAME_PIXELS,
    ensures
        r@ == rendered_cells(grid, width as int, height as int, grid.cells() as nat),
        r@.len() == width as int * height as int * 3,
{
    let total: usize = (width as usize) * (height as usize) * 3;
    let mut frame: Vec<u8> = Vec::new();
    let mut i: usize = 0;
    while i < total
        invariant
            i <= total,
            frame@.len() == i,
            forall|j: int| 0 <= j < i ==> #[trigger] frame@[j] == 0u8,
        decreases total - i,
    {
        frame.push(0);
        i = i + 1;
    }
    assert(frame@ =~= rendered_cells(grid, width as int, height as int, 0));
    let gw = grid.grid_width;
    let gh = grid.grid_height;
    let cells = gw * gh;
    let mut k: usize = 0;
    while k < cells
        invariant
            grid.wf(),
            gw == grid.grid_width,
            gh == grid.grid_height,
            cells == grid.cells(),
            k <= cells,
            width as int * height as int <= MAX_FRAME_PIXELS,
            frame@ == rendered_cells(grid, width as int, height as int, k as nat),
            frame@.len() == width as int * height as int * 3,
        decreases cells - k,
    {
        assert(0 < gw && gw <= 0x1000_0000 && 0 < gh && gh <= 0x1000_0000) by (nonlinear_arith)
            requires
                k < gw as int * gh as int,
                gw as int * gh as int <= 0x1000_0000,
        ;
        let x = k % gw;
        let y = k / gw;
        assert(y < gh) by (nonlinear_arith)
            requires
                k < gw as int * gh as int,
                y == k / gw,
                gw > 0,
        ;
        proof {
            lemma_span_end(x as int, width as int, gw as int);
            lemma_span_end(y as int, height as int, gh as int);
        }
        assert((x as int + 1) * (width as int) <= 0x1000_0000 * 0x1_0000_0000
            && (y as int + 1) * (height as int) <= 0x1000_0000 * 0x1_0000_0000
            && (x as int) * (width as int) <= (x as int + 1) * (width as int)
            && (y as int) * (height as int) <= (y as int + 1) * (height as int)) by (nonlinear_arith)
            requires
                x < gw,
                gw <= 0x1000_0000,
                y < gh,
                gh <= 0x1000_0000,
                width <= 0xFFFF_FFFF,
                height <= 0xFFFF_FFFF,
        ;
        let x0 = ((x as u64) * (width as u64) / (gw as u64)) as u32;
        let x1 = ((x as u64 + 1) * (width as u64) / (gw as u64)) as u32;
        let y0 = ((y as u64) * (height as u64) / (gh as u64)) as u32;
        let y1 = ((y as u64 + 1) * (height as u64) / (gh as u64)) as u32;
        let root = grid.find_root(k);
        let color = agent_color(grid.agents[root].get_organism_size());
        paint_rect_exec(&mut frame, width, height, x0, y0, x1, y1, color, false);
        k = k + 1;
    }
    frame
}

/// Width of the agent-count bar: one pixel per 25 agents, at most 100.
pub open spec fn agents_bar(s: Statistics) -> int {
    min_of(s.total_agents as int / 25, 100)
}

/// Width of the fitness bar: one pixel per 200 game units of average
/// fitness, at most 100.
pub open spec fn fitness_bar(s: Statistics) -> int {
    min_of(ratio(s.total_fitness as nat, s.total_agents as nat) as int / (200 * UNIT as int), 100)
}

/// Width of the organism bar: the percentage of agents in organisms.
pub open spec fn multi_bar(s: Statistics) -> int {
    if s.total_agents > 0 {
        min_of(s.multicellular_agents as int * 100 / s.total_agents as int, 100)
    } else {
        0
    }
}

/// `frame` under the status bar: a dark band over the top 40 rows, blended,
/// and three blocks 10 rows high from row 15 whose widths show the agent
/// count (green, from column 10), the average fitness (blue, from column
/// 130) and the share of organisms (purple, from column 250).
pub open spec fn overlaid(frame: Seq<u8>, w: int, h: int, s: Statistics) -> Seq<u8> {
    let f1 = paint_rect(frame, w, 0, 0, w, min_of(40, h), (30, 30, 30), true);
    let f2 = fill_rect(f1, w, 10, 15, min_of(10 + agents_bar(s), w), min_of(25, h), (0, 255, 0));
    let f3 = fill_rect(
        f2,
        w,
        130,
        15,
        min_of(130 + fitness_bar(s), w),
        min_of(25, h),
        (0, 100, 255),
    );
    fill_rect(f3, w, 250, 15, min_of(250 + multi_bar(s), w), min_of(25, h), (255, 0, 255))
}

/// Draws the status bar over a `width` by `height` raster.
pub fn overlay_stats(frame: &mut Vec<u8>, width: u32, height: u32, stats: &Statistics)
    requires
        old(frame)@.len() == width as int * height as int * 3,
        width as int * height as int <= MAX_FRAME_PIXELS,
    ensures
        final(frame)@ == overlaid(old(frame)@, width as int, height as int, *stats),
{
    let bar_rows: u32 = if height < 40 {
        height
    } else {
        40
    };
    paint_rect_exec(frame, width, height, 0, 0, width, bar_rows, (30, 30, 30), true);

    let agents = stats.total_agents / 25;
    let agent_width: u32 = if agents < 100 {
        agents as u32
    } else {
        100
    };
    draw_block(frame, width, height, 10, 15, agent_width, 10, (0, 255, 0));

    let per_bar: u128 = 200 * (UNIT as u128);
    let fitness = stats.avg_fitness() / per_bar;
    let fitness_width: u32 = if fitness < 100 {
        fitness as u32
    } else {
        100
    };
    draw_block(frame, width, height, 130, 15, fitness_width, 10, (0, 100, 255));

    let multi_width: u32 = if stats.total_agents > 0 {
        assert((stats.multicellular_agents as u128) * 100 <= 0xFFFF_FFFF_FFFF_FFFF * 100)
            by (nonlinear_arith)
            requires
                stats.multicellular_agents <= 0xFFFF_FFFF_FFFF_FFFF,
        ;
        let share = (stats.multicellular_agents as u128) * 100 / (stats.total_agents as u128);
        if share < 100 {
            share as u32
        } else {
            100
        }
    } else {
        0
    };
    draw_block(frame, width, height, 250, 15, multi_width, 10, (255, 0, 255));
}

/// The grid as a `width` by `height` RGB raster, with the status bar.
pub fn render_frame(grid: &Grid, stats: &Statistics, width: u32, height: u32) -> (r: Vec<u8>)
    requires
        grid.wf(),
        width as int * height as int <= MAX_FRAME_PIXELS,
    ensures
        r@ == overlaid(
            rendered_cells(grid, width as int, height as int, grid.cells() as nat),
            width as int,
            height as int,
            *stats,
        ),
{
    let mut frame = render_cells(grid, width, height);
    overlay_stats(&mut frame, width, height, stats);
    frame
}

/// The four bytes of `v` (below `2^32`), least significant first.
pub open spec fn le32(v: nat) -> Seq<u8> {
    seq![
        (v % 256) as u8,
        ((v / 256) % 256) as u8,
        ((v / 65536) % 256) as u8,
        ((v / 16777216) % 256) as u8,
    ]
}

/// The two bytes of `v` (below `2^16`), least significant first.
pub open spec fn le16(v: nat) -> Seq<u8> {
    seq![(v % 256) as u8, ((v / 256) % 256) as u8]
}

/// Bytes of one stored row of a `w`-pixel-wide 24-bit BMP image: three per
/// pixel, padded to a multiple of four.
pub open spec fn padded_row(w: nat) -> nat {
    (3 * w + (4 - (3 * w) % 4) % 4) as nat
}

/// The 54-byte header of a `w` by `h` 24-bit uncompressed BMP image at 72
/// DPI, rows stored bottom-up.
pub open spec fn bmp_header(w: nat, h: nat) -> Seq<u8> {
    let image = padded_row(w) * h;
    seq![66u8, 77u8] + le32(54 + image) + le32(0) + le32(54) + le32(40) + le32(w) + le32(h)
        + le16(1) + le16(24) + le32(0) + le32(image) + le32(2835) + le32(2835) + le32(0) + le32(0)
}

/// Byte `i` of the pixel data: stored row `i / padded_row(w)` is raster row
/// `h - 1 - i / padded_row(w)`, its pixels in blue, green, red order, then
/// zero padding.
pub open spec fn bmp_pixel(w: nat, h: nat, data: Seq<u8>, i: int) -> u8 {
    let pr = padded_row(w) as int;
    let j = i / pr;
    let off = i % pr;
    if off < 3 * w {
        data[(h - 1 - j) * (3 * w) + 3 * (off / 3) + (2 - off % 3)]
    } else {
        0
    }
}

/// The first `n` bytes of the pixel data.
pub open spec fn pixel_prefix(w: nat, h: nat, data: Seq<u8>, n: nat) -> Seq<u8> {
    Seq::new(n, |i: int| bmp_pixel(w, h, data, i))
}

/// A `w` by `h` RGB raster as a BMP file.
pub open spec fn bmp_bytes(w: nat, h: nat, data: Seq<u8>) -> Seq<u8> {
    bmp_header(w, h) + Seq::new(padded_row(w) * h, |i: int| bmp_pixel(w, h, data, i))
}

fn push_le32(out: &mut Vec<u8>, v: u64)
    requires
        v < 0x1_0000_0000,
    ensures
        final(out)@ == old(out)@ + le32(v as nat),
{
    out.push((v % 256) as u8);
    out.push(((v / 256) % 256) as u8);
    out.push(((v / 65536) % 256) as u8);
    out.push(((v / 16777216) % 256) as u8);
    assert(final(out)@ =~= old(out)@ + le32(v as nat)) by {
        assert(out@ =~= old(out)@ + le32(v as nat));
    }
}

fn push_le16(out: &mut Vec<u8>, v: u64)
    requires
        v < 0x1_0000,
    ensures
        final(out)@ == old(out)@ + le16(v as nat),
{
    out.push((v % 256) as u8);
    out.push(((v / 256) % 256) as u8);
    assert(out@ =~= old(out)@ + le16(v as nat));
}

/// Byte `c` of pixel `x` in stored row `j`, and the padding after the pixels.
proof fn lemma_bmp_pixel(w: nat, h: nat, data: Seq<u8>, j: int, off: int)
    requires
        0 <= j < h,
        0 <= off < padded_row(w),
    ensures
        off < 3 * w ==> bmp_pixel(w, h, data, j * padded_row(w) + off) == data[(h - 1 - j) * (3 * w) + 3 * (off / 3) + (2 - off % 3)],
        off >= 3 * w ==> bmp_pixel(w, h, data, j * padded_row(w) + off) == 0u8,
{
    let pr = padded_row(w) as int;
    lemma_fundamental_div_mod_converse(j * pr + off, pr, j, off);
}

/// The bytes of stored row `j`: raster row `h - 1 - j` in blue, green, red
/// order, then zero padding.
fn push_row(out: &mut Vec<u8>, width: u32, height: u32, data: &Vec<u8>, j: u64)
    requires
        (j as int) < height,
        data@.len() == width as int * height as int * 3,
        width as int * height as int <= MAX_FRAME_PIXELS,
    ensures
        final(out)@ == old(out)@ + Seq::new(
            padded_row(width as nat),
            |i: int| bmp_pixel(width as nat, height as nat, data@, j * padded_row(width as nat) + i),
        ),
{
    let ghost wn = width as nat;
    let ghost hn = height as nat;
    let ghost prn = padded_row(wn);
    let ghost o0 = old(out)@;
    let w = width as u64;
    let h = height as u64;
    let row: u64 = w * 3;
    let padding: u64 = (4 - row % 4) % 4;
    assert(row + padding == prn);
    let y = h - 1 - j;
    assert(y * row + row <= data@.len()) by (nonlinear_arith)
        requires
            y < h,
            row == 3 * w,
            data@.len() == w * h * 3,
    ;
    let n: usize = data.len();
    let start: usize = (y * row) as usize;
    let mut x: u64 = 0;
    while x < w
        invariant
            x <= w,
            w == width,
            h == height,
            y == h - 1 - j,
            (j as int) < height,
            row == 3 * w,
            row + padding == prn,
            prn == padded_row(wn),
            wn == width as nat,
            hn == height as nat,
            start == y * row,
            y * row + row <= data@.len(),
            n == data@.len(),
            out@ == o0 + Seq::new((3 * x) as nat, |i: int| bmp_pixel(wn, hn, data@, j * prn + i)),
        decreases w - x,
    {
        assert(start + 3 * x + 2 < data@.len());
        let base: usize = start + (3 * x) as usize;
        proof {
            lemma_bmp_pixel(wn, hn, data@, j as int, 3 * x as int);
            lemma_bmp_pixel(wn, hn, data@, j as int, 3 * x as int + 1);
            lemma_bmp_pixel(wn, hn, data@, j as int, 3 * x as int + 2);
            lemma_fundamental_div_mod_converse(3 * x as int, 3, x as int, 0);
            lemma_fundamental_div_mod_converse(3 * x as int + 1, 3, x as int, 1);
            lemma_fundamental_div_mod_converse(3 * x as int + 2, 3, x as int, 2);
        }
        out.push(data[base + 2]);
        out.push(data[base + 1]);
        out.push(data[base]);
        assert(out@ =~= o0 + Seq::new((3 * (x + 1)) as nat, |i: int| bmp_pixel(wn, hn, data@, j * prn + i)));
        x = x + 1;
    }
    let mut p: u64 = 0;
    while p < padding
        invariant
            p <= padding,
            row + padding == prn,
            prn == padded_row(wn),
            row == 3 * w,
            w == width,
            wn == width as nat,
            hn == height as nat,
            (j as int) < height,
            out@ == o0 + Seq::new((row + p) as nat, |i: int| bmp_pixel(wn, hn, data@, j * prn + i)),
        decreases padding - p,
    {
        proof {
            lemma_bmp_pixel(wn, hn, data@, j as int, (row + p) as int);
        }
        out.push(0);
        assert(out@ =~= o0 + Seq::new((row + p + 1) as nat, |i: int| bmp_pixel(wn, hn, data@, j * prn + i)));
        p = p + 1;
    }
}

/// Encodes a `width` by `height` RGB raster as a 24-bit BMP file.
pub fn bmp_image(width: u32, height: u32, data: &Vec<u8>) -> (r: Vec<u8>)
    requires
        data@.len() == width as int * height as int * 3,
        width as int * height as int <= MAX_FRAME_PIXELS,
    ensures
        r@ == bmp_bytes(width as nat, height as nat, data@),
{
    let w = width as u64;
    let h = height as u64;
    let row: u64 = w * 3;
    let padding: u64 = (4 - row % 4) % 4;
    let pr: u64 = row + padding;
    let ghost prn = padded_row(width as nat) as int;
    assert(pr == prn);
    if w == 0 {
        assert(pr == 0);
        assert(pr * h == 0) by (nonlinear_arith)
            requires
                pr == 0,
        ;
    } else {
        assert(pr * h <= 6 * 0x400_0000) by (nonlinear_arith)
            requires
                pr <= 3 * w + 3,
                w >= 1,
                w * h <= 0x400_0000,
        ;
    }
    let image: u64 = pr * h;
    let mut out: Vec<u8> = Vec::new();
    out.push(66);
    out.push(77);
    push_le32(&mut out, 54 + image);
    push_le32(&mut out, 0);
    push_le32(&mut out, 54);
    push_le32(&mut out, 40);
    push_le32(&mut out, w);
    push_le32(&mut out, h);
    push_le16(&mut out, 1);
    push_le16(&mut out, 24);
    push_le32(&mut out, 0);
    push_le32(&mut out, image);
    push_le32(&mut out, 2835);
    push_le32(&mut out, 2835);
    push_le32(&mut out, 0);
    push_le32(&mut out, 0);
    let ghost header = bmp_header(width as nat, height as nat);
    assert(out@ =~= header);
    let mut j: u64 = 0;
    while j < h
        invariant
            j <= h,
            w == width,
            h == height,
            pr == prn,
            prn == padded_row(width as nat),
            data@.len() == width as int * height as int * 3,
            width as int * height as int <= MAX_FRAME_PIXELS,
            header == bmp_header(width as nat, height as nat),
            out@ == header + pixel_prefix(width as nat, height as nat, data@, (j * pr) as nat),
        decreases h - j,
    {
        let ghost before = out@;
        push_row(&mut out, width, height, data, j);
        proof {
            assert((j + 1) * pr == j * pr + pr) by (nonlinear_arith);
            assert(out@ =~= header + pixel_prefix(width as nat, height as nat, data@, ((j + 1) * pr) as nat));
        }
        j = j + 1;
    }
    assert(j * pr == padded_row(width as nat) * (height as nat)) by (nonlinear_arith)
        requires
            j == h,
            h == height,
            pr == padded_row(width as nat),
    ;
    assert(out@ =~= bmp_bytes(width as nat, height as nat, data@));
    out
}

} // verus!
