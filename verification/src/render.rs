//! The compositor and the hit-tester.
//!
//! Rendering walks a decoded document and produces a deterministic sequence
//! of draw events — object order, then row-major cell and byte order.
//! Hit-testing is its inverse: it walks a sprite's objects in reverse (the
//! last-drawn object is topmost) and resolves a screen coordinate back to
//! the tile and in-tile pixel that drew it.  Out-of-range indices render
//! nothing and hit nothing; no rendering path fails.

use crate::gbacolor::GBAColor;
use crate::sfsprite::{
    DocView, FilpFlag, SFSpriteFileHeader, SFSpriteSpriteObject, SFSpriteTilesetEntry,
};
use vstd::arithmetic::power2::pow2;
use vstd::prelude::*;

verus! {

/// One draw event of the tile renderer: an in-tile coordinate, the color,
/// and the palette index it came from.
#[derive(Clone, Copy, Debug, PartialEq, Eq, Structural)]
pub struct TilePixel {
    pub x: usize,
    pub y: usize,
    pub color: GBAColor,
    pub color_index: usize,
}

/// One draw event of the sprite renderer: a screen coordinate (the
/// object's position plus the cell and pixel offset), the color, and the
/// palette index it came from.
#[derive(Clone, Copy, Debug, PartialEq, Eq, Structural)]
pub struct SpritePixel {
    pub x: isize,
    pub y: isize,
    pub color: GBAColor,
    pub color_index: usize,
}

/// What a successful hit-test resolves: the tile within the sprite's tile
/// window, the in-tile pixel index, and the object that drew it.
#[derive(Clone, Copy, Debug, PartialEq, Eq, Structural)]
pub struct HittestResult {
    pub tile_id: usize,
    pub pixel_index: usize,
    pub sprite_obj_id: usize,
}

/// The draw events of one tile, from byte index `bi` on: one event per
/// pixel byte below 16 (an index into the 16-color palette), in row-major
/// order, at `(i % 8, i / 8)`.
pub open spec fn tile_pixels_from(data: Seq<u8>, pal: Seq<GBAColor>, index: int, bi: int) -> Seq<
    TilePixel,
>
    decreases 64 - bi,
{
    if bi < 0 || bi >= 64 {
        Seq::empty()
    } else {
        let ci = data[index * 64 + bi] as int;
        let rest = tile_pixels_from(data, pal, index, bi + 1);
        if ci < 16 {
            seq![
                TilePixel {
                    x: (bi % 8) as usize,
                    y: (bi / 8) as usize,
                    color: pal[ci],
                    color_index: ci as usize,
                },
            ] + rest
        } else {
            rest
        }
    }
}

/// What `render_tile` produces: nothing when the palette or the tile index
/// is out of range, else the 64 pixel bytes of the tile as draw events,
/// skipping bytes that are no palette index.
pub open spec fn spec_render_tile(d: DocView, index: int, palette_id: int) -> Seq<TilePixel> {
    if !(0 <= palette_id < d.palette.palettes.len()) {
        Seq::empty()
    } else if !(0 <= index && (index + 1) * 64 <= d.tileset.data.len()) {
        Seq::empty()
    } else {
        tile_pixels_from(d.tileset.data, d.palette.palettes[palette_id], index, 0)
    }
}

/// Renders one 8x8 tile against one palette.  Produces exactly
/// [`spec_render_tile`]: nothing when `index` or `palette_id` is out of
/// range, else the tile's 64 pixels in row-major order, each byte below 16
/// drawn with its palette color, other bytes skipped.
pub fn render_tile_doc(doc: &SFSpriteFileHeader, index: usize, palette_id: usize) -> (r: Vec<
    TilePixel,
>)
    ensures
        r@ == spec_render_tile(doc@, index as int, palette_id as int),
{
    let mut out: Vec<TilePixel> = Vec::new();
    if palette_id >= doc.palette_header.palettes.len() {
        return out;
    }
    let data_len: usize = doc.tileset_header.tileset_data.len();
    if index > usize::MAX / 64 || index * 64 > usize::MAX - 64 || (index + 1) * 64 > data_len {
        return out;
    }
    let pal: &[GBAColor; 16] = &doc.palette_header.palettes[palette_id];
    let base: usize = index * 64;
    let ghost datav = doc@.tileset.data;
    let ghost palv = doc@.palette.palettes[palette_id as int];
    let mut bi: usize = 0;
    while bi < 64
        invariant
            0 <= bi <= 64,
            base == index * 64,
            base + 64 <= doc.tileset_header.tileset_data@.len(),
            datav == doc@.tileset.data,
            palv == pal@,
            datav == doc.tileset_header.tileset_data@,
            palv.len() == 16,
            tile_pixels_from(datav, palv, index as int, 0) == out@ + tile_pixels_from(
                datav,
                palv,
                index as int,
                bi as int,
            ),
        decreases 64 - bi,
    {
        let b: u8 = doc.tileset_header.tileset_data[base + bi];
        let ghost prev = out@;
        if b < 16 {
            out.push(
                TilePixel { x: bi % 8, y: bi / 8, color: pal[b as usize], color_index: b as usize },
            );
            proof {
                assert(prev + tile_pixels_from(datav, palv, index as int, bi as int) =~= out@
                    + tile_pixels_from(datav, palv, index as int, bi as int + 1));
            }
        } else {
            proof {
                assert(tile_pixels_from(datav, palv, index as int, bi as int) == tile_pixels_from(
                    datav,
                    palv,
                    index as int,
                    bi as int + 1,
                ));
            }
        }
        bi = bi + 1;
    }
    proof {
        assert(out@ + tile_pixels_from(datav, palv, index as int, 64) =~= out@);
    }
    out
}


/// An object's base tile index: the split 16-bit index shifted left by the
/// document's tile-number shift.
pub open spec fn base_tile_index(o: SFSpriteSpriteObject, shift: u32) -> int {
    ((o.tile_index_upper as int) * 256 + (o.tile_index_lower as int)) * (pow2(shift as nat) as int)
}

/// Which physical tile of the object's block occupies grid cell
/// `(tx, ty)`: flipping reorders whole tiles within the grid.
pub open spec fn grid_remap(flip: FilpFlag, sx: int, sy: int, tx: int, ty: int) -> int {
    match flip {
        FilpFlag::NoFlip => ty * sx + tx,
        FilpFlag::Horizontal => sx * (sy - ty - 1) + tx,
        FilpFlag::Vertical => ty * sx + (sx - tx - 1),
        FilpFlag::Both => sx * (sy - ty - 1) + (sx - tx - 1),
    }
}

/// The grid remap stays within the object's tile block.
pub proof fn lemma_grid_remap_bounds(flip: FilpFlag, sx: int, sy: int, tx: int, ty: int)
    requires
        1 <= sx,
        1 <= sy,
        0 <= tx < sx,
        0 <= ty < sy,
    ensures
        0 <= grid_remap(flip, sx, sy, tx, ty) < sx * sy,
{
    assert(0 <= ty * sx + tx < sx * sy && 0 <= sx * (sy - ty - 1) + tx < sx * sy && 0 <= ty * sx
        + (sx - tx - 1) < sx * sy && 0 <= sx * (sy - ty - 1) + (sx - tx - 1) < sx * sy)
        by (nonlinear_arith)
        requires
            1 <= sx,
            1 <= sy,
            0 <= tx < sx,
            0 <= ty < sy,
    ;
}

/// The tile (within the sprite's tile window) drawn at grid cell
/// `(tx, ty)` of an object.
pub open spec fn obj_tile_num(o: SFSpriteSpriteObject, shift: u32, tx: int, ty: int) -> int {
    base_tile_index(o, shift) + grid_remap(
        o.flip_flag,
        o.shape.spec_tile_width_amount() as int,
        o.shape.spec_tile_height_amount() as int,
        tx,
        ty,
    )
}

/// The draw event of byte `bi` of the tile at cell `(tx, ty)`: mirrored
/// pixel offsets under flipping, the byte's palette color and index.
pub open spec fn sprite_pixel_event(
    window: Seq<u8>,
    pal: Seq<GBAColor>,
    o: SFSpriteSpriteObject,
    shift: u32,
    tx: int,
    ty: int,
    bi: int,
) -> SpritePixel {
    let tn = obj_tile_num(o, shift, tx, ty);
    let ci = window[tn * 64 + bi] as int;
    let bx = bi % 8;
    let by = bi / 8;
    let lx = if o.flip_flag.spec_is_horizontal() {
        7 - bx
    } else {
        bx
    };
    let ly = if o.flip_flag.spec_is_vertical() {
        7 - by
    } else {
        by
    };
    SpritePixel {
        x: (o.x as int + 8 * tx + lx) as isize,
        y: (o.y as int + 8 * ty + ly) as isize,
        color: pal[ci],
        color_index: ci as usize,
    }
}

/// The draw events of one cell's tile from byte `bi` on: bytes that are a
/// palette index (below 16), skipping index 0 under transparency.
pub open spec fn cell_pixels_from(
    window: Seq<u8>,
    pal: Seq<GBAColor>,
    transparent: bool,
    o: SFSpriteSpriteObject,
    shift: u32,
    tx: int,
    ty: int,
    bi: int,
) -> Seq<SpritePixel>
    decreases 64 - bi,
{
    if bi < 0 || bi >= 64 {
        Seq::empty()
    } else {
        let tn = obj_tile_num(o, shift, tx, ty);
        let ci = window[tn * 64 + bi] as int;
        let rest = cell_pixels_from(window, pal, transparent, o, shift, tx, ty, bi + 1);
        if ci < 16 && (ci != 0 || !transparent) {
            seq![sprite_pixel_event(window, pal, o, shift, tx, ty, bi)] + rest
        } else {
            rest
        }
    }
}

/// The draw events of an object's cells from cell index `c` on, in
/// row-major cell order (`tx = c % sx`, `ty = c / sx`); a cell whose tile
/// lies outside the window draws nothing.
pub open spec fn obj_cells_from(
    window: Seq<u8>,
    pal: Seq<GBAColor>,
    transparent: bool,
    o: SFSpriteSpriteObject,
    shift: u32,
    c: int,
) -> Seq<SpritePixel>
    decreases (o.shape.spec_tile_width_amount() as int) * (
    o.shape.spec_tile_height_amount() as int) - c,
{
    let sx = o.shape.spec_tile_width_amount() as int;
    let sy = o.shape.spec_tile_height_amount() as int;
    if c < 0 || c >= sx * sy {
        Seq::empty()
    } else {
        let tx = c % sx;
        let ty = c / sx;
        let tn = obj_tile_num(o, shift, tx, ty);
        let cell = if 0 <= tn && (tn + 1) * 64 <= window.len() {
            cell_pixels_from(window, pal, transparent, o, shift, tx, ty, 0)
        } else {
            Seq::empty()
        };
        cell + obj_cells_from(window, pal, transparent, o, shift, c + 1)
    }
}

/// The draw events of the objects from index `oi` on, in object order.
pub open spec fn objects_events_from(
    window: Seq<u8>,
    pal: Seq<GBAColor>,
    transparent: bool,
    objects: Seq<SFSpriteSpriteObject>,
    shift: u32,
    oi: int,
) -> Seq<SpritePixel>
    decreases objects.len() - oi,
{
    if oi < 0 || oi >= objects.len() {
        Seq::empty()
    } else {
        obj_cells_from(window, pal, transparent, objects[oi], shift, 0) + objects_events_from(
            window,
            pal,
            transparent,
            objects,
            shift,
            oi + 1,
        )
    }
}

/// Whether a sprite index selects a sprite, a tile range and a tile window
/// that all lie inside the document.
pub open spec fn sprite_in_range(d: DocView, index: int) -> bool {
    &&& 0 <= index < d.sprites.len()
    &&& index < d.tileset.entries.len()
    &&& (d.tileset.entries[index].offset as int + d.tileset.entries[index].amount as int) * 64
        <= d.tileset.data.len()
}

/// The tile window of one sprite: its tile range cut out of the tile data,
/// 64 bytes per tile.
pub open spec fn sprite_window(d: DocView, index: int) -> Seq<u8> {
    d.tileset.data.subrange(
        d.tileset.entries[index].offset as int * 64,
        (d.tileset.entries[index].offset as int + d.tileset.entries[index].amount as int) * 64,
    )
}

/// What `render_sprite` produces: nothing when the sprite, its tile range
/// or the palette is out of range, else every object's cells in order.
pub open spec fn spec_render_sprite(
    d: DocView,
    index: int,
    palette_id: int,
    transparent: bool,
) -> Seq<SpritePixel> {
    if !sprite_in_range(d, index) || !(0 <= palette_id < d.palette.palettes.len()) {
        Seq::empty()
    } else {
        objects_events_from(
            sprite_window(d, index),
            d.palette.palettes[palette_id],
            transparent,
            d.sprites[index],
            shift_of(d),
            0,
        )
    }
}

/// The document's tile-number shift, as the renderer reads it.
pub open spec fn shift_of(d: DocView) -> u32 {
    d.tile_number_shift
}

/// Computes the tile drawn at cell `(tx, ty)` of an object, or nothing
/// when that tile lies outside a window of `wlen` bytes.
fn tile_number_for_cell(
    o: &SFSpriteSpriteObject,
    shift: u32,
    tx: usize,
    ty: usize,
    wlen: usize,
) -> (r: Option<usize>)
    requires
        tx < o.shape.spec_tile_width_amount(),
        ty < o.shape.spec_tile_height_amount(),
        wlen <= 64 * 0xFFFF,
    ensures
        match r {
            Some(tn) => obj_tile_num(*o, shift, tx as int, ty as int) == tn as int && (tn as int
                + 1) * 64 <= wlen,
            None => !((obj_tile_num(*o, shift, tx as int, ty as int) + 1) * 64 <= wlen),
        },
{
    let idx: u32 = ((o.tile_index_upper as u32) << 8) | (o.tile_index_lower as u32);
    proof {
        let up = o.tile_index_upper;
        let lo = o.tile_index_lower;
        assert(((up as u32) << 8) | (lo as u32) == (up as u32) * 256 + (lo as u32))
            by (bit_vector);
    }
    let sx: usize = o.shape.tile_width_amount();
    let sy: usize = o.shape.tile_height_amount();
    proof {
        crate::sfsprite::lemma_shape_grid(o.shape);
        assert(tx < sx && ty < sy && sx <= 8 && sy <= 8);
    }
    let row: usize = sy - ty - 1;
    let col: usize = sx - tx - 1;
    proof {
        assert(ty * sx <= 64 && sx * row <= 64) by (nonlinear_arith)
            requires
                0 <= ty <= 8,
                0 <= sx <= 8,
                0 <= row <= 8,
        ;
    }
    let remap: usize = match o.flip_flag {
        FilpFlag::NoFlip => ty * sx + tx,
        FilpFlag::Horizontal => sx * row + tx,
        FilpFlag::Vertical => ty * sx + col,
        FilpFlag::Both => sx * row + col,
    };
    proof {
        assert(remap == grid_remap(o.flip_flag, sx as int, sy as int, tx as int, ty as int));
        lemma_grid_remap_bounds(o.flip_flag, sx as int, sy as int, tx as int, ty as int);
    }
    let base: u64 = if idx == 0 {
        proof {
            vstd::arithmetic::power2::lemma_pow2_pos(shift as nat);
            assert(((o.tile_index_upper as int) * 256 + (o.tile_index_lower as int)) * (pow2(
                shift as nat,
            ) as int) == 0) by (nonlinear_arith)
                requires
                    (o.tile_index_upper as int) * 256 + (o.tile_index_lower as int) == 0,
            ;
        }
        0
    } else if shift >= 48 {
        proof {
            vstd::arithmetic::power2::lemma2_to64();
            vstd::arithmetic::power2::lemma2_to64_rest();
            if shift > 48 {
                vstd::arithmetic::power2::lemma_pow2_strictly_increases(48, shift as nat);
            }
            assert(pow2(shift as nat) >= pow2(48));
            assert(base_tile_index(*o, shift) >= pow2(48)) by (nonlinear_arith)
                requires
                    idx >= 1,
                    idx as int == (o.tile_index_upper as int) * 256 + (o.tile_index_lower as int),
                    pow2(shift as nat) >= pow2(48),
                    base_tile_index(*o, shift) == ((o.tile_index_upper as int) * 256 + (
                    o.tile_index_lower as int)) * (pow2(shift as nat) as int),
            ;
            assert(pow2(48) == 0x1_0000_0000_0000);
            let tns = obj_tile_num(*o, shift, tx as int, ty as int);
            assert(tns >= 0x1_0000_0000_0000);
            assert((tns + 1) * 64 > 64 * 0xFFFF);
        }
        return None;
    } else {
        proof {
            vstd::arithmetic::power2::lemma2_to64();
            vstd::arithmetic::power2::lemma2_to64_rest();
            if shift < 47 {
                vstd::arithmetic::power2::lemma_pow2_strictly_increases(shift as nat, 47);
            }
            assert(pow2(shift as nat) <= pow2(47));
            assert((idx as u64) * pow2(shift as nat) <= 0xFFFF * pow2(47)) by (nonlinear_arith)
                requires
                    idx <= 0xFFFF,
                    pow2(shift as nat) <= pow2(47),
            ;
            assert(pow2(47) == 0x8000_0000_0000);
            assert((idx as u64) * pow2(shift as nat) <= u64::MAX);
            vstd::bits::lemma_u64_shl_is_mul(idx as u64, shift as u64);
            assert(((idx as u64) << (shift as u64)) as int == (idx as int) * (pow2(
                shift as nat,
            ) as int));
        }
        (idx as u64) << (shift as u64)
    };
    proof {
        assert(base == base_tile_index(*o, shift));
    }
    let tn: u64 = base + remap as u64;
    if wlen < 64 || tn > (wlen as u64) / 64 - 1 {
        proof {
            assert(wlen >= 64 && (tn as int + 1) * 64 <= wlen ==> tn as int <= wlen as int / 64
                - 1) by (nonlinear_arith);
        }
        None
    } else {
        proof {
            assert(tn as int <= wlen as int / 64 - 1 ==> (tn as int + 1) * 64 <= wlen)
                by (nonlinear_arith);
        }
        Some(tn as usize)
    }
}

/// Renders the 64 bytes of one cell's tile.
fn render_cell(
    window: &[u8],
    pal: &[GBAColor; 16],
    transparent: bool,
    o: &SFSpriteSpriteObject,
    shift: u32,
    tx: usize,
    ty: usize,
    tn: usize,
) -> (r: Vec<SpritePixel>)
    requires
        tx < o.shape.spec_tile_width_amount(),
        ty < o.shape.spec_tile_height_amount(),
        obj_tile_num(*o, shift, tx as int, ty as int) == tn as int,
        (tn as int + 1) * 64 <= window@.len(),
    ensures
        r@ == cell_pixels_from(window@, pal@, transparent, *o, shift, tx as int, ty as int, 0),
{
    let mut out: Vec<SpritePixel> = Vec::new();
    let wl: usize = window.len();
    proof {
        assert((tn as int + 1) * 64 == tn as int * 64 + 64);
    }
    let base: usize = tn * 64;
    let horizontal: bool = o.flip_flag.is_horizontal();
    let vertical: bool = o.flip_flag.is_vertical();
    let mut bi: usize = 0;
    while bi < 64
        invariant
            0 <= bi <= 64,
            base == tn * 64,
            base + 64 <= window@.len(),
            obj_tile_num(*o, shift, tx as int, ty as int) == tn as int,
            horizontal == o.flip_flag.spec_is_horizontal(),
            vertical == o.flip_flag.spec_is_vertical(),
            tx < o.shape.spec_tile_width_amount(),
            ty < o.shape.spec_tile_height_amount(),
            cell_pixels_from(window@, pal@, transparent, *o, shift, tx as int, ty as int, 0)
                == out@ + cell_pixels_from(
                window@,
                pal@,
                transparent,
                *o,
                shift,
                tx as int,
                ty as int,
                bi as int,
            ),
        decreases 64 - bi,
    {
        let ci: u8 = window[base + bi];
        let ghost prev = out@;
        if ci < 16 && (ci != 0 || !transparent) {
            let bx: usize = bi % 8;
            let by: usize = bi / 8;
            let lx: usize = if horizontal {
                7 - bx
            } else {
                bx
            };
            let ly: usize = if vertical {
                7 - by
            } else {
                by
            };
            let ev = SpritePixel {
                x: o.x as isize + 8 * tx as isize + lx as isize,
                y: o.y as isize + 8 * ty as isize + ly as isize,
                color: pal[ci as usize],
                color_index: ci as usize,
            };
            out.push(ev);
            proof {
                assert(ev == sprite_pixel_event(
                    window@,
                    pal@,
                    *o,
                    shift,
                    tx as int,
                    ty as int,
                    bi as int,
                ));
                assert(prev + cell_pixels_from(
                    window@,
                    pal@,
                    transparent,
                    *o,
                    shift,
                    tx as int,
                    ty as int,
                    bi as int,
                ) =~= out@ + cell_pixels_from(
                    window@,
                    pal@,
                    transparent,
                    *o,
                    shift,
                    tx as int,
                    ty as int,
                    bi as int + 1,
                ));
            }
        }
        bi = bi + 1;
    }
    proof {
        assert(out@ + cell_pixels_from(
            window@,
            pal@,
            transparent,
            *o,
            shift,
            tx as int,
            ty as int,
            64,
        ) =~= out@);
    }
    out
}

/// Renders every cell of one object.
fn render_object(
    window: &[u8],
    pal: &[GBAColor; 16],
    transparent: bool,
    o: &SFSpriteSpriteObject,
    shift: u32,
) -> (r: Vec<SpritePixel>)
    requires
        window@.len() <= 64 * 0xFFFF,
    ensures
        r@ == obj_cells_from(window@, pal@, transparent, *o, shift, 0),
{
    let mut out: Vec<SpritePixel> = Vec::new();
    let sx: usize = o.shape.tile_width_amount();
    let sy: usize = o.shape.tile_height_amount();
    proof {
        crate::sfsprite::lemma_shape_grid(o.shape);
    }
    let cells: usize = sx * sy;
    let mut c: usize = 0;
    while c < cells
        invariant
            0 <= c <= cells,
            sx == o.shape.spec_tile_width_amount(),
            sy == o.shape.spec_tile_height_amount(),
            1 <= sx <= 8,
            1 <= sy <= 8,
            cells == sx * sy,
            window@.len() <= 64 * 0xFFFF,
            obj_cells_from(window@, pal@, transparent, *o, shift, 0) == out@ + obj_cells_from(
                window@,
                pal@,
                transparent,
                *o,
                shift,
                c as int,
            ),
        decreases cells - c,
    {
        let tx: usize = c % sx;
        let ty: usize = c / sx;
        proof {
            assert(ty < sy) by (nonlinear_arith)
                requires
                    1 <= sx,
                    0 <= c,
                    (c as int) < sx * sy,
                    ty as int == c as int / sx as int,
            ;
        }
        let ghost prev = out@;
        match tile_number_for_cell(o, shift, tx, ty, window.len()) {
            Some(tn) => {
                let mut cell = render_cell(window, pal, transparent, o, shift, tx, ty, tn);
                let ghost cellv = cell@;
                out.append(&mut cell);
                proof {
                    assert(prev + obj_cells_from(window@, pal@, transparent, *o, shift, c as int)
                        =~= out@ + obj_cells_from(
                        window@,
                        pal@,
                        transparent,
                        *o,
                        shift,
                        c as int + 1,
                    ));
                }
            },
            None => {
                proof {
                    lemma_grid_remap_bounds(
                        o.flip_flag,
                        sx as int,
                        sy as int,
                        tx as int,
                        ty as int,
                    );
                    assert(prev + obj_cells_from(window@, pal@, transparent, *o, shift, c as int)
                        =~= out@ + obj_cells_from(
                        window@,
                        pal@,
                        transparent,
                        *o,
                        shift,
                        c as int + 1,
                    ));
                }
            },
        }
        c = c + 1;
    }
    proof {
        assert(out@ + obj_cells_from(window@, pal@, transparent, *o, shift, cells as int) =~= out@);
    }
    out
}

/// Renders one sprite against one palette.  Produces exactly
/// [`spec_render_sprite`]: nothing when the sprite, its tile range or the
/// palette is out of range, else every object's tiles in object order and
/// row-major cell and byte order, each pixel byte below 16 drawn at the
/// flip-mirrored position with its palette color, and pixel index 0
/// suppressed when `transparent` holds.
pub fn render_sprite_doc(
    doc: &SFSpriteFileHeader,
    index: usize,
    palette_id: usize,
    transparent: bool,
) -> (r: Vec<SpritePixel>)
    ensures
        r@ == spec_render_sprite(doc@, index as int, palette_id as int, transparent),
{
    let out: Vec<SpritePixel> = Vec::new();
    if index >= doc.sprite_header.sprites.len() {
        return out;
    }
    if palette_id >= doc.palette_header.palettes.len() {
        return out;
    }
    if index >= doc.tileset_header.tileset_entries.len() {
        return out;
    }
    let entry: SFSpriteTilesetEntry = doc.tileset_header.tileset_entries[index];
    let wstart: usize = entry.offset as usize * 64;
    let wend_w: u64 = (entry.offset as u64 + entry.amount as u64) * 64;
    if wend_w > doc.tileset_header.tileset_data.len() as u64 {
        return out;
    }
    let wend: usize = wend_w as usize;
    let window: &[u8] = vstd::slice::slice_subrange(
        doc.tileset_header.tileset_data.as_slice(),
        wstart,
        wend,
    );
    proof {
        assert(window@ == sprite_window(doc@, index as int));
        assert(window@.len() <= 64 * 0xFFFF);
    }
    let pal: &[GBAColor; 16] = &doc.palette_header.palettes[palette_id];
    let shift: u32 = doc.tile_number_shift;
    let objects: &Vec<SFSpriteSpriteObject> = &doc.sprite_header.sprites[index].objects;
    let ghost objv = doc@.sprites[index as int];
    let mut out = out;
    let mut oi: usize = 0;
    while oi < objects.len()
        invariant
            0 <= oi <= objects@.len(),
            objects@ == objv,
            window@.len() <= 64 * 0xFFFF,
            shift == shift_of(doc@),
            objects_events_from(window@, pal@, transparent, objv, shift, 0) == out@
                + objects_events_from(window@, pal@, transparent, objv, shift, oi as int),
        decreases objects@.len() - oi,
    {
        let o: SFSpriteSpriteObject = objects[oi];
        let ghost prev = out@;
        let mut evs = render_object(window, pal, transparent, &o, shift);
        out.append(&mut evs);
        proof {
            assert(prev + objects_events_from(window@, pal@, transparent, objv, shift, oi as int)
                =~= out@ + objects_events_from(
                window@,
                pal@,
                transparent,
                objv,
                shift,
                oi as int + 1,
            ));
        }
        oi = oi + 1;
    }
    proof {
        assert(out@ + objects_events_from(
            window@,
            pal@,
            transparent,
            objv,
            shift,
            objv.len() as int,
        ) =~= out@);
        assert(out@ == spec_render_sprite(doc@, index as int, palette_id as int, transparent));
    }
    out
}


/// Whether an object's axis-aligned bounding box covers a screen point.
pub open spec fn box_contains(o: SFSpriteSpriteObject, hx: int, hy: int) -> bool {
    &&& o.x as int <= hx < o.x as int + o.shape.spec_width()
    &&& o.y as int <= hy < o.y as int + o.shape.spec_height()
}

/// The in-tile byte index that drew the cell-local pixel `(px, py)`,
/// inverting the flip-dependent pixel mirroring.
pub open spec fn hit_pixel_index(flip: FilpFlag, px: int, py: int) -> int {
    match flip {
        FilpFlag::NoFlip => py * 8 + px,
        FilpFlag::Horizontal => py * 8 + (7 - px),
        FilpFlag::Vertical => (7 - py) * 8 + px,
        FilpFlag::Both => (7 - py) * 8 + (7 - px),
    }
}

/// The reverse scan of a sprite's objects from index `i` down to 0: the
/// first object whose box covers the point and whose tile lies inside the
/// window yields the hit, unless its pixel is transparent index 0 under
/// transparency, in which case the scan goes on below it.
pub open spec fn hit_scan(
    window: Seq<u8>,
    objects: Seq<SFSpriteSpriteObject>,
    shift: u32,
    hx: int,
    hy: int,
    transparent: bool,
    i: int,
) -> Option<HittestResult>
    decreases i + 1,
{
    if i < 0 || i >= objects.len() {
        None
    } else {
        let o = objects[i];
        if !box_contains(o, hx, hy) {
            hit_scan(window, objects, shift, hx, hy, transparent, i - 1)
        } else {
            let px = hx - o.x as int;
            let py = hy - o.y as int;
            let tx = px / 8;
            let ty = py / 8;
            let tn = obj_tile_num(o, shift, tx, ty);
            if !(0 <= tn && (tn + 1) * 64 <= window.len()) {
                hit_scan(window, objects, shift, hx, hy, transparent, i - 1)
            } else {
                let pi = hit_pixel_index(o.flip_flag, px % 8, py % 8);
                let ci = window[tn * 64 + pi] as int;
                if ci == 0 && transparent {
                    hit_scan(window, objects, shift, hx, hy, transparent, i - 1)
                } else {
                    Some(
                        HittestResult {
                            tile_id: tn as usize,
                            pixel_index: pi as usize,
                            sprite_obj_id: i as usize,
                        },
                    )
                }
            }
        }
    }
}

/// What `hittest` resolves: nothing when the sprite or its tile range is
/// out of range, else the reverse object scan from the topmost (last)
/// object.
pub open spec fn spec_hittest(
    d: DocView,
    sprite_id: int,
    hx: int,
    hy: int,
    transparent: bool,
) -> Option<HittestResult> {
    if !sprite_in_range(d, sprite_id) {
        None
    } else {
        hit_scan(
            sprite_window(d, sprite_id),
            d.sprites[sprite_id],
            shift_of(d),
            hx,
            hy,
            transparent,
            d.sprites[sprite_id].len() - 1,
        )
    }
}

/// Hit-tests one screen coordinate against one sprite.  Resolves exactly
/// [`spec_hittest`]: objects are scanned topmost first; the first one
/// whose box covers the point and whose tile lies in the window wins,
/// unless transparency rejects its pixel and the scan continues below.
pub fn hittest_doc(
    doc: &SFSpriteFileHeader,
    sprite_id: usize,
    hit_x: isize,
    hit_y: isize,
    transparent: bool,
) -> (r: Option<HittestResult>)
    ensures
        r == spec_hittest(doc@, sprite_id as int, hit_x as int, hit_y as int, transparent),
{
    if sprite_id >= doc.sprite_header.sprites.len() {
        return None;
    }
    if sprite_id >= doc.tileset_header.tileset_entries.len() {
        return None;
    }
    let entry: SFSpriteTilesetEntry = doc.tileset_header.tileset_entries[sprite_id];
    let wstart: usize = entry.offset as usize * 64;
    let wend_w: u64 = (entry.offset as u64 + entry.amount as u64) * 64;
    if wend_w > doc.tileset_header.tileset_data.len() as u64 {
        return None;
    }
    let wend: usize = wend_w as usize;
    let window: &[u8] = vstd::slice::slice_subrange(
        doc.tileset_header.tileset_data.as_slice(),
        wstart,
        wend,
    );
    proof {
        assert(window@ == sprite_window(doc@, sprite_id as int));
        assert(window@.len() <= 64 * 0xFFFF);
    }
    let shift: u32 = doc.tile_number_shift;
    let objects: &Vec<SFSpriteSpriteObject> = &doc.sprite_header.sprites[sprite_id].objects;
    let ghost objv = doc@.sprites[sprite_id as int];
    let wlen: usize = window.len();
    let mut i: usize = objects.len();
    while i > 0
        invariant
            0 <= i <= objects@.len(),
            objects@ == objv,
            wlen == window@.len(),
            window@.len() <= 64 * 0xFFFF,
            sprite_in_range(doc@, sprite_id as int),
            window@ == sprite_window(doc@, sprite_id as int),
            objv == doc@.sprites[sprite_id as int],
            shift == shift_of(doc@),
            hit_scan(
                window@,
                objv,
                shift,
                hit_x as int,
                hit_y as int,
                transparent,
                objv.len() - 1,
            ) == hit_scan(window@, objv, shift, hit_x as int, hit_y as int, transparent, i - 1),
        decreases i,
    {
        let ii: usize = i - 1;
        let o: SFSpriteSpriteObject = objects[ii];
        let x: isize = o.x as isize;
        let y: isize = o.y as isize;
        let w: isize = o.shape.width() as isize;
        let h: isize = o.shape.height() as isize;
        proof {
            crate::sfsprite::lemma_shape_grid(o.shape);
        }
        if hit_x < x || hit_x >= x + w || hit_y < y || hit_y >= y + h {
            i = ii;
        } else {
            let px: usize = (hit_x - x) as usize;
            let py: usize = (hit_y - y) as usize;
            let tx: usize = px / 8;
            let ty: usize = py / 8;
            proof {
                assert(tx < o.shape.spec_tile_width_amount() && ty
                    < o.shape.spec_tile_height_amount()) by (nonlinear_arith)
                    requires
                        px < 8 * o.shape.spec_tile_width_amount(),
                        py < 8 * o.shape.spec_tile_height_amount(),
                        tx == px as int / 8,
                        ty == py as int / 8,
                ;
            }
            match tile_number_for_cell(&o, shift, tx, ty, wlen) {
                None => {
                    i = ii;
                },
                Some(tn) => {
                    let lx: usize = px % 8;
                    let ly: usize = py % 8;
                    let pi: usize = match o.flip_flag {
                        FilpFlag::NoFlip => ly * 8 + lx,
                        FilpFlag::Horizontal => ly * 8 + (7 - lx),
                        FilpFlag::Vertical => (7 - ly) * 8 + lx,
                        FilpFlag::Both => (7 - ly) * 8 + (7 - lx),
                    };
                    let ci: u8 = window[tn * 64 + pi];
                    if ci == 0 && transparent {
                        i = ii;
                    } else {
                        proof {
                            assert(box_contains(o, hit_x as int, hit_y as int));
                            assert(hit_scan(
                                window@,
                                objv,
                                shift,
                                hit_x as int,
                                hit_y as int,
                                transparent,
                                ii as int,
                            ) == Some(
                                HittestResult { tile_id: tn, pixel_index: pi, sprite_obj_id: ii },
                            ));
                        }
                        return Some(
                            HittestResult { tile_id: tn, pixel_index: pi, sprite_obj_id: ii },
                        );
                    }
                },
            }
        }
    }
    None
}


/// A pixel whose byte passes the emission test appears among its cell's
/// draw events.
proof fn lemma_cell_pixels_contains(
    window: Seq<u8>,
    pal: Seq<GBAColor>,
    transparent: bool,
    o: SFSpriteSpriteObject,
    shift: u32,
    tx: int,
    ty: int,
    bi0: int,
    bi: int,
)
    requires
        0 <= bi0 <= bi < 64,
        ({
            let ci = window[obj_tile_num(o, shift, tx, ty) * 64 + bi] as int;
            ci < 16 && (ci != 0 || !transparent)
        }),
    ensures
        cell_pixels_from(window, pal, transparent, o, shift, tx, ty, bi0).contains(
            sprite_pixel_event(window, pal, o, shift, tx, ty, bi),
        ),
    decreases bi - bi0,
{
    let ev = sprite_pixel_event(window, pal, o, shift, tx, ty, bi);
    let here = cell_pixels_from(window, pal, transparent, o, shift, tx, ty, bi0);
    let rest = cell_pixels_from(window, pal, transparent, o, shift, tx, ty, bi0 + 1);
    if bi == bi0 {
        assert(here[0] == ev);
    } else {
        lemma_cell_pixels_contains(window, pal, transparent, o, shift, tx, ty, bi0 + 1, bi);
        let k = choose|k: int| 0 <= k < rest.len() && rest[k] == ev;
        let ci0 = window[obj_tile_num(o, shift, tx, ty) * 64 + bi0] as int;
        if ci0 < 16 && (ci0 != 0 || !transparent) {
            assert(here[1 + k] == ev);
        } else {
            assert(here[k] == ev);
        }
    }
}

/// A draw event of cell `c` appears among the object's events from any
/// earlier cell on.
proof fn lemma_obj_cells_contains(
    window: Seq<u8>,
    pal: Seq<GBAColor>,
    transparent: bool,
    o: SFSpriteSpriteObject,
    shift: u32,
    c0: int,
    c: int,
    ev: SpritePixel,
)
    requires
        0 <= c0 <= c,
        c < (o.shape.spec_tile_width_amount() as int) * (o.shape.spec_tile_height_amount() as int),
        ({
            let sx = o.shape.spec_tile_width_amount() as int;
            let tn = obj_tile_num(o, shift, c % sx, c / sx);
            &&& 0 <= tn
            &&& (tn + 1) * 64 <= window.len()
            &&& cell_pixels_from(window, pal, transparent, o, shift, c % sx, c / sx, 0).contains(
                ev,
            )
        }),
    ensures
        obj_cells_from(window, pal, transparent, o, shift, c0).contains(ev),
    decreases c - c0,
{
    let sx = o.shape.spec_tile_width_amount() as int;
    let here = obj_cells_from(window, pal, transparent, o, shift, c0);
    let rest = obj_cells_from(window, pal, transparent, o, shift, c0 + 1);
    let tn0 = obj_tile_num(o, shift, c0 % sx, c0 / sx);
    let cell0 = if 0 <= tn0 && (tn0 + 1) * 64 <= window.len() {
        cell_pixels_from(window, pal, transparent, o, shift, c0 % sx, c0 / sx, 0)
    } else {
        Seq::<SpritePixel>::empty()
    };
    assert(here == cell0 + rest);
    if c == c0 {
        let k = choose|k: int| 0 <= k < cell0.len() && cell0[k] == ev;
        assert(here[k] == ev);
    } else {
        lemma_obj_cells_contains(window, pal, transparent, o, shift, c0 + 1, c, ev);
        let k = choose|k: int| 0 <= k < rest.len() && rest[k] == ev;
        assert(here[cell0.len() + k] == ev);
    }
}

/// A draw event of object `oi` appears among the sprite's events from any
/// earlier object on.
proof fn lemma_objects_events_contains(
    window: Seq<u8>,
    pal: Seq<GBAColor>,
    transparent: bool,
    objects: Seq<SFSpriteSpriteObject>,
    shift: u32,
    oi0: int,
    oi: int,
    ev: SpritePixel,
)
    requires
        0 <= oi0 <= oi < objects.len(),
        obj_cells_from(window, pal, transparent, objects[oi], shift, 0).contains(ev),
    ensures
        objects_events_from(window, pal, transparent, objects, shift, oi0).contains(ev),
    decreases oi - oi0,
{
    let here = objects_events_from(window, pal, transparent, objects, shift, oi0);
    let cells0 = obj_cells_from(window, pal, transparent, objects[oi0], shift, 0);
    let rest = objects_events_from(window, pal, transparent, objects, shift, oi0 + 1);
    assert(here == cells0 + rest);
    if oi == oi0 {
        let k = choose|k: int| 0 <= k < cells0.len() && cells0[k] == ev;
        assert(here[k] == ev);
    } else {
        lemma_objects_events_contains(window, pal, transparent, objects, shift, oi0 + 1, oi, ev);
        let k = choose|k: int| 0 <= k < rest.len() && rest[k] == ev;
        assert(here[cells0.len() + k] == ev);
    }
}

/// The reverse scan passes unchanged over a run of objects whose boxes all
/// miss the point.
proof fn lemma_hit_scan_skip(
    window: Seq<u8>,
    objects: Seq<SFSpriteSpriteObject>,
    shift: u32,
    hx: int,
    hy: int,
    transparent: bool,
    i: int,
    oi: int,
)
    requires
        -1 <= oi <= i < objects.len(),
        forall|j: int| oi < j <= i ==> !box_contains(#[trigger] objects[j], hx, hy),
    ensures
        hit_scan(window, objects, shift, hx, hy, transparent, i) == hit_scan(
            window,
            objects,
            shift,
            hx,
            hy,
            transparent,
            oi,
        ),
    decreases i - oi,
{
    if i > oi {
        lemma_hit_scan_skip(window, objects, shift, hx, hy, transparent, i - 1, oi);
    }
}

/// The compositor and the hit-tester are inverse: a pixel that
/// `render_sprite` draws (ignoring transparency) at a screen point covered
/// by no later-drawn object is resolved by `hittest` at that point to the
/// very object, tile and in-tile pixel that drew it — hence to the same
/// palette index.
pub proof fn lemma_render_hittest_inverse(
    d: DocView,
    sprite_id: int,
    palette_id: int,
    oi: int,
    tx: int,
    ty: int,
    bi: int,
)
    requires
        sprite_in_range(d, sprite_id),
        0 <= palette_id < d.palette.palettes.len(),
        0 <= oi < d.sprites[sprite_id].len(),
        0 <= tx < d.sprites[sprite_id][oi].shape.spec_tile_width_amount(),
        0 <= ty < d.sprites[sprite_id][oi].shape.spec_tile_height_amount(),
        0 <= bi < 64,
        0 <= obj_tile_num(d.sprites[sprite_id][oi], shift_of(d), tx, ty),
        (obj_tile_num(d.sprites[sprite_id][oi], shift_of(d), tx, ty) + 1) * 64 <= sprite_window(
            d,
            sprite_id,
        ).len(),
        sprite_window(d, sprite_id)[obj_tile_num(d.sprites[sprite_id][oi], shift_of(d), tx, ty)
            * 64 + bi] < 16,
        forall|j: int|
            oi < j < d.sprites[sprite_id].len() ==> !box_contains(
                #[trigger] d.sprites[sprite_id][j],
                sprite_pixel_event(
                    sprite_window(d, sprite_id),
                    d.palette.palettes[palette_id],
                    d.sprites[sprite_id][oi],
                    shift_of(d),
                    tx,
                    ty,
                    bi,
                ).x as int,
                sprite_pixel_event(
                    sprite_window(d, sprite_id),
                    d.palette.palettes[palette_id],
                    d.sprites[sprite_id][oi],
                    shift_of(d),
                    tx,
                    ty,
                    bi,
                ).y as int,
            ),
    ensures
        ({
            let window = sprite_window(d, sprite_id);
            let pal = d.palette.palettes[palette_id];
            let o = d.sprites[sprite_id][oi];
            let ev = sprite_pixel_event(window, pal, o, shift_of(d), tx, ty, bi);
            let tn = obj_tile_num(o, shift_of(d), tx, ty);
            &&& spec_render_sprite(d, sprite_id, palette_id, false).contains(ev)
            &&& spec_hittest(d, sprite_id, ev.x as int, ev.y as int, false) == Some(
                HittestResult {
                    tile_id: tn as usize,
                    pixel_index: bi as usize,
                    sprite_obj_id: oi as usize,
                },
            )
            &&& window[tn * 64 + bi] as usize == ev.color_index
        }),
{
    let window = sprite_window(d, sprite_id);
    let pal = d.palette.palettes[palette_id];
    let objects = d.sprites[sprite_id];
    let o = objects[oi];
    let shift = shift_of(d);
    let ev = sprite_pixel_event(window, pal, o, shift, tx, ty, bi);
    let tn = obj_tile_num(o, shift, tx, ty);
    let sx = o.shape.spec_tile_width_amount() as int;
    let sy = o.shape.spec_tile_height_amount() as int;
    crate::sfsprite::lemma_shape_grid(o.shape);
    let bx = bi % 8;
    let by = bi / 8;
    let lx: int = if o.flip_flag.spec_is_horizontal() {
        7 - bx
    } else {
        bx
    };
    let ly: int = if o.flip_flag.spec_is_vertical() {
        7 - by
    } else {
        by
    };
    // Membership in the render output.
    let c = ty * sx + tx;
    assert(0 <= c < sx * sy && c % sx == tx && c / sx == ty) by (nonlinear_arith)
        requires
            1 <= sx,
            1 <= sy,
            0 <= tx < sx,
            0 <= ty < sy,
            c == ty * sx + tx,
    ;
    lemma_cell_pixels_contains(window, pal, false, o, shift, tx, ty, 0, bi);
    lemma_obj_cells_contains(window, pal, false, o, shift, 0, c, ev);
    lemma_objects_events_contains(window, pal, false, objects, shift, 0, oi, ev);
    assert(spec_render_sprite(d, sprite_id, palette_id, false).contains(ev));
    // The hit-test resolves the drawn pixel.
    let hx = ev.x as int;
    let hy = ev.y as int;
    assert(hx == o.x as int + 8 * tx + lx && hy == o.y as int + 8 * ty + ly);
    assert(8 * tx + lx < 8 * sx && 8 * ty + ly < 8 * sy) by (nonlinear_arith)
        requires
            0 <= tx < sx,
            0 <= ty < sy,
            0 <= lx < 8,
            0 <= ly < 8,
    ;
    assert(box_contains(o, hx, hy));
    let px = hx - o.x as int;
    let py = hy - o.y as int;
    assert(px == 8 * tx + lx && py == 8 * ty + ly);
    assert(px / 8 == tx && px % 8 == lx && py / 8 == ty && py % 8 == ly) by (nonlinear_arith)
        requires
            0 <= lx < 8,
            0 <= ly < 8,
            px == 8 * tx + lx,
            py == 8 * ty + ly,
            0 <= tx,
            0 <= ty,
    ;
    assert(hit_pixel_index(o.flip_flag, lx, ly) == bi);
    lemma_hit_scan_skip(
        window,
        objects,
        shift,
        hx,
        hy,
        false,
        objects.len() as int - 1,
        oi,
    );
    assert(hit_scan(window, objects, shift, hx, hy, false, oi) == Some(
        HittestResult {
            tile_id: tn as usize,
            pixel_index: bi as usize,
            sprite_obj_id: oi as usize,
        },
    ));
}

} // verus!
