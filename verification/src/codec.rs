//! The container codec: little-endian byte primitives, the exact byte-level
//! meaning of the sprite container, and the decoder and encoder proved
//! against it.
//!
//! `spec_decode` gives the meaning of every byte sequence (a document or the
//! error that rejects it); `spec_encode` gives the bytes every encodable
//! document serializes to.  `decode` and `encode` implement exactly those
//! functions, and `lemma_decode_encode_round_trip` shows that encoding a
//! validly decoded document and decoding it again returns the document.

use crate::gbacolor::GBAColor;
use crate::sfsprite::{
    frames_wf, objects_wf, ColorDepth, DocView, FilpFlag, LoopFlag, ObjectShape, PaletteView, SFSpriteAnimationEntry,
    SFSpriteAnimationFrame, SFSpriteAnimationHeader, SFSpriteFileHeader, SFSpritePaletteHeader,
    SFSpriteSpriteEntry, SFSpriteSpriteHeader, SFSpriteSpriteObject, SFSpriteTilesetEntry,
    SFSpriteTilesetHeader, TilesetView,
};
use vstd::prelude::*;

verus! {

/// Why a container was rejected, or an operation refused.
#[derive(Clone, Copy, Debug, PartialEq, Eq, Structural)]
pub enum ContainerError {
    /// Fewer bytes were available than a fixed field or record required.
    TruncatedInput,
    /// A stored length, offset or tag implies something the buffer or the
    /// format cannot hold.
    MalformedSection,
    /// The palette section's depth tag was neither of the two known values.
    UnknownColorDepth,
    /// A host-supplied index lies outside the document.
    IndexOutOfRange,
}

/// The 16-bit little-endian value stored at byte offset `i`.
pub open spec fn r16(s: Seq<u8>, i: int) -> u16 {
    (s[i] as u16) | ((s[i + 1] as u16) << 8)
}

/// The 32-bit little-endian value stored at byte offset `i`.
pub open spec fn r32(s: Seq<u8>, i: int) -> u32 {
    (s[i] as u32) | ((s[i + 1] as u32) << 8) | ((s[i + 2] as u32) << 16) | ((s[i + 3] as u32)
        << 24)
}

/// The two little-endian bytes of a 16-bit value.
pub open spec fn u16_le(x: u16) -> Seq<u8> {
    seq![(x & 0xFF) as u8, ((x >> 8) & 0xFF) as u8]
}

/// The four little-endian bytes of a 32-bit value.
pub open spec fn u32_le(x: u32) -> Seq<u8> {
    seq![
        (x & 0xFF) as u8,
        ((x >> 8) & 0xFF) as u8,
        ((x >> 16) & 0xFF) as u8,
        ((x >> 24) & 0xFF) as u8,
    ]
}

/// Reading back the two bytes of a 16-bit value yields the value.
pub proof fn lemma_r16_of_u16_le(x: u16, b0: u8, b1: u8)
    requires
        b0 == (x & 0xFF) as u8,
        b1 == ((x >> 8) & 0xFF) as u8,
    ensures
        (b0 as u16) | ((b1 as u16) << 8) == x,
{
    assert(((x & 0xFF) as u8 as u16) | ((((x >> 8) & 0xFF) as u8 as u16) << 8) == x)
        by (bit_vector);
}

/// Reading back the four bytes of a 32-bit value yields the value.
pub proof fn lemma_r32_of_u32_le(x: u32, b0: u8, b1: u8, b2: u8, b3: u8)
    requires
        b0 == (x & 0xFF) as u8,
        b1 == ((x >> 8) & 0xFF) as u8,
        b2 == ((x >> 16) & 0xFF) as u8,
        b3 == ((x >> 24) & 0xFF) as u8,
    ensures
        (b0 as u32) | ((b1 as u32) << 8) | ((b2 as u32) << 16) | ((b3 as u32) << 24) == x,
{
    assert(((x & 0xFF) as u8 as u32) | ((((x >> 8) & 0xFF) as u8 as u32) << 8) | ((((x >> 16)
        & 0xFF) as u8 as u32) << 16) | ((((x >> 24) & 0xFF) as u8 as u32) << 24) == x)
        by (bit_vector);
}

/// Reads the 16-bit little-endian value at `pos`.
pub fn read_u16(s: &[u8], pos: usize) -> (r: u16)
    requires
        pos + 2 <= s@.len(),
    ensures
        r == r16(s@, pos as int),
{
    let b0: u8 = s[pos];
    let b1: u8 = s[pos + 1];
    (b0 as u16) | ((b1 as u16) << 8)
}

/// Reads the 32-bit little-endian value at `pos`.
pub fn read_u32(s: &[u8], pos: usize) -> (r: u32)
    requires
        pos + 4 <= s@.len(),
    ensures
        r == r32(s@, pos as int),
{
    let b0: u8 = s[pos];
    let b1: u8 = s[pos + 1];
    let b2: u8 = s[pos + 2];
    let b3: u8 = s[pos + 3];
    (b0 as u32) | ((b1 as u32) << 8) | ((b2 as u32) << 16) | ((b3 as u32) << 24)
}

/// Appends the two little-endian bytes of `x`.
pub fn push_u16(out: &mut Vec<u8>, x: u16)
    ensures
        final(out)@ == old(out)@ + u16_le(x),
{
    out.push((x & 0xFF) as u8);
    out.push(((x >> 8) & 0xFF) as u8);
    proof {
        assert(out@ =~= old(out)@ + u16_le(x));
    }
}

/// Appends the four little-endian bytes of `x`.
pub fn push_u32(out: &mut Vec<u8>, x: u32)
    ensures
        final(out)@ == old(out)@ + u32_le(x),
{
    out.push((x & 0xFF) as u8);
    out.push(((x >> 8) & 0xFF) as u8);
    out.push(((x >> 16) & 0xFF) as u8);
    out.push(((x >> 24) & 0xFF) as u8);
    proof {
        assert(out@ =~= old(out)@ + u32_le(x));
    }
}

/// 4-bit unpacking: each packed byte becomes two pixel bytes, low nibble
/// first.
pub open spec fn unpack_4bpp(s: Seq<u8>) -> Seq<u8> {
    Seq::new(
        (s.len() * 2) as nat,
        |i: int|
            if i % 2 == 0 {
                s[i / 2] & 0xF
            } else {
                s[i / 2] >> 4
            },
    )
}

/// 4-bit packing: consecutive pixel-byte pairs merge into one byte, the
/// first of the pair in the low nibble.  A trailing unpaired byte is
/// dropped.
pub open spec fn pack_4bpp(s: Seq<u8>) -> Seq<u8> {
    Seq::new((s.len() / 2) as nat, |i: int| s[2 * i] | (s[2 * i + 1] << 4))
}

/// Unpacking 4-bit tile data and packing it again returns the original
/// bytes exactly, whatever the nibble values.
pub proof fn lemma_pack_unpack(s: Seq<u8>)
    ensures
        pack_4bpp(unpack_4bpp(s)) == s,
{
    assert forall|i: int| 0 <= i < s.len() implies pack_4bpp(unpack_4bpp(s))[i] == s[i] by {
        let b = s[i];
        assert((b & 0xF) | ((b >> 4) << 4) == b) by (bit_vector);
    }
    assert(pack_4bpp(unpack_4bpp(s)) =~= s);
}

/// Packing pixel bytes that are genuine nibbles and unpacking again
/// returns them exactly.
pub proof fn lemma_unpack_pack(s: Seq<u8>)
    requires
        s.len() % 2 == 0,
        forall|i: int| 0 <= i < s.len() ==> s[i] < 16,
    ensures
        unpack_4bpp(pack_4bpp(s)) == s,
{
    assert forall|i: int| 0 <= i < s.len() implies unpack_4bpp(pack_4bpp(s))[i] == s[i] by {
        let j = i / 2;
        let lo = s[2 * j];
        let hi = s[2 * j + 1];
        assert(lo < 16 && hi < 16 ==> ((lo | (hi << 4)) & 0xF) == lo && ((lo | (hi << 4)) >> 4)
            == hi) by (bit_vector);
        if i % 2 == 0 {
            assert(2 * j == i);
        } else {
            assert(2 * j + 1 == i);
        }
    }
    assert(unpack_4bpp(pack_4bpp(s)) =~= s);
}

/// Unpacks 4-bit tile data into one byte per pixel.
pub fn unpack_tile_data(s: &Vec<u8>) -> (r: Vec<u8>)
    requires
        s@.len() * 2 <= usize::MAX,
    ensures
        r@ == unpack_4bpp(s@),
{
    let mut out: Vec<u8> = Vec::new();
    let mut i: usize = 0;
    while i < s.len()
        invariant
            i <= s@.len(),
            s@.len() * 2 <= usize::MAX,
            out@.len() == 2 * i,
            forall|j: int| 0 <= j < 2 * i ==> out@[j] == unpack_4bpp(s@)[j],
        decreases s@.len() - i,
    {
        let b: u8 = s[i];
        out.push(b & 0xF);
        out.push(b >> 4);
        i = i + 1;
    }
    proof {
        assert(out@ =~= unpack_4bpp(s@));
    }
    out
}

/// Packs one byte per pixel into 4-bit tile data, low nibble first.
pub fn pack_tile_data(s: &Vec<u8>) -> (r: Vec<u8>)
    ensures
        r@ == pack_4bpp(s@),
{
    let mut out: Vec<u8> = Vec::new();
    let mut i: usize = 0;
    while i < s.len() / 2
        invariant
            i <= s@.len() / 2,
            out@.len() == i,
            forall|j: int| 0 <= j < i ==> out@[j] == pack_4bpp(s@)[j],
        decreases s@.len() / 2 - i,
    {
        let lo: u8 = s[2 * i];
        let hi: u8 = s[2 * i + 1];
        out.push(lo | (hi << 4));
        i = i + 1;
    }
    proof {
        assert(out@ =~= pack_4bpp(s@));
    }
    out
}


/// The loop-flag tag byte stored on disk for each flag value.
pub open spec fn loop_flag_byte(f: LoopFlag) -> u8 {
    match f {
        LoopFlag::NoLoop => 0x00,
        LoopFlag::End => 0x40,
        LoopFlag::Loop => 0x80,
    }
}

/// The loop flag a tag byte decodes to; unknown tags decode to nothing.
pub open spec fn byte_to_loop_flag(b: u8) -> Option<LoopFlag> {
    if b == 0x00 {
        Some(LoopFlag::NoLoop)
    } else if b == 0x40 {
        Some(LoopFlag::End)
    } else if b == 0x80 {
        Some(LoopFlag::Loop)
    } else {
        None
    }
}

/// The flip tag byte stored on disk for each flip value.
pub open spec fn flip_byte(f: FilpFlag) -> u8 {
    match f {
        FilpFlag::NoFlip => 0x00,
        FilpFlag::Horizontal => 0x01,
        FilpFlag::Vertical => 0x02,
        FilpFlag::Both => 0x03,
    }
}

/// The flip value a tag byte decodes to; unknown tags decode to nothing.
pub open spec fn byte_to_flip(b: u8) -> Option<FilpFlag> {
    if b == 0x00 {
        Some(FilpFlag::NoFlip)
    } else if b == 0x01 {
        Some(FilpFlag::Horizontal)
    } else if b == 0x02 {
        Some(FilpFlag::Vertical)
    } else if b == 0x03 {
        Some(FilpFlag::Both)
    } else {
        None
    }
}

/// The 16-bit shape tag stored on disk for each object shape: the low byte
/// selects the size class, the high byte the aspect class.
pub open spec fn shape_code(s: ObjectShape) -> u16 {
    match s {
        ObjectShape::Size8x8 => 0x0000,
        ObjectShape::Size16x8 => 0x0100,
        ObjectShape::Size8x16 => 0x0200,
        ObjectShape::Size16x16 => 0x0001,
        ObjectShape::Size32x8 => 0x0101,
        ObjectShape::Size8x32 => 0x0201,
        ObjectShape::Size32x32 => 0x0002,
        ObjectShape::Size32x16 => 0x0102,
        ObjectShape::Size16x32 => 0x0202,
        ObjectShape::Size64x64 => 0x0003,
        ObjectShape::Size64x32 => 0x0103,
        ObjectShape::Size32x64 => 0x0203,
    }
}

/// The shape a 16-bit tag decodes to; unknown tags decode to nothing.
pub open spec fn code_to_shape(c: u16) -> Option<ObjectShape> {
    if c == 0x0000 {
        Some(ObjectShape::Size8x8)
    } else if c == 0x0100 {
        Some(ObjectShape::Size16x8)
    } else if c == 0x0200 {
        Some(ObjectShape::Size8x16)
    } else if c == 0x0001 {
        Some(ObjectShape::Size16x16)
    } else if c == 0x0101 {
        Some(ObjectShape::Size32x8)
    } else if c == 0x0201 {
        Some(ObjectShape::Size8x32)
    } else if c == 0x0002 {
        Some(ObjectShape::Size32x32)
    } else if c == 0x0102 {
        Some(ObjectShape::Size32x16)
    } else if c == 0x0202 {
        Some(ObjectShape::Size16x32)
    } else if c == 0x0003 {
        Some(ObjectShape::Size64x64)
    } else if c == 0x0103 {
        Some(ObjectShape::Size64x32)
    } else if c == 0x0203 {
        Some(ObjectShape::Size32x64)
    } else {
        None
    }
}

/// The 16-bit depth tag stored at the head of the palette section.
pub open spec fn depth_tag(d: ColorDepth) -> u16 {
    match d {
        ColorDepth::Depth4BPP => 5,
        ColorDepth::Depth8BPP => 6,
    }
}

/// Decoding a tileset section at byte offset `off`: the fixed head (tile
/// capacity, stored tile count, entry-table size, two padding bytes), then
/// the tile ranges, then the raw tile bytes still in on-disk packing.
/// A head past the end of the buffer is `TruncatedInput`; a declared table
/// or data length past the end is `MalformedSection`, as is a table size
/// smaller than its own fixed head.
pub open spec fn dec_tileset(s: Seq<u8>, off: int) -> Result<TilesetView, ContainerError> {
    if off + 8 > s.len() {
        Err(ContainerError::TruncatedInput)
    } else {
        let total = r16(s, off + 2) as int;
        let hs = r16(s, off + 4) as int;
        if hs < 8 {
            Err(ContainerError::MalformedSection)
        } else {
            let n = (hs - 8) / 4;
            let estart = off + 8;
            let dstart = estart + 4 * n;
            if dstart > s.len() {
                Err(ContainerError::MalformedSection)
            } else if dstart + 32 * total > s.len() {
                Err(ContainerError::MalformedSection)
            } else {
                Ok(
                    TilesetView {
                        max_tiles: r16(s, off),
                        entries: Seq::new(
                            n as nat,
                            |i: int|
                                SFSpriteTilesetEntry {
                                    amount: r16(s, estart + 4 * i),
                                    offset: r16(s, estart + 4 * i + 2),
                                },
                        ),
                        data: s.subrange(dstart, dstart + 32 * total),
                    },
                )
            }
        }
    }
}

/// Decoding a palette section at byte offset `off`: the depth tag, the
/// palette count, then 16 colors of two bytes for each palette.
pub open spec fn dec_palette(s: Seq<u8>, off: int) -> Result<PaletteView, ContainerError> {
    if off + 4 > s.len() {
        Err(ContainerError::TruncatedInput)
    } else {
        let tag = r16(s, off);
        if tag != 5 && tag != 6 {
            Err(ContainerError::UnknownColorDepth)
        } else {
            let depth = if tag == 5 {
                ColorDepth::Depth4BPP
            } else {
                ColorDepth::Depth8BPP
            };
            let mp = r16(s, off + 2) as int;
            let cstart = off + 4;
            if cstart + 32 * mp > s.len() {
                Err(ContainerError::MalformedSection)
            } else {
                Ok(
                    PaletteView {
                        color_depth: depth,
                        palettes: Seq::new(
                            mp as nat,
                            |i: int|
                                Seq::new(
                                    16,
                                    |j: int| GBAColor(r16(s, cstart + 32 * i + 2 * j)),
                                ),
                        ),
                    },
                )
            }
        }
    }
}

/// Decoding one sentinel-terminated frame run starting at byte `pos`:
/// 4-byte records are consumed until one whose loop flag is terminal has
/// been consumed, inclusively.  Running off the buffer is
/// `TruncatedInput`; an unknown loop tag is `MalformedSection`.
pub open spec fn dec_frames(s: Seq<u8>, pos: int) -> Result<
    Seq<SFSpriteAnimationFrame>,
    ContainerError,
>
    decreases s.len() - pos,
{
    if pos < 0 || pos + 4 > s.len() {
        Err(ContainerError::TruncatedInput)
    } else {
        match byte_to_loop_flag(s[pos + 2]) {
            Option::None => Err(ContainerError::MalformedSection),
            Option::Some(lf) => {
                let f = SFSpriteAnimationFrame {
                    sprite_id: s[pos],
                    delay: s[pos + 1],
                    loop_flag: lf,
                    palette_id: s[pos + 3],
                };
                if lf != LoopFlag::NoLoop {
                    Ok(seq![f])
                } else {
                    match dec_frames(s, pos + 4) {
                        Ok(rest) => Ok(seq![f] + rest),
                        Err(e) => Err(e),
                    }
                }
            },
        }
    }
}

/// Decoding the animation entries with indices `i..amount`.  Each entry's
/// table slot holds a 32-bit offset relative to the section start; the
/// frame run begins there.
pub open spec fn dec_anim_entries(s: Seq<u8>, off: int, amount: int, i: int) -> Result<
    Seq<Seq<SFSpriteAnimationFrame>>,
    ContainerError,
>
    decreases amount - i,
{
    if i >= amount {
        Ok(Seq::empty())
    } else {
        let target = off + r32(s, off + 4 + 4 * i) as int;
        match dec_frames(s, target) {
            Err(e) => Err(e),
            Ok(frames) => match dec_anim_entries(s, off, amount, i + 1) {
                Err(e) => Err(e),
                Ok(rest) => Ok(seq![frames] + rest),
            },
        }
    }
}

/// Decoding an animation section at byte offset `off`: the entry count,
/// two padding bytes, the offset table, then each entry's frame run.
pub open spec fn dec_anim(s: Seq<u8>, off: int) -> Result<
    Seq<Seq<SFSpriteAnimationFrame>>,
    ContainerError,
> {
    if off + 4 > s.len() {
        Err(ContainerError::TruncatedInput)
    } else {
        let amount = r16(s, off) as int;
        if off + 4 + 4 * amount > s.len() {
            Err(ContainerError::MalformedSection)
        } else {
            dec_anim_entries(s, off, amount, 0)
        }
    }
}

/// Decoding one sentinel-terminated object run starting at byte `pos`:
/// 8-byte records are consumed until one with `is_last != 0` has been
/// consumed, inclusively.
pub open spec fn dec_objects(s: Seq<u8>, pos: int) -> Result<
    Seq<SFSpriteSpriteObject>,
    ContainerError,
>
    decreases s.len() - pos,
{
    if pos < 0 || pos + 8 > s.len() {
        Err(ContainerError::TruncatedInput)
    } else {
        match code_to_shape(r16(s, pos + 3)) {
            Option::None => Err(ContainerError::MalformedSection),
            Option::Some(shape) => match byte_to_flip(s[pos + 5]) {
                Option::None => Err(ContainerError::MalformedSection),
                Option::Some(flip) => {
                    let o = SFSpriteSpriteObject {
                        tile_index_lower: s[pos],
                        x: s[pos + 1] as i8,
                        y: s[pos + 2] as i8,
                        shape: shape,
                        flip_flag: flip,
                        is_last: s[pos + 6],
                        tile_index_upper: s[pos + 7],
                    };
                    if o.is_last != 0 {
                        Ok(seq![o])
                    } else {
                        match dec_objects(s, pos + 8) {
                            Ok(rest) => Ok(seq![o] + rest),
                            Err(e) => Err(e),
                        }
                    }
                },
            },
        }
    }
}

/// Decoding the sprite entries with indices `i..amount`, by the same
/// relative-offset scheme as the animation entries.
pub open spec fn dec_sprite_entries(s: Seq<u8>, off: int, amount: int, i: int) -> Result<
    Seq<Seq<SFSpriteSpriteObject>>,
    ContainerError,
>
    decreases amount - i,
{
    if i >= amount {
        Ok(Seq::empty())
    } else {
        let target = off + r32(s, off + 4 + 4 * i) as int;
        match dec_objects(s, target) {
            Err(e) => Err(e),
            Ok(objects) => match dec_sprite_entries(s, off, amount, i + 1) {
                Err(e) => Err(e),
                Ok(rest) => Ok(seq![objects] + rest),
            },
        }
    }
}

/// Decoding a sprite section at byte offset `off`.
pub open spec fn dec_sprite(s: Seq<u8>, off: int) -> Result<
    Seq<Seq<SFSpriteSpriteObject>>,
    ContainerError,
> {
    if off + 4 > s.len() {
        Err(ContainerError::TruncatedInput)
    } else {
        let amount = r16(s, off) as int;
        if off + 4 + 4 * amount > s.len() {
            Err(ContainerError::MalformedSection)
        } else {
            dec_sprite_entries(s, off, amount, 0)
        }
    }
}

/// The meaning of a whole container: the header's five little-endian
/// words, the four sections decoded at their stored offsets in tileset,
/// palette, animation, sprite order, and — under 4-bit packing — the tile
/// bytes unpacked into one byte per pixel.  The first failure in that
/// order rejects the container.
pub open spec fn spec_decode(s: Seq<u8>) -> Result<DocView, ContainerError> {
    if s.len() < 20 {
        Err(ContainerError::TruncatedInput)
    } else {
        match dec_tileset(s, r32(s, 0) as int) {
            Err(e) => Err(e),
            Ok(ts) => match dec_palette(s, r32(s, 4) as int) {
                Err(e) => Err(e),
                Ok(pal) => match dec_anim(s, r32(s, 8) as int) {
                    Err(e) => Err(e),
                    Ok(anims) => match dec_sprite(s, r32(s, 12) as int) {
                        Err(e) => Err(e),
                        Ok(sprites) => Ok(
                            DocView {
                                tile_number_shift: r32(s, 16),
                                tileset: TilesetView {
                                    max_tiles: ts.max_tiles,
                                    entries: ts.entries,
                                    data: if pal.color_depth == ColorDepth::Depth4BPP {
                                        unpack_4bpp(ts.data)
                                    } else {
                                        ts.data
                                    },
                                },
                                palette: pal,
                                animations: anims,
                                sprites: sprites,
                            },
                        ),
                    },
                },
            },
        }
    }
}


/// Turns a loop-flag tag byte into its flag.
fn loop_flag_from_byte(b: u8) -> (r: Option<LoopFlag>)
    ensures
        r == byte_to_loop_flag(b),
{
    if b == 0x00 {
        Some(LoopFlag::NoLoop)
    } else if b == 0x40 {
        Some(LoopFlag::End)
    } else if b == 0x80 {
        Some(LoopFlag::Loop)
    } else {
        None
    }
}

/// Turns a flip tag byte into its flip value.
fn flip_from_byte(b: u8) -> (r: Option<FilpFlag>)
    ensures
        r == byte_to_flip(b),
{
    if b == 0x00 {
        Some(FilpFlag::NoFlip)
    } else if b == 0x01 {
        Some(FilpFlag::Horizontal)
    } else if b == 0x02 {
        Some(FilpFlag::Vertical)
    } else if b == 0x03 {
        Some(FilpFlag::Both)
    } else {
        None
    }
}

/// Turns a 16-bit shape tag into its shape.
fn shape_from_code(c: u16) -> (r: Option<ObjectShape>)
    ensures
        r == code_to_shape(c),
{
    if c == 0x0000 {
        Some(ObjectShape::Size8x8)
    } else if c == 0x0100 {
        Some(ObjectShape::Size16x8)
    } else if c == 0x0200 {
        Some(ObjectShape::Size8x16)
    } else if c == 0x0001 {
        Some(ObjectShape::Size16x16)
    } else if c == 0x0101 {
        Some(ObjectShape::Size32x8)
    } else if c == 0x0201 {
        Some(ObjectShape::Size8x32)
    } else if c == 0x0002 {
        Some(ObjectShape::Size32x32)
    } else if c == 0x0102 {
        Some(ObjectShape::Size32x16)
    } else if c == 0x0202 {
        Some(ObjectShape::Size16x32)
    } else if c == 0x0003 {
        Some(ObjectShape::Size64x64)
    } else if c == 0x0103 {
        Some(ObjectShape::Size64x32)
    } else if c == 0x0203 {
        Some(ObjectShape::Size32x64)
    } else {
        None
    }
}

/// Reads the tileset section at offset `off`.
fn read_tileset_section(s: &[u8], off: u32) -> (r: Result<
    SFSpriteTilesetHeader,
    ContainerError,
>)
    ensures
        match r {
            Ok(h) => dec_tileset(s@, off as int) == Ok::<TilesetView, ContainerError>(h@),
            Err(e) => dec_tileset(s@, off as int) == Err::<TilesetView, ContainerError>(e),
        },
{
    let len: u64 = s.len() as u64;
    let o: u64 = off as u64;
    if o + 8 > len {
        return Err(ContainerError::TruncatedInput);
    }
    let max_tiles: u16 = read_u16(s, o as usize);
    let total: u64 = read_u16(s, (o + 2) as usize) as u64;
    let hs: u64 = read_u16(s, (o + 4) as usize) as u64;
    if hs < 8 {
        return Err(ContainerError::MalformedSection);
    }
    let n: u64 = (hs - 8) / 4;
    let estart: u64 = o + 8;
    if estart + 4 * n > len {
        return Err(ContainerError::MalformedSection);
    }
    let dstart: u64 = estart + 4 * n;
    if dstart + 32 * total > len {
        return Err(ContainerError::MalformedSection);
    }
    let ghost especs: Seq<SFSpriteTilesetEntry> = dec_tileset(s@, off as int)->Ok_0.entries;
    let mut entries: Vec<SFSpriteTilesetEntry> = Vec::new();
    let mut i: u64 = 0;
    while i < n
        invariant
            0 <= i <= n,
            estart == o + 8,
            estart + 4 * n <= len,
            len == s@.len(),
            len <= usize::MAX,
            especs.len() == n,
            forall|j: int| 0 <= j < n ==> #[trigger] especs[j] == (SFSpriteTilesetEntry {
                amount: r16(s@, o + 8 + 4 * j),
                offset: r16(s@, o + 8 + 4 * j + 2),
            }),
            entries@.len() == i,
            forall|j: int| 0 <= j < i ==> entries@[j] == especs[j],
        decreases n - i,
    {
        let base64: u64 = estart + 4 * i;
        proof {
            assert(base64 + 4 <= len);
        }
        let base: usize = base64 as usize;
        let amount: u16 = read_u16(s, base);
        let offset: u16 = read_u16(s, base + 2);
        entries.push(SFSpriteTilesetEntry { amount, offset });
        i = i + 1;
    }
    proof {
        assert(dstart + 32 * total <= len);
    }
    let data: Vec<u8> = vstd::slice::slice_to_vec(
        vstd::slice::slice_subrange(s, dstart as usize, (dstart + 32 * total) as usize),
    );
    let h = SFSpriteTilesetHeader { max_tiles, tileset_entries: entries, tileset_data: data };
    proof {
        assert(h@.entries =~= especs);
        assert(h@ =~= dec_tileset(s@, off as int)->Ok_0);
    }
    Ok(h)
}

/// Reads the palette section at offset `off`.
fn read_palette_section(s: &[u8], off: u32) -> (r: Result<
    SFSpritePaletteHeader,
    ContainerError,
>)
    ensures
        match r {
            Ok(h) => dec_palette(s@, off as int) == Ok::<PaletteView, ContainerError>(h@),
            Err(e) => dec_palette(s@, off as int) == Err::<PaletteView, ContainerError>(e),
        },
{
    let len: u64 = s.len() as u64;
    let o: u64 = off as u64;
    if o + 4 > len {
        return Err(ContainerError::TruncatedInput);
    }
    let tag: u16 = read_u16(s, o as usize);
    if tag != 5 && tag != 6 {
        return Err(ContainerError::UnknownColorDepth);
    }
    let depth: ColorDepth = if tag == 5 {
        ColorDepth::Depth4BPP
    } else {
        ColorDepth::Depth8BPP
    };
    let mp: u64 = read_u16(s, (o + 2) as usize) as u64;
    let cstart: u64 = o + 4;
    if cstart + 32 * mp > len {
        return Err(ContainerError::MalformedSection);
    }
    let ghost pspecs: Seq<Seq<GBAColor>> = dec_palette(s@, off as int)->Ok_0.palettes;
    let mut palettes: Vec<[GBAColor; 16]> = Vec::new();
    let mut i: u64 = 0;
    while i < mp
        invariant
            0 <= i <= mp,
            cstart == o + 4,
            cstart + 32 * mp <= len,
            len == s@.len(),
            len <= usize::MAX,
            pspecs.len() == mp,
            forall|j: int| 0 <= j < mp ==> #[trigger] pspecs[j] == Seq::new(
                16,
                |k: int| GBAColor(r16(s@, o + 4 + 32 * j + 2 * k)),
            ),
            palettes@.len() == i,
            forall|j: int| 0 <= j < i ==> (#[trigger] palettes@[j])@ == pspecs[j],
        decreases mp - i,
    {
        let base64: u64 = cstart + 32 * i;
        proof {
            assert(base64 + 32 <= len);
        }
        let base: usize = base64 as usize;
        let pal: [GBAColor; 16] = [
            GBAColor(read_u16(s, base)),
            GBAColor(read_u16(s, base + 2)),
            GBAColor(read_u16(s, base + 4)),
            GBAColor(read_u16(s, base + 6)),
            GBAColor(read_u16(s, base + 8)),
            GBAColor(read_u16(s, base + 10)),
            GBAColor(read_u16(s, base + 12)),
            GBAColor(read_u16(s, base + 14)),
            GBAColor(read_u16(s, base + 16)),
            GBAColor(read_u16(s, base + 18)),
            GBAColor(read_u16(s, base + 20)),
            GBAColor(read_u16(s, base + 22)),
            GBAColor(read_u16(s, base + 24)),
            GBAColor(read_u16(s, base + 26)),
            GBAColor(read_u16(s, base + 28)),
            GBAColor(read_u16(s, base + 30)),
        ];
        proof {
            assert(pal@ =~= pspecs[i as int]);
        }
        palettes.push(pal);
        i = i + 1;
    }
    let h = SFSpritePaletteHeader { color_depth: depth, palettes };
    proof {
        assert(h@.palettes =~~= pspecs);
        assert(h@ =~~= dec_palette(s@, off as int)->Ok_0);
    }
    Ok(h)
}

/// Reads one sentinel-terminated frame run starting at byte `pos`.
fn read_frames(s: &[u8], pos: u64) -> (r: Result<Vec<SFSpriteAnimationFrame>, ContainerError>)
    ensures
        match r {
            Ok(v) => dec_frames(s@, pos as int) == Ok::<
                Seq<SFSpriteAnimationFrame>,
                ContainerError,
            >(v@),
            Err(e) => dec_frames(s@, pos as int) == Err::<
                Seq<SFSpriteAnimationFrame>,
                ContainerError,
            >(e),
        },
    decreases s@.len() - pos,
{
    let len: u64 = s.len() as u64;
    if pos >= len || len - pos < 4 {
        return Err(ContainerError::TruncatedInput);
    }
    let p: usize = pos as usize;
    let lfb: u8 = s[p + 2];
    let lf: LoopFlag = match loop_flag_from_byte(lfb) {
        Some(lf) => lf,
        None => {
            return Err(ContainerError::MalformedSection);
        },
    };
    let f = SFSpriteAnimationFrame {
        sprite_id: s[p],
        delay: s[p + 1],
        loop_flag: lf,
        palette_id: s[p + 3],
    };
    if lfb != 0 {
        let mut v: Vec<SFSpriteAnimationFrame> = Vec::new();
        v.push(f);
        proof {
            assert(v@ =~= seq![f]);
        }
        Ok(v)
    } else {
        match read_frames(s, pos + 4) {
            Err(e) => Err(e),
            Ok(mut rest) => {
                proof {
                    assert(rest@ == dec_frames(s@, pos as int + 4)->Ok_0);
                }
                rest.insert(0, f);
                proof {
                    assert(rest@ =~= seq![f] + dec_frames(s@, pos as int + 4)->Ok_0);
                }
                Ok(rest)
            },
        }
    }
}

/// Reads one sentinel-terminated object run starting at byte `pos`.
fn read_objects(s: &[u8], pos: u64) -> (r: Result<Vec<SFSpriteSpriteObject>, ContainerError>)
    ensures
        match r {
            Ok(v) => dec_objects(s@, pos as int) == Ok::<
                Seq<SFSpriteSpriteObject>,
                ContainerError,
            >(v@),
            Err(e) => dec_objects(s@, pos as int) == Err::<
                Seq<SFSpriteSpriteObject>,
                ContainerError,
            >(e),
        },
    decreases s@.len() - pos,
{
    let len: u64 = s.len() as u64;
    if pos >= len || len - pos < 8 {
        return Err(ContainerError::TruncatedInput);
    }
    let p: usize = pos as usize;
    let shape: ObjectShape = match shape_from_code(read_u16(s, p + 3)) {
        Some(sh) => sh,
        None => {
            return Err(ContainerError::MalformedSection);
        },
    };
    let flip: FilpFlag = match flip_from_byte(s[p + 5]) {
        Some(fl) => fl,
        None => {
            return Err(ContainerError::MalformedSection);
        },
    };
    let o = SFSpriteSpriteObject {
        tile_index_lower: s[p],
        x: #[verifier::truncate] (s[p + 1] as i8),
        y: #[verifier::truncate] (s[p + 2] as i8),
        shape,
        flip_flag: flip,
        is_last: s[p + 6],
        tile_index_upper: s[p + 7],
    };
    if o.is_last != 0 {
        let mut v: Vec<SFSpriteSpriteObject> = Vec::new();
        v.push(o);
        proof {
            assert(v@ =~= seq![o]);
        }
        Ok(v)
    } else {
        match read_objects(s, pos + 8) {
            Err(e) => Err(e),
            Ok(mut rest) => {
                proof {
                    assert(rest@ == dec_objects(s@, pos as int + 8)->Ok_0);
                }
                rest.insert(0, o);
                proof {
                    assert(rest@ =~= seq![o] + dec_objects(s@, pos as int + 8)->Ok_0);
                }
                Ok(rest)
            },
        }
    }
}

/// Reads the animation section at offset `off`.
fn read_animation_section(s: &[u8], off: u32) -> (r: Result<
    SFSpriteAnimationHeader,
    ContainerError,
>)
    ensures
        match r {
            Ok(h) => dec_anim(s@, off as int) == Ok::<
                Seq<Seq<SFSpriteAnimationFrame>>,
                ContainerError,
            >(h@),
            Err(e) => dec_anim(s@, off as int) == Err::<
                Seq<Seq<SFSpriteAnimationFrame>>,
                ContainerError,
            >(e),
        },
{
    let len: u64 = s.len() as u64;
    let o: u64 = off as u64;
    if o + 4 > len {
        return Err(ContainerError::TruncatedInput);
    }
    let amount: u64 = read_u16(s, o as usize) as u64;
    if o + 4 + 4 * amount > len {
        return Err(ContainerError::MalformedSection);
    }
    let mut entries: Vec<SFSpriteAnimationEntry> = Vec::new();
    let mut i: u64 = 0;
    while i < amount
        invariant
            0 <= i <= amount,
            o + 4 + 4 * amount <= len,
            o == off as u64,
            len == s@.len(),
            len <= usize::MAX,
            dec_anim(s@, off as int) == dec_anim_entries(s@, o as int, amount as int, 0),
            dec_anim_entries(s@, o as int, amount as int, 0) == (match dec_anim_entries(
                s@,
                o as int,
                amount as int,
                i as int,
            ) {
                Ok(rest) => Ok::<Seq<Seq<SFSpriteAnimationFrame>>, ContainerError>(
                    entries@.map_values(|a: SFSpriteAnimationEntry| a.frames@) + rest,
                ),
                Err(e) => Err::<Seq<Seq<SFSpriteAnimationFrame>>, ContainerError>(e),
            }),
        decreases amount - i,
    {
        let slot64: u64 = o + 4 + 4 * i;
        proof {
            assert(slot64 + 4 <= len);
        }
        let stored: u32 = read_u32(s, slot64 as usize);
        let target: u64 = o + stored as u64;
        let ghost prev_map = entries@.map_values(|a: SFSpriteAnimationEntry| a.frames@);
        match read_frames(s, target) {
            Err(e) => {
                proof {
                    assert(dec_anim_entries(s@, o as int, amount as int, i as int) == Err::<
                        Seq<Seq<SFSpriteAnimationFrame>>,
                        ContainerError,
                    >(e));
                }
                return Err(e);
            },
            Ok(frames) => {
                let ghost fseq = frames@;
                entries.push(SFSpriteAnimationEntry { frames });
                proof {
                    let sp = s@;
                    let oo = o as int;
                    let am = amount as int;
                    let ii = i as int;
                    let new_map = entries@.map_values(|a: SFSpriteAnimationEntry| a.frames@);
                    assert(new_map =~= prev_map + seq![fseq]);
                    match dec_anim_entries(sp, oo, am, ii + 1) {
                        Ok(rest) => {
                            assert(dec_anim_entries(sp, oo, am, ii) == Ok::<
                                Seq<Seq<SFSpriteAnimationFrame>>,
                                ContainerError,
                            >(seq![fseq] + rest));
                            assert(prev_map + (seq![fseq] + rest) =~= new_map + rest);
                        },
                        Err(e) => {
                            assert(dec_anim_entries(sp, oo, am, ii) == Err::<
                                Seq<Seq<SFSpriteAnimationFrame>>,
                                ContainerError,
                            >(e));
                        },
                    }
                }
            },
        }
        i = i + 1;
    }
    let h = SFSpriteAnimationHeader { animations: entries };
    proof {
        assert(h@ + Seq::<Seq<SFSpriteAnimationFrame>>::empty() =~= h@);
    }
    Ok(h)
}

/// Reads the sprite section at offset `off`.
fn read_sprite_section(s: &[u8], off: u32) -> (r: Result<SFSpriteSpriteHeader, ContainerError>)
    ensures
        match r {
            Ok(h) => dec_sprite(s@, off as int) == Ok::<
                Seq<Seq<SFSpriteSpriteObject>>,
                ContainerError,
            >(h@),
            Err(e) => dec_sprite(s@, off as int) == Err::<
                Seq<Seq<SFSpriteSpriteObject>>,
                ContainerError,
            >(e),
        },
{
    let len: u64 = s.len() as u64;
    let o: u64 = off as u64;
    if o + 4 > len {
        return Err(ContainerError::TruncatedInput);
    }
    let amount: u64 = read_u16(s, o as usize) as u64;
    if o + 4 + 4 * amount > len {
        return Err(ContainerError::MalformedSection);
    }
    let mut entries: Vec<SFSpriteSpriteEntry> = Vec::new();
    let mut i: u64 = 0;
    while i < amount
        invariant
            0 <= i <= amount,
            o + 4 + 4 * amount <= len,
            o == off as u64,
            len == s@.len(),
            len <= usize::MAX,
            dec_sprite(s@, off as int) == dec_sprite_entries(s@, o as int, amount as int, 0),
            dec_sprite_entries(s@, o as int, amount as int, 0) == (match dec_sprite_entries(
                s@,
                o as int,
                amount as int,
                i as int,
            ) {
                Ok(rest) => Ok::<Seq<Seq<SFSpriteSpriteObject>>, ContainerError>(
                    entries@.map_values(|a: SFSpriteSpriteEntry| a.objects@) + rest,
                ),
                Err(e) => Err::<Seq<Seq<SFSpriteSpriteObject>>, ContainerError>(e),
            }),
        decreases amount - i,
    {
        let slot64: u64 = o + 4 + 4 * i;
        proof {
            assert(slot64 + 4 <= len);
        }
        let stored: u32 = read_u32(s, slot64 as usize);
        let target: u64 = o + stored as u64;
        let ghost prev_map = entries@.map_values(|a: SFSpriteSpriteEntry| a.objects@);
        match read_objects(s, target) {
            Err(e) => {
                proof {
                    assert(dec_sprite_entries(s@, o as int, amount as int, i as int) == Err::<
                        Seq<Seq<SFSpriteSpriteObject>>,
                        ContainerError,
                    >(e));
                }
                return Err(e);
            },
            Ok(objects) => {
                let ghost oseq = objects@;
                entries.push(SFSpriteSpriteEntry { objects });
                proof {
                    let sp = s@;
                    let oo = o as int;
                    let am = amount as int;
                    let ii = i as int;
                    let new_map = entries@.map_values(|a: SFSpriteSpriteEntry| a.objects@);
                    assert(new_map =~= prev_map + seq![oseq]);
                    match dec_sprite_entries(sp, oo, am, ii + 1) {
                        Ok(rest) => {
                            assert(dec_sprite_entries(sp, oo, am, ii) == Ok::<
                                Seq<Seq<SFSpriteSpriteObject>>,
                                ContainerError,
                            >(seq![oseq] + rest));
                            assert(prev_map + (seq![oseq] + rest) =~= new_map + rest);
                        },
                        Err(e) => {
                            assert(dec_sprite_entries(sp, oo, am, ii) == Err::<
                                Seq<Seq<SFSpriteSpriteObject>>,
                                ContainerError,
                            >(e));
                        },
                    }
                }
            },
        }
        i = i + 1;
    }
    let h = SFSpriteSpriteHeader { sprites: entries };
    proof {
        assert(h@ + Seq::<Seq<SFSpriteSpriteObject>>::empty() =~= h@);
    }
    Ok(h)
}

/// Decodes a whole sprite container.  The result is exactly what
/// [`spec_decode`] gives for the input bytes: the decoded document, or the
/// error rejecting the first section failure in tileset, palette,
/// animation, sprite order.
pub fn decode(bytes: &[u8]) -> (r: Result<SFSpriteFileHeader, ContainerError>)
    ensures
        match r {
            Ok(d) => spec_decode(bytes@) == Ok::<DocView, ContainerError>(d@),
            Err(e) => spec_decode(bytes@) == Err::<DocView, ContainerError>(e),
        },
{
    if bytes.len() < 20 {
        return Err(ContainerError::TruncatedInput);
    }
    let tileset_offset: u32 = read_u32(bytes, 0);
    let palette_offset: u32 = read_u32(bytes, 4);
    let animation_offset: u32 = read_u32(bytes, 8);
    let sprite_offset: u32 = read_u32(bytes, 12);
    let tile_number_shift: u32 = read_u32(bytes, 16);
    let mut tileset_header = match read_tileset_section(bytes, tileset_offset) {
        Ok(h) => h,
        Err(e) => {
            return Err(e);
        },
    };
    let palette_header = match read_palette_section(bytes, palette_offset) {
        Ok(h) => h,
        Err(e) => {
            return Err(e);
        },
    };
    let animation_header = match read_animation_section(bytes, animation_offset) {
        Ok(h) => h,
        Err(e) => {
            return Err(e);
        },
    };
    let sprite_header = match read_sprite_section(bytes, sprite_offset) {
        Ok(h) => h,
        Err(e) => {
            return Err(e);
        },
    };
    if matches!(palette_header.color_depth, ColorDepth::Depth4BPP) {
        proof {
            assert(tileset_header.tileset_data@.len() * 2 <= usize::MAX) by {
                assert(tileset_header.tileset_data@.len() <= 32 * 0xFFFF);
            };
        }
        tileset_header.tileset_data = unpack_tile_data(&tileset_header.tileset_data);
    }
    let d = SFSpriteFileHeader {
        tile_number_shift,
        tileset_header,
        palette_header,
        animation_header,
        sprite_header,
    };
    proof {
        assert(d@ =~~= spec_decode(bytes@)->Ok_0);
    }
    Ok(d)
}


/// Byte `i` of the serialized tile-range table: each range is four bytes,
/// its amount then its offset, both little-endian.
pub open spec fn entry_byte_at(entries: Seq<SFSpriteTilesetEntry>, i: int) -> u8 {
    let e = entries[i / 4];
    if i % 4 == 0 {
        (e.amount & 0xFF) as u8
    } else if i % 4 == 1 {
        ((e.amount >> 8) & 0xFF) as u8
    } else if i % 4 == 2 {
        (e.offset & 0xFF) as u8
    } else {
        ((e.offset >> 8) & 0xFF) as u8
    }
}

/// The serialized tile-range table.
pub open spec fn entries_bytes(entries: Seq<SFSpriteTilesetEntry>) -> Seq<u8> {
    Seq::new((entries.len() * 4) as nat, |i: int| entry_byte_at(entries, i))
}

/// The tile data as written to disk: packed two pixels to a byte under
/// 4-bit depth, unchanged under 8-bit depth.
pub open spec fn packed_tile_data(d: DocView) -> Seq<u8> {
    match d.palette.color_depth {
        ColorDepth::Depth4BPP => pack_4bpp(d.tileset.data),
        ColorDepth::Depth8BPP => d.tileset.data,
    }
}

/// The serialized tileset section: capacity, stored 32-byte-unit count,
/// table size plus its own 8-byte head, two padding bytes, the tile
/// ranges, the packed tile bytes.
pub open spec fn ts_bytes(d: DocView) -> Seq<u8> {
    u16_le(d.tileset.max_tiles) + u16_le((packed_tile_data(d).len() as int / 32) as u16) + u16_le(
        (d.tileset.entries.len() * 4 + 8) as u16,
    ) + seq![0u8, 0u8] + entries_bytes(d.tileset.entries) + packed_tile_data(d)
}

/// Byte `i` of the serialized color block: 16 colors of two little-endian
/// bytes for each palette in turn.
pub open spec fn color_byte_at(palettes: Seq<Seq<GBAColor>>, i: int) -> u8 {
    let c = palettes[i / 32][(i % 32) / 2];
    if i % 2 == 0 {
        (c.0 & 0xFF) as u8
    } else {
        ((c.0 >> 8) & 0xFF) as u8
    }
}

/// The serialized palette section: depth tag, palette count, colors.
pub open spec fn pal_bytes(d: DocView) -> Seq<u8> {
    u16_le(depth_tag(d.palette.color_depth)) + u16_le(d.palette.palettes.len() as u16) + Seq::new(
        (d.palette.palettes.len() * 32) as nat,
        |i: int| color_byte_at(d.palette.palettes, i),
    )
}

/// Byte `k` of one serialized animation frame.
pub open spec fn frame_byte(f: SFSpriteAnimationFrame, k: int) -> u8 {
    if k == 0 {
        f.sprite_id
    } else if k == 1 {
        f.delay
    } else if k == 2 {
        loop_flag_byte(f.loop_flag)
    } else {
        f.palette_id
    }
}

/// One serialized frame run: four bytes per frame.
pub open spec fn frames_bytes(frames: Seq<SFSpriteAnimationFrame>) -> Seq<u8> {
    Seq::new((frames.len() * 4) as nat, |i: int| frame_byte(frames[i / 4], i % 4))
}

/// How many frames the first `j` animation entries hold together.
pub open spec fn frames_total(anims: Seq<Seq<SFSpriteAnimationFrame>>, j: int) -> int
    decreases j,
{
    if j <= 0 {
        0
    } else {
        frames_total(anims, j - 1) + anims[j - 1].len()
    }
}

/// The value stored in animation table slot `j`: the entry's body offset
/// relative to the section start (table head and slots first, then the
/// bodies in order).
pub open spec fn anim_entry_off(anims: Seq<Seq<SFSpriteAnimationFrame>>, j: int) -> int {
    4 + 4 * anims.len() + 4 * frames_total(anims, j)
}

/// The first `j` animation bodies, concatenated.
pub open spec fn anim_bodies(anims: Seq<Seq<SFSpriteAnimationFrame>>, j: int) -> Seq<u8>
    decreases j,
{
    if j <= 0 {
        Seq::empty()
    } else {
        anim_bodies(anims, j - 1) + frames_bytes(anims[j - 1])
    }
}

/// The serialized animation section: entry count, two padding bytes, the
/// relative-offset table, then the sentinel-terminated frame runs.
pub open spec fn anim_bytes(d: DocView) -> Seq<u8> {
    u16_le(d.animations.len() as u16) + seq![0u8, 0u8] + Seq::new(
        (d.animations.len() * 4) as nat,
        |i: int| u32_le(anim_entry_off(d.animations, i / 4) as u32)[i % 4],
    ) + anim_bodies(d.animations, d.animations.len() as int)
}

/// Byte `k` of one serialized sprite object.
pub open spec fn obj_byte(o: SFSpriteSpriteObject, k: int) -> u8 {
    if k == 0 {
        o.tile_index_lower
    } else if k == 1 {
        o.x as u8
    } else if k == 2 {
        o.y as u8
    } else if k == 3 {
        (shape_code(o.shape) & 0xFF) as u8
    } else if k == 4 {
        ((shape_code(o.shape) >> 8) & 0xFF) as u8
    } else if k == 5 {
        flip_byte(o.flip_flag)
    } else if k == 6 {
        o.is_last
    } else {
        o.tile_index_upper
    }
}

/// One serialized object run: eight bytes per object.
pub open spec fn objects_bytes(objects: Seq<SFSpriteSpriteObject>) -> Seq<u8> {
    Seq::new((objects.len() * 8) as nat, |i: int| obj_byte(objects[i / 8], i % 8))
}

/// How many objects the first `j` sprite entries hold together.
pub open spec fn objects_total(sprites: Seq<Seq<SFSpriteSpriteObject>>, j: int) -> int
    decreases j,
{
    if j <= 0 {
        0
    } else {
        objects_total(sprites, j - 1) + sprites[j - 1].len()
    }
}

/// The value stored in sprite table slot `j`.
pub open spec fn sprite_entry_off(sprites: Seq<Seq<SFSpriteSpriteObject>>, j: int) -> int {
    4 + 4 * sprites.len() + 8 * objects_total(sprites, j)
}

/// The first `j` sprite bodies, concatenated.
pub open spec fn sprite_bodies(sprites: Seq<Seq<SFSpriteSpriteObject>>, j: int) -> Seq<u8>
    decreases j,
{
    if j <= 0 {
        Seq::empty()
    } else {
        sprite_bodies(sprites, j - 1) + objects_bytes(sprites[j - 1])
    }
}

/// The serialized sprite section.
pub open spec fn sprite_bytes(d: DocView) -> Seq<u8> {
    u16_le(d.sprites.len() as u16) + seq![0u8, 0u8] + Seq::new(
        (d.sprites.len() * 4) as nat,
        |i: int| u32_le(sprite_entry_off(d.sprites, i / 4) as u32)[i % 4],
    ) + sprite_bodies(d.sprites, d.sprites.len() as int)
}

/// The byte length of each serialized section, and of the whole container.
pub open spec fn ts_len(d: DocView) -> int {
    8 + 4 * d.tileset.entries.len() as int + packed_tile_data(d).len() as int
}

pub open spec fn pal_len(d: DocView) -> int {
    4 + 32 * d.palette.palettes.len() as int
}

pub open spec fn anim_len(d: DocView) -> int {
    4 + 4 * d.animations.len() as int + 4 * frames_total(d.animations, d.animations.len() as int)
}

pub open spec fn sprite_len(d: DocView) -> int {
    4 + 4 * d.sprites.len() as int + 8 * objects_total(d.sprites, d.sprites.len() as int)
}

pub open spec fn encoded_len(d: DocView) -> int {
    20 + ts_len(d) + pal_len(d) + anim_len(d) + sprite_len(d)
}

/// What the encoder accepts: the sentinel invariants hold, every palette
/// has its 16 colors, every count fits its on-disk field, and the whole
/// container fits 32-bit offsets.
pub open spec fn encodable(d: DocView) -> bool {
    &&& forall|i: int| 0 <= i < d.animations.len() ==> frames_wf(#[trigger] d.animations[i])
    &&& forall|i: int| 0 <= i < d.sprites.len() ==> objects_wf(#[trigger] d.sprites[i])
    &&& forall|i: int|
        0 <= i < d.palette.palettes.len() ==> (#[trigger] d.palette.palettes[i]).len() == 16
    &&& d.tileset.entries.len() * 4 + 8 <= 0xFFFF
    &&& d.palette.palettes.len() <= 0xFFFF
    &&& d.animations.len() <= 0xFFFF
    &&& d.sprites.len() <= 0xFFFF
    &&& packed_tile_data(d).len() / 32 <= 0xFFFF
    &&& encoded_len(d) <= 0xFFFF_FFFF
}

/// The serialized container: the four section offsets (the tileset begins
/// right after the 20-byte header, each later section right after the one
/// before it), the tile-number shift, then the four sections in order.
pub open spec fn spec_encode(d: DocView) -> Seq<u8> {
    u32_le(20) + u32_le((20 + ts_len(d)) as u32) + u32_le((20 + ts_len(d) + pal_len(d)) as u32)
        + u32_le((20 + ts_len(d) + pal_len(d) + anim_len(d)) as u32) + u32_le(d.tile_number_shift)
        + ts_bytes(d) + pal_bytes(d) + anim_bytes(d) + sprite_bytes(d)
}

/// A well-formed document whose serialization fits 32-bit offsets is
/// encodable.
pub proof fn lemma_wf_encodable(d: DocView)
    requires
        d.wf(),
        encoded_len(d) <= 0xFFFF_FFFF,
    ensures
        encodable(d),
{
    assert(packed_tile_data(d).len() == d.packed_data_len());
}

/// Prefix frame counts are monotone and non-negative.
pub proof fn lemma_frames_total_bounds(anims: Seq<Seq<SFSpriteAnimationFrame>>, j: int, k: int)
    requires
        0 <= j <= k,
    ensures
        0 <= frames_total(anims, j) <= frames_total(anims, k),
    decreases k,
{
    if k > j {
        lemma_frames_total_bounds(anims, j, k - 1);
    } else if j > 0 {
        lemma_frames_total_bounds(anims, j - 1, j - 1);
    }
}

/// Prefix object counts are monotone and non-negative.
pub proof fn lemma_objects_total_bounds(sprites: Seq<Seq<SFSpriteSpriteObject>>, j: int, k: int)
    requires
        0 <= j <= k,
    ensures
        0 <= objects_total(sprites, j) <= objects_total(sprites, k),
    decreases k,
{
    if k > j {
        lemma_objects_total_bounds(sprites, j, k - 1);
    } else if j > 0 {
        lemma_objects_total_bounds(sprites, j - 1, j - 1);
    }
}

/// The concatenated bodies of the first `j` animation entries hold four
/// bytes per frame.
pub proof fn lemma_anim_bodies_len(anims: Seq<Seq<SFSpriteAnimationFrame>>, j: int)
    requires
        0 <= j,
    ensures
        anim_bodies(anims, j).len() == 4 * frames_total(anims, j),
    decreases j,
{
    if j > 0 {
        lemma_anim_bodies_len(anims, j - 1);
    }
}

/// The concatenated bodies of the first `j` sprite entries hold eight
/// bytes per object.
pub proof fn lemma_sprite_bodies_len(sprites: Seq<Seq<SFSpriteSpriteObject>>, j: int)
    requires
        0 <= j,
    ensures
        sprite_bodies(sprites, j).len() == 8 * objects_total(sprites, j),
    decreases j,
{
    if j > 0 {
        lemma_sprite_bodies_len(sprites, j - 1);
    }
}


/// The on-disk tag byte of a loop flag.
fn byte_of_loop_flag(f: LoopFlag) -> (r: u8)
    ensures
        r == loop_flag_byte(f),
{
    match f {
        LoopFlag::NoLoop => 0x00,
        LoopFlag::End => 0x40,
        LoopFlag::Loop => 0x80,
    }
}

/// The on-disk tag byte of a flip value.
fn byte_of_flip(f: FilpFlag) -> (r: u8)
    ensures
        r == flip_byte(f),
{
    match f {
        FilpFlag::NoFlip => 0x00,
        FilpFlag::Horizontal => 0x01,
        FilpFlag::Vertical => 0x02,
        FilpFlag::Both => 0x03,
    }
}

/// The on-disk 16-bit tag of a shape.
fn code_of_shape(s: ObjectShape) -> (r: u16)
    ensures
        r == shape_code(s),
{
    match s {
        ObjectShape::Size8x8 => 0x0000,
        ObjectShape::Size16x8 => 0x0100,
        ObjectShape::Size8x16 => 0x0200,
        ObjectShape::Size16x16 => 0x0001,
        ObjectShape::Size32x8 => 0x0101,
        ObjectShape::Size8x32 => 0x0201,
        ObjectShape::Size32x32 => 0x0002,
        ObjectShape::Size32x16 => 0x0102,
        ObjectShape::Size16x32 => 0x0202,
        ObjectShape::Size64x64 => 0x0003,
        ObjectShape::Size64x32 => 0x0103,
        ObjectShape::Size32x64 => 0x0203,
    }
}

/// Whether a frame run satisfies its sentinel invariant.
fn frames_ok(frames: &Vec<SFSpriteAnimationFrame>) -> (b: bool)
    ensures
        b == frames_wf(frames@),
{
    if frames.len() == 0 {
        return false;
    }
    let mut i: usize = 0;
    while i < frames.len() - 1
        invariant
            frames@.len() >= 1,
            0 <= i <= frames@.len() - 1,
            forall|j: int| 0 <= j < i ==> frames@[j].loop_flag == LoopFlag::NoLoop,
        decreases frames@.len() - 1 - i,
    {
        if !matches!(frames[i].loop_flag, LoopFlag::NoLoop) {
            return false;
        }
        i = i + 1;
    }
    !matches!(frames[frames.len() - 1].loop_flag, LoopFlag::NoLoop)
}

/// Whether an object run satisfies its sentinel invariant.
fn objects_ok(objects: &Vec<SFSpriteSpriteObject>) -> (b: bool)
    ensures
        b == objects_wf(objects@),
{
    if objects.len() == 0 {
        return false;
    }
    let mut i: usize = 0;
    while i < objects.len() - 1
        invariant
            objects@.len() >= 1,
            0 <= i <= objects@.len() - 1,
            forall|j: int| 0 <= j < i ==> objects@[j].is_last == 0,
        decreases objects@.len() - 1 - i,
    {
        if objects[i].is_last != 0 {
            return false;
        }
        i = i + 1;
    }
    objects[objects.len() - 1].is_last != 0
}

/// Serializes the tileset section of `d`.
fn enc_tileset(h: &SFSpriteTilesetHeader, depth: ColorDepth, Ghost(d): Ghost<DocView>) -> (r:
    Vec<u8>)
    requires
        d.tileset == h@,
        d.palette.color_depth == depth,
        d.tileset.entries.len() * 4 + 8 <= 0xFFFF,
        packed_tile_data(d).len() / 32 <= 0xFFFF,
    ensures
        r@ == ts_bytes(d),
{
    let mut packed: Vec<u8> = match depth {
        ColorDepth::Depth4BPP => pack_tile_data(&h.tileset_data),
        ColorDepth::Depth8BPP => vstd::slice::slice_to_vec(h.tileset_data.as_slice()),
    };
    let mut out: Vec<u8> = Vec::new();
    push_u16(&mut out, h.max_tiles);
    proof {
        assert(packed@.len() / 32 <= 0xFFFF);
    }
    push_u16(&mut out, (packed.len() / 32) as u16);
    push_u16(&mut out, (h.tileset_entries.len() * 4 + 8) as u16);
    out.push(0);
    out.push(0);
    let ghost head = u16_le(d.tileset.max_tiles) + u16_le(
        (packed_tile_data(d).len() as int / 32) as u16,
    ) + u16_le((d.tileset.entries.len() * 4 + 8) as u16) + seq![0u8, 0u8];
    let ghost table = entries_bytes(d.tileset.entries);
    proof {
        assert(out@ =~= head + table.take(0));
    }
    let n: usize = h.tileset_entries.len();
    let mut i: usize = 0;
    while i < n
        invariant
            0 <= i <= n,
            n == d.tileset.entries.len(),
            h@ == d.tileset,
            table == entries_bytes(d.tileset.entries),
            head.len() == 8,
            out@ == head + table.take(4 * i),
        decreases n - i,
    {
        let e: SFSpriteTilesetEntry = h.tileset_entries[i];
        out.push((e.amount & 0xFF) as u8);
        out.push(((e.amount >> 8) & 0xFF) as u8);
        out.push((e.offset & 0xFF) as u8);
        out.push(((e.offset >> 8) & 0xFF) as u8);
        proof {
            assert(out@ =~= head + table.take(4 * (i + 1)));
        }
        i = i + 1;
    }
    proof {
        assert(table.take(4 * n as int) =~= table);
    }
    out.append(&mut packed);
    proof {
        assert(out@ =~= ts_bytes(d));
    }
    out
}

/// Serializes the palette section of `d`.
fn enc_palette(h: &SFSpritePaletteHeader, Ghost(d): Ghost<DocView>) -> (r: Vec<u8>)
    requires
        d.palette == h@,
        d.palette.palettes.len() <= 0xFFFF,
    ensures
        r@ == pal_bytes(d),
{
    let mut out: Vec<u8> = Vec::new();
    let tag: u16 = match h.color_depth {
        ColorDepth::Depth4BPP => 5,
        ColorDepth::Depth8BPP => 6,
    };
    push_u16(&mut out, tag);
    push_u16(&mut out, h.palettes.len() as u16);
    let ghost head = u16_le(depth_tag(d.palette.color_depth)) + u16_le(
        d.palette.palettes.len() as u16,
    );
    let ghost colors = Seq::new(
        (d.palette.palettes.len() * 32) as nat,
        |i: int| color_byte_at(d.palette.palettes, i),
    );
    proof {
        assert(out@ =~= head + colors.take(0));
    }
    let mp: usize = h.palettes.len();
    let mut i: usize = 0;
    while i < mp
        invariant
            0 <= i <= mp,
            mp == d.palette.palettes.len(),
            h@ == d.palette,
            colors == Seq::new(
                (d.palette.palettes.len() * 32) as nat,
                |t: int| color_byte_at(d.palette.palettes, t),
            ),
            head.len() == 4,
            out@ == head + colors.take(32 * i),
        decreases mp - i,
    {
        let pal: [GBAColor; 16] = h.palettes[i];
        let mut j: usize = 0;
        while j < 16
            invariant
                0 <= j <= 16,
                0 <= i < mp,
                mp == d.palette.palettes.len(),
                h@ == d.palette,
                pal@ == d.palette.palettes[i as int],
                colors == Seq::new(
                    (d.palette.palettes.len() * 32) as nat,
                    |t: int| color_byte_at(d.palette.palettes, t),
                ),
                head.len() == 4,
                out@ == head + colors.take(32 * i + 2 * j),
            decreases 16 - j,
        {
            let c: GBAColor = pal[j];
            out.push((c.0 & 0xFF) as u8);
            out.push(((c.0 >> 8) & 0xFF) as u8);
            proof {
                let t0 = 32 * i + 2 * j;
                assert(colors[t0] == color_byte_at(d.palette.palettes, t0));
                assert(t0 / 32 == i && (t0 % 32) / 2 == j && t0 % 2 == 0 && (t0 + 1) / 32 == i
                    && ((t0 + 1) % 32) / 2 == j && (t0 + 1) % 2 == 1) by (nonlinear_arith)
                    requires
                        0 <= i,
                        0 <= j < 16,
                        t0 == 32 * i + 2 * j,
                ;
                assert(out@ =~= head + colors.take(32 * i + 2 * (j + 1)));
            }
            j = j + 1;
        }
        i = i + 1;
    }
    proof {
        assert(colors.take(32 * mp as int) =~= colors);
        assert(out@ =~= pal_bytes(d));
    }
    out
}

/// Serializes the animation section of `d`.
fn enc_animation(h: &SFSpriteAnimationHeader, Ghost(d): Ghost<DocView>) -> (r: Vec<u8>)
    requires
        d.animations == h@,
        encodable(d),
    ensures
        r@ == anim_bytes(d),
{
    let a_count: usize = h.animations.len();
    let mut out: Vec<u8> = Vec::new();
    push_u16(&mut out, a_count as u16);
    out.push(0);
    out.push(0);
    let ghost head = u16_le(d.animations.len() as u16) + seq![0u8, 0u8];
    let ghost table = Seq::new(
        (d.animations.len() * 4) as nat,
        |i: int| u32_le(anim_entry_off(d.animations, i / 4) as u32)[i % 4],
    );
    proof {
        assert(out@ =~= head + table.take(0));
    }
    let mut running: u64 = 4 + 4 * (a_count as u64);
    let mut j: usize = 0;
    while j < a_count
        invariant
            0 <= j <= a_count,
            a_count == d.animations.len(),
            h@ == d.animations,
            encodable(d),
            table == Seq::new(
                (d.animations.len() * 4) as nat,
                |t: int| u32_le(anim_entry_off(d.animations, t / 4) as u32)[t % 4],
            ),
            head.len() == 4,
            running == anim_entry_off(d.animations, j as int),
            out@ == head + table.take(4 * j),
        decreases a_count - j,
    {
        proof {
            lemma_frames_total_bounds(d.animations, j as int, a_count as int);
            lemma_objects_total_bounds(d.sprites, 0, d.sprites.len() as int);
            assert(anim_entry_off(d.animations, j as int) <= anim_len(d));
            assert(running <= 0xFFFF_FFFF);
        }
        push_u32(&mut out, running as u32);
        proof {
            let t0 = 4 * j;
            assert forall|k: int| 0 <= k < 4 implies #[trigger] table[t0 + k] == u32_le(
                anim_entry_off(d.animations, j as int) as u32,
            )[k] by {
                assert((t0 + k) / 4 == j && (t0 + k) % 4 == k) by (nonlinear_arith)
                    requires
                        0 <= j,
                        0 <= k < 4,
                        t0 == 4 * j,
                ;
            }
            assert(out@ =~= head + table.take(4 * (j + 1)));
            lemma_frames_total_bounds(d.animations, j as int + 1, a_count as int);
            assert(frames_total(d.animations, j as int + 1) == frames_total(
                d.animations,
                j as int,
            ) + d.animations[j as int].len());
            assert(anim_entry_off(d.animations, j as int + 1) <= anim_len(d));
        }
        let fl: usize = h.animations[j].frames.len();
        running = running + 4 * (fl as u64);
        j = j + 1;
    }
    proof {
        assert(table.take(4 * a_count as int) =~= table);
    }
    let mut j: usize = 0;
    while j < a_count
        invariant
            0 <= j <= a_count,
            a_count == d.animations.len(),
            h@ == d.animations,
            table == Seq::new(
                (d.animations.len() * 4) as nat,
                |t: int| u32_le(anim_entry_off(d.animations, t / 4) as u32)[t % 4],
            ),
            head.len() == 4,
            out@ == head + table + anim_bodies(d.animations, j as int),
        decreases a_count - j,
    {
        let frames: &Vec<SFSpriteAnimationFrame> = &h.animations[j].frames;
        let ghost fseq = d.animations[j as int];
        proof {
            assert(frames@ == fseq);
        }
        let fl: usize = frames.len();
        let mut k: usize = 0;
        while k < fl
            invariant
                0 <= k <= fl,
                fl == fseq.len(),
                frames@ == fseq,
                out@ == head + table + anim_bodies(d.animations, j as int) + frames_bytes(
                    fseq,
                ).take(4 * k),
            decreases fl - k,
        {
            let f: SFSpriteAnimationFrame = frames[k];
            out.push(f.sprite_id);
            out.push(f.delay);
            out.push(byte_of_loop_flag(f.loop_flag));
            out.push(f.palette_id);
            proof {
                let t0 = 4 * k;
                assert forall|t: int| 0 <= t < 4 implies #[trigger] frames_bytes(fseq)[t0 + t] == frame_byte(
                    fseq[k as int],
                    t,
                ) by {
                    assert((t0 + t) / 4 == k && (t0 + t) % 4 == t) by (nonlinear_arith)
                        requires
                            0 <= k,
                            0 <= t < 4,
                            t0 == 4 * k,
                    ;
                }
                assert(out@ =~= head + table + anim_bodies(d.animations, j as int) + frames_bytes(
                    fseq,
                ).take(4 * (k + 1)));
            }
            k = k + 1;
        }
        proof {
            assert(frames_bytes(fseq).take(4 * fl as int) =~= frames_bytes(fseq));
            assert(anim_bodies(d.animations, j as int + 1) == anim_bodies(
                d.animations,
                j as int,
            ) + frames_bytes(fseq));
            assert(out@ =~= head + table + anim_bodies(d.animations, j as int + 1));
        }
        j = j + 1;
    }
    proof {
        assert(out@ =~= anim_bytes(d));
    }
    out
}

/// Serializes the sprite section of `d`.
fn enc_sprite(h: &SFSpriteSpriteHeader, Ghost(d): Ghost<DocView>) -> (r: Vec<u8>)
    requires
        d.sprites == h@,
        encodable(d),
    ensures
        r@ == sprite_bytes(d),
{
    let s_count: usize = h.sprites.len();
    let mut out: Vec<u8> = Vec::new();
    push_u16(&mut out, s_count as u16);
    out.push(0);
    out.push(0);
    let ghost head = u16_le(d.sprites.len() as u16) + seq![0u8, 0u8];
    let ghost table = Seq::new(
        (d.sprites.len() * 4) as nat,
        |i: int| u32_le(sprite_entry_off(d.sprites, i / 4) as u32)[i % 4],
    );
    proof {
        assert(out@ =~= head + table.take(0));
    }
    let mut running: u64 = 4 + 4 * (s_count as u64);
    let mut j: usize = 0;
    while j < s_count
        invariant
            0 <= j <= s_count,
            s_count == d.sprites.len(),
            h@ == d.sprites,
            encodable(d),
            table == Seq::new(
                (d.sprites.len() * 4) as nat,
                |t: int| u32_le(sprite_entry_off(d.sprites, t / 4) as u32)[t % 4],
            ),
            head.len() == 4,
            running == sprite_entry_off(d.sprites, j as int),
            out@ == head + table.take(4 * j),
        decreases s_count - j,
    {
        proof {
            lemma_objects_total_bounds(d.sprites, j as int, s_count as int);
            lemma_frames_total_bounds(d.animations, 0, d.animations.len() as int);
            assert(sprite_entry_off(d.sprites, j as int) <= sprite_len(d));
            assert(running <= 0xFFFF_FFFF);
        }
        push_u32(&mut out, running as u32);
        proof {
            let t0 = 4 * j;
            assert forall|k: int| 0 <= k < 4 implies #[trigger] table[t0 + k] == u32_le(
                sprite_entry_off(d.sprites, j as int) as u32,
            )[k] by {
                assert((t0 + k) / 4 == j && (t0 + k) % 4 == k) by (nonlinear_arith)
                    requires
                        0 <= j,
                        0 <= k < 4,
                        t0 == 4 * j,
                ;
            }
            assert(out@ =~= head + table.take(4 * (j + 1)));
            lemma_objects_total_bounds(d.sprites, j as int + 1, s_count as int);
            assert(objects_total(d.sprites, j as int + 1) == objects_total(d.sprites, j as int)
                + d.sprites[j as int].len());
            assert(sprite_entry_off(d.sprites, j as int + 1) <= sprite_len(d));
        }
        let ol: usize = h.sprites[j].objects.len();
        running = running + 8 * (ol as u64);
        j = j + 1;
    }
    proof {
        assert(table.take(4 * s_count as int) =~= table);
    }
    let mut j: usize = 0;
    while j < s_count
        invariant
            0 <= j <= s_count,
            s_count == d.sprites.len(),
            h@ == d.sprites,
            table == Seq::new(
                (d.sprites.len() * 4) as nat,
                |t: int| u32_le(sprite_entry_off(d.sprites, t / 4) as u32)[t % 4],
            ),
            head.len() == 4,
            out@ == head + table + sprite_bodies(d.sprites, j as int),
        decreases s_count - j,
    {
        let objects: &Vec<SFSpriteSpriteObject> = &h.sprites[j].objects;
        let ghost oseq = d.sprites[j as int];
        proof {
            assert(objects@ == oseq);
        }
        let ol: usize = objects.len();
        let mut k: usize = 0;
        while k < ol
            invariant
                0 <= k <= ol,
                ol == oseq.len(),
                objects@ == oseq,
                out@ == head + table + sprite_bodies(d.sprites, j as int) + objects_bytes(
                    oseq,
                ).take(8 * k),
            decreases ol - k,
        {
            let o: SFSpriteSpriteObject = objects[k];
            let code: u16 = code_of_shape(o.shape);
            out.push(o.tile_index_lower);
            out.push(#[verifier::truncate] (o.x as u8));
            out.push(#[verifier::truncate] (o.y as u8));
            out.push((code & 0xFF) as u8);
            out.push(((code >> 8) & 0xFF) as u8);
            out.push(byte_of_flip(o.flip_flag));
            out.push(o.is_last);
            out.push(o.tile_index_upper);
            proof {
                let t0 = 8 * k;
                assert forall|t: int| 0 <= t < 8 implies #[trigger] objects_bytes(oseq)[t0 + t] == obj_byte(
                    oseq[k as int],
                    t,
                ) by {
                    assert((t0 + t) / 8 == k && (t0 + t) % 8 == t) by (nonlinear_arith)
                        requires
                            0 <= k,
                            0 <= t < 8,
                            t0 == 8 * k,
                    ;
                }
                assert(out@ =~= head + table + sprite_bodies(d.sprites, j as int) + objects_bytes(
                    oseq,
                ).take(8 * (k + 1)));
            }
            k = k + 1;
        }
        proof {
            assert(objects_bytes(oseq).take(8 * ol as int) =~= objects_bytes(oseq));
            assert(sprite_bodies(d.sprites, j as int + 1) == sprite_bodies(
                d.sprites,
                j as int,
            ) + objects_bytes(oseq));
            assert(out@ =~= head + table + sprite_bodies(d.sprites, j as int + 1));
        }
        j = j + 1;
    }
    proof {
        assert(out@ =~= sprite_bytes(d));
    }
    out
}

/// Encodes a document.  Succeeds exactly on [`encodable`] documents — the
/// sentinel invariants hold, palettes have 16 colors, every count fits its
/// on-disk field, and the whole container fits 32-bit offsets — and then
/// returns exactly the bytes of [`spec_encode`]; everything else is
/// rejected as `MalformedSection`.
pub fn encode(doc: &SFSpriteFileHeader) -> (r: Result<Vec<u8>, ContainerError>)
    ensures
        match r {
            Ok(b) => encodable(doc@) && b@ == spec_encode(doc@),
            Err(e) => !encodable(doc@) && e == ContainerError::MalformedSection,
        },
{
    let ghost d = doc@;
    if doc.tileset_header.tileset_entries.len() > 16381 {
        return Err(ContainerError::MalformedSection);
    }
    if doc.palette_header.palettes.len() > 0xFFFF {
        return Err(ContainerError::MalformedSection);
    }
    if doc.animation_header.animations.len() > 0xFFFF {
        return Err(ContainerError::MalformedSection);
    }
    if doc.sprite_header.sprites.len() > 0xFFFF {
        return Err(ContainerError::MalformedSection);
    }
    let packed_len: usize = match doc.palette_header.color_depth {
        ColorDepth::Depth4BPP => doc.tileset_header.tileset_data.len() / 2,
        ColorDepth::Depth8BPP => doc.tileset_header.tileset_data.len(),
    };
    proof {
        assert(packed_len == packed_tile_data(d).len());
    }
    if packed_len / 32 > 0xFFFF {
        return Err(ContainerError::MalformedSection);
    }
    let a_count: usize = doc.animation_header.animations.len();
    let mut i: usize = 0;
    while i < a_count
        invariant
            0 <= i <= a_count,
            a_count == d.animations.len(),
            doc@ == d,
            forall|j: int| 0 <= j < i ==> frames_wf(#[trigger] d.animations[j]),
        decreases a_count - i,
    {
        if !frames_ok(&doc.animation_header.animations[i].frames) {
            proof {
                assert(!frames_wf(d.animations[i as int]));
            }
            return Err(ContainerError::MalformedSection);
        }
        i = i + 1;
    }
    let s_count: usize = doc.sprite_header.sprites.len();
    let mut i: usize = 0;
    while i < s_count
        invariant
            0 <= i <= s_count,
            s_count == d.sprites.len(),
            doc@ == d,
            forall|j: int| 0 <= j < i ==> objects_wf(#[trigger] d.sprites[j]),
        decreases s_count - i,
    {
        if !objects_ok(&doc.sprite_header.sprites[i].objects) {
            proof {
                assert(!objects_wf(d.sprites[i as int]));
            }
            return Err(ContainerError::MalformedSection);
        }
        i = i + 1;
    }
    // The container must fit 32-bit offsets: sum every section's size,
    // rejecting as soon as the frame or object totals alone are too big.
    let mut ftotal: u64 = 0;
    let mut i: usize = 0;
    while i < a_count
        invariant
            0 <= i <= a_count,
            a_count == d.animations.len(),
            doc@ == d,
            ftotal == frames_total(d.animations, i as int),
            ftotal <= 0xFFFF_FFFF,
        decreases a_count - i,
    {
        let fl: usize = doc.animation_header.animations[i].frames.len();
        if fl as u64 > 0xFFFF_FFFF || ftotal + fl as u64 > 0xFFFF_FFFF {
            proof {
                lemma_frames_total_bounds(d.animations, i as int + 1, a_count as int);
                lemma_objects_total_bounds(d.sprites, 0, d.sprites.len() as int);
                assert(encoded_len(d) > 0xFFFF_FFFF);
            }
            return Err(ContainerError::MalformedSection);
        }
        ftotal = ftotal + fl as u64;
        i = i + 1;
    }
    let mut ototal: u64 = 0;
    let mut i: usize = 0;
    while i < s_count
        invariant
            0 <= i <= s_count,
            s_count == d.sprites.len(),
            doc@ == d,
            ototal == objects_total(d.sprites, i as int),
            ototal <= 0xFFFF_FFFF,
        decreases s_count - i,
    {
        let ol: usize = doc.sprite_header.sprites[i].objects.len();
        if ol as u64 > 0xFFFF_FFFF || ototal + ol as u64 > 0xFFFF_FFFF {
            proof {
                lemma_objects_total_bounds(d.sprites, i as int + 1, s_count as int);
                lemma_frames_total_bounds(d.animations, 0, d.animations.len() as int);
                assert(encoded_len(d) > 0xFFFF_FFFF);
            }
            return Err(ContainerError::MalformedSection);
        }
        ototal = ototal + ol as u64;
        i = i + 1;
    }
    let e_count: usize = doc.tileset_header.tileset_entries.len();
    let total: u128 = 20 + (8 + 4 * (e_count as u128) + packed_len as u128) + (4 + 32 * (
    doc.palette_header.palettes.len() as u128)) + (4 + 4 * (a_count as u128) + 4 * (
    ftotal as u128)) + (4 + 4 * (s_count as u128) + 8 * (ototal as u128));
    proof {
        assert(total == encoded_len(d));
    }
    if total > 0xFFFF_FFFF {
        return Err(ContainerError::MalformedSection);
    }
    proof {
        assert forall|j: int| 0 <= j < d.palette.palettes.len() implies (#[trigger] d.palette
            .palettes[j]).len() == 16 by {
            assert(d.palette.palettes[j] == doc.palette_header.palettes@.map_values(
                |p: [GBAColor; 16]| p@,
            )[j]);
        }
        assert(encodable(d));
    }
    let ts = enc_tileset(&doc.tileset_header, doc.palette_header.color_depth, Ghost(d));
    let pal = enc_palette(&doc.palette_header, Ghost(d));
    let anim = enc_animation(&doc.animation_header, Ghost(d));
    let spr = enc_sprite(&doc.sprite_header, Ghost(d));
    let mut out: Vec<u8> = Vec::new();
    proof {
        lemma_anim_bodies_len(d.animations, d.animations.len() as int);
        lemma_sprite_bodies_len(d.sprites, d.sprites.len() as int);
        assert(ts@.len() == ts_len(d));
        assert(pal@.len() == pal_len(d));
        assert(anim@.len() == anim_len(d));
        assert(spr@.len() == sprite_len(d));
        lemma_frames_total_bounds(d.animations, 0, d.animations.len() as int);
        lemma_objects_total_bounds(d.sprites, 0, d.sprites.len() as int);
    }
    let t_off: u64 = 20;
    let p_off: u64 = t_off + ts.len() as u64;
    let a_off: u64 = p_off + pal.len() as u64;
    let s_off: u64 = a_off + anim.len() as u64;
    proof {
        assert(s_off + spr@.len() == encoded_len(d));
    }
    push_u32(&mut out, t_off as u32);
    push_u32(&mut out, p_off as u32);
    push_u32(&mut out, a_off as u32);
    push_u32(&mut out, s_off as u32);
    push_u32(&mut out, doc.tile_number_shift);
    let mut ts = ts;
    let mut pal = pal;
    let mut anim = anim;
    let mut spr = spr;
    out.append(&mut ts);
    out.append(&mut pal);
    out.append(&mut anim);
    out.append(&mut spr);
    proof {
        assert(out@ =~= spec_encode(d));
    }
    Ok(out)
}


/// Every frame run the decoder accepts satisfies the sentinel invariant:
/// it is non-empty and exactly its last frame has a terminal loop flag.
pub proof fn lemma_dec_frames_wf(s: Seq<u8>, pos: int, frames: Seq<SFSpriteAnimationFrame>)
    requires
        dec_frames(s, pos) == Ok::<Seq<SFSpriteAnimationFrame>, ContainerError>(frames),
    ensures
        frames_wf(frames),
    decreases s.len() - pos,
{
    let lf = byte_to_loop_flag(s[pos + 2])->Some_0;
    if lf != LoopFlag::NoLoop {
        assert(frames =~= seq![dec_frames(s, pos)->Ok_0[0]]);
    } else {
        let rest = dec_frames(s, pos + 4)->Ok_0;
        lemma_dec_frames_wf(s, pos + 4, rest);
        assert(frames.last() == rest.last());
        assert forall|i: int| 0 <= i < frames.len() - 1 implies frames[i].loop_flag
            == LoopFlag::NoLoop by {
            if i > 0 {
                assert(frames[i] == rest[i - 1]);
            }
        }
    }
}

/// Every object run the decoder accepts satisfies the sentinel invariant.
pub proof fn lemma_dec_objects_wf(s: Seq<u8>, pos: int, objects: Seq<SFSpriteSpriteObject>)
    requires
        dec_objects(s, pos) == Ok::<Seq<SFSpriteSpriteObject>, ContainerError>(objects),
    ensures
        objects_wf(objects),
    decreases s.len() - pos,
{
    let o = dec_objects(s, pos)->Ok_0[0];
    if s[pos + 6] != 0 {
        assert(objects =~= seq![o]);
    } else {
        let rest = dec_objects(s, pos + 8)->Ok_0;
        lemma_dec_objects_wf(s, pos + 8, rest);
        assert(objects.last() == rest.last());
        assert forall|i: int| 0 <= i < objects.len() - 1 implies objects[i].is_last == 0 by {
            if i > 0 {
                assert(objects[i] == rest[i - 1]);
            }
        }
    }
}

/// Every animation entry run the decoder accepts satisfies the sentinel
/// invariant entry by entry.
pub proof fn lemma_dec_anim_entries_wf(
    s: Seq<u8>,
    off: int,
    amount: int,
    i: int,
    entries: Seq<Seq<SFSpriteAnimationFrame>>,
)
    requires
        dec_anim_entries(s, off, amount, i) == Ok::<
            Seq<Seq<SFSpriteAnimationFrame>>,
            ContainerError,
        >(entries),
    ensures
        forall|j: int| 0 <= j < entries.len() ==> frames_wf(#[trigger] entries[j]),
        entries.len() == if amount >= i { amount - i } else { 0 },
    decreases amount - i,
{
    if i < amount {
        let target = off + r32(s, off + 4 + 4 * i) as int;
        let frames = dec_frames(s, target)->Ok_0;
        let rest = dec_anim_entries(s, off, amount, i + 1)->Ok_0;
        lemma_dec_frames_wf(s, target, frames);
        lemma_dec_anim_entries_wf(s, off, amount, i + 1, rest);
        assert forall|j: int| 0 <= j < entries.len() implies frames_wf(#[trigger] entries[j]) by {
            if j > 0 {
                assert(entries[j] == rest[j - 1]);
            }
        }
    }
}

/// Every sprite entry run the decoder accepts satisfies the sentinel
/// invariant entry by entry.
pub proof fn lemma_dec_sprite_entries_wf(
    s: Seq<u8>,
    off: int,
    amount: int,
    i: int,
    entries: Seq<Seq<SFSpriteSpriteObject>>,
)
    requires
        dec_sprite_entries(s, off, amount, i) == Ok::<
            Seq<Seq<SFSpriteSpriteObject>>,
            ContainerError,
        >(entries),
    ensures
        forall|j: int| 0 <= j < entries.len() ==> objects_wf(#[trigger] entries[j]),
        entries.len() == if amount >= i { amount - i } else { 0 },
    decreases amount - i,
{
    if i < amount {
        let target = off + r32(s, off + 4 + 4 * i) as int;
        let objects = dec_objects(s, target)->Ok_0;
        let rest = dec_sprite_entries(s, off, amount, i + 1)->Ok_0;
        lemma_dec_objects_wf(s, target, objects);
        lemma_dec_sprite_entries_wf(s, off, amount, i + 1, rest);
        assert forall|j: int| 0 <= j < entries.len() implies objects_wf(
            #[trigger] entries[j],
        ) by {
            if j > 0 {
                assert(entries[j] == rest[j - 1]);
            }
        }
    }
}

/// Every document the decoder accepts is well-formed: the sentinel
/// invariants hold, palettes have 16 colors, counts fit their fields, the
/// tile data is whole 32-byte units, and 4-bit documents hold even counts
/// of nibble-sized pixels.
pub proof fn lemma_decode_wf(s: Seq<u8>, d: DocView)
    requires
        spec_decode(s) == Ok::<DocView, ContainerError>(d),
    ensures
        d.wf(),
{
    let ts = dec_tileset(s, r32(s, 0) as int)->Ok_0;
    let pal = dec_palette(s, r32(s, 4) as int)->Ok_0;
    let anims = dec_anim(s, r32(s, 8) as int)->Ok_0;
    let sprites = dec_sprite(s, r32(s, 12) as int)->Ok_0;
    lemma_dec_anim_entries_wf(s, r32(s, 8) as int, r16(s, r32(s, 8) as int) as int, 0, anims);
    lemma_dec_sprite_entries_wf(
        s,
        r32(s, 12) as int,
        r16(s, r32(s, 12) as int) as int,
        0,
        sprites,
    );
    let toff = r32(s, 0) as int;
    let hs = r16(s, toff + 4) as int;
    let n = (hs - 8) / 4;
    assert(ts.entries.len() == n);
    assert(n * 4 + 8 <= 0xFFFF);
    let total = r16(s, toff + 2) as int;
    assert(ts.data.len() == 32 * total);
    if pal.color_depth == ColorDepth::Depth4BPP {
        assert(d.tileset.data =~= unpack_4bpp(ts.data));
        assert(d.tileset.data.len() == 64 * total);
        assert(d.packed_data_len() == 32 * total);
        assert forall|i: int| 0 <= i < d.tileset.data.len() implies d.tileset.data[i] < 16 by {
            let b = ts.data[i / 2];
            assert((b & 0xF) < 16 && (b >> 4) < 16) by (bit_vector);
        }
    } else {
        assert(d.packed_data_len() == 32 * total);
    }
}

/// Reading four serialized bytes of a 32-bit value at `i` gives the value.
proof fn lemma_r32_at(s: Seq<u8>, i: int, x: u32)
    requires
        0 <= i,
        i + 4 <= s.len(),
        s.subrange(i, i + 4) == u32_le(x),
    ensures
        r32(s, i) == x,
{
    assert(s[i] == u32_le(x)[0]);
    assert(s[i + 1] == u32_le(x)[1]);
    assert(s[i + 2] == u32_le(x)[2]);
    assert(s[i + 3] == u32_le(x)[3]);
    lemma_r32_of_u32_le(x, s[i], s[i + 1], s[i + 2], s[i + 3]);
}

/// Decoding a frame run from its own serialization returns the run, for
/// every run satisfying the sentinel invariant.
pub proof fn lemma_dec_frames_of_encoding(s: Seq<u8>, pos: int, frames: Seq<SFSpriteAnimationFrame>)
    requires
        frames_wf(frames),
        0 <= pos,
        pos + 4 * frames.len() <= s.len(),
        s.subrange(pos, pos + 4 * frames.len()) == frames_bytes(frames),
    ensures
        dec_frames(s, pos) == Ok::<Seq<SFSpriteAnimationFrame>, ContainerError>(frames),
    decreases frames.len(),
{
    let fb = frames_bytes(frames);
    let f0 = frames[0];
    assert forall|t: int| 0 <= t < 4 implies s[pos + t] == frame_byte(f0, t) by {
        assert(s[pos + t] == s.subrange(pos, pos + 4 * frames.len())[t]);
        assert(fb[t] == frame_byte(frames[t / 4], t % 4));
    }
    assert(s[pos + 0] == frame_byte(f0, 0));
    assert(s[pos + 1] == frame_byte(f0, 1));
    assert(s[pos + 2] == frame_byte(f0, 2));
    assert(s[pos + 3] == frame_byte(f0, 3));
    assert(byte_to_loop_flag(loop_flag_byte(f0.loop_flag)) == Some(f0.loop_flag));
    let got = SFSpriteAnimationFrame {
        sprite_id: s[pos],
        delay: s[pos + 1],
        loop_flag: f0.loop_flag,
        palette_id: s[pos + 3],
    };
    assert(got == f0);
    if frames.len() == 1 {
        assert(f0.loop_flag != LoopFlag::NoLoop);
        assert(dec_frames(s, pos)->Ok_0 =~= frames);
    } else {
        assert(frames[0].loop_flag == LoopFlag::NoLoop);
        let rest = frames.drop_first();
        assert(frames_wf(rest)) by {
            assert(rest.last() == frames.last());
            assert forall|i: int| 0 <= i < rest.len() - 1 implies rest[i].loop_flag
                == LoopFlag::NoLoop by {
                assert(rest[i] == frames[i + 1]);
            }
        }
        assert(s.subrange(pos + 4, pos + 4 + 4 * rest.len()) =~= frames_bytes(rest)) by {
            assert forall|t: int| 0 <= t < 4 * rest.len() implies s[pos + 4 + t] == frames_bytes(
                rest,
            )[t] by {
                assert(s[pos + 4 + t] == s.subrange(pos, pos + 4 * frames.len())[4 + t]);
                assert(fb[4 + t] == frame_byte(frames[(4 + t) / 4], (4 + t) % 4));
                assert((4 + t) / 4 == 1 + t / 4 && (4 + t) % 4 == t % 4);
                assert(frames_bytes(rest)[t] == frame_byte(rest[t / 4], t % 4));
                assert(rest[t / 4] == frames[1 + t / 4]);
            }
        }
        lemma_dec_frames_of_encoding(s, pos + 4, rest);
        assert(dec_frames(s, pos)->Ok_0 =~= seq![f0] + rest);
        assert(seq![f0] + rest =~= frames);
    }
}

/// Decoding an object run from its own serialization returns the run.
pub proof fn lemma_dec_objects_of_encoding(s: Seq<u8>, pos: int, objects: Seq<SFSpriteSpriteObject>)
    requires
        objects_wf(objects),
        0 <= pos,
        pos + 8 * objects.len() <= s.len(),
        s.subrange(pos, pos + 8 * objects.len()) == objects_bytes(objects),
    ensures
        dec_objects(s, pos) == Ok::<Seq<SFSpriteSpriteObject>, ContainerError>(objects),
    decreases objects.len(),
{
    let ob = objects_bytes(objects);
    let o0 = objects[0];
    assert forall|t: int| 0 <= t < 8 implies s[pos + t] == obj_byte(o0, t) by {
        assert(s[pos + t] == s.subrange(pos, pos + 8 * objects.len())[t]);
        assert(ob[t] == obj_byte(objects[t / 8], t % 8));
    }
    assert(s[pos + 0] == obj_byte(o0, 0));
    assert(s[pos + 1] == obj_byte(o0, 1));
    assert(s[pos + 2] == obj_byte(o0, 2));
    assert(s[pos + 3] == obj_byte(o0, 3));
    assert(s[pos + 4] == obj_byte(o0, 4));
    assert(s[pos + 5] == obj_byte(o0, 5));
    assert(s[pos + 6] == obj_byte(o0, 6));
    assert(s[pos + 7] == obj_byte(o0, 7));
    let code = shape_code(o0.shape);
    assert(r16(s, pos + 3) == code) by {
        lemma_r16_of_u16_le(code, s[pos + 3], s[pos + 4]);
    }
    assert(code_to_shape(shape_code(o0.shape)) == Some(o0.shape));
    assert(byte_to_flip(flip_byte(o0.flip_flag)) == Some(o0.flip_flag));
    let xb = o0.x;
    let yb = o0.y;
    assert(xb as u8 as i8 == xb && yb as u8 as i8 == yb) by (bit_vector);
    let got = SFSpriteSpriteObject {
        tile_index_lower: s[pos],
        x: s[pos + 1] as i8,
        y: s[pos + 2] as i8,
        shape: o0.shape,
        flip_flag: o0.flip_flag,
        is_last: s[pos + 6],
        tile_index_upper: s[pos + 7],
    };
    assert(got == o0);
    if objects.len() == 1 {
        assert(o0.is_last != 0);
        assert(dec_objects(s, pos)->Ok_0 =~= objects);
    } else {
        assert(objects[0].is_last == 0);
        let rest = objects.drop_first();
        assert(objects_wf(rest)) by {
            assert(rest.last() == objects.last());
            assert forall|i: int| 0 <= i < rest.len() - 1 implies rest[i].is_last == 0 by {
                assert(rest[i] == objects[i + 1]);
            }
        }
        assert(s.subrange(pos + 8, pos + 8 + 8 * rest.len()) =~= objects_bytes(rest)) by {
            assert forall|t: int| 0 <= t < 8 * rest.len() implies s[pos + 8 + t] == objects_bytes(
                rest,
            )[t] by {
                assert(s[pos + 8 + t] == s.subrange(pos, pos + 8 * objects.len())[8 + t]);
                assert(ob[8 + t] == obj_byte(objects[(8 + t) / 8], (8 + t) % 8));
                assert((8 + t) / 8 == 1 + t / 8 && (8 + t) % 8 == t % 8);
                assert(objects_bytes(rest)[t] == obj_byte(rest[t / 8], t % 8));
                assert(rest[t / 8] == objects[1 + t / 8]);
            }
        }
        lemma_dec_objects_of_encoding(s, pos + 8, rest);
        assert(dec_objects(s, pos)->Ok_0 =~= seq![o0] + rest);
        assert(seq![o0] + rest =~= objects);
    }
}

/// Within the concatenated animation bodies, entry `j`'s bytes stand at
/// four bytes per preceding frame.
pub proof fn lemma_anim_bodies_index(anims: Seq<Seq<SFSpriteAnimationFrame>>, j: int, n: int)
    requires
        0 <= j < n,
    ensures
        forall|t: int|
            0 <= t < 4 * anims[j].len() ==> #[trigger] anim_bodies(anims, n)[4 * frames_total(
                anims,
                j,
            ) + t] == frames_bytes(anims[j])[t],
    decreases n,
{
    lemma_anim_bodies_len(anims, n - 1);
    lemma_frames_total_bounds(anims, 0, j);
    if j == n - 1 {
        assert forall|t: int| 0 <= t < 4 * anims[j].len() implies #[trigger] anim_bodies(anims, n)[4
            * frames_total(anims, j) + t] == frames_bytes(anims[j])[t] by {
            assert(anim_bodies(anims, n) == anim_bodies(anims, n - 1) + frames_bytes(anims[n - 1]));
        }
    } else {
        lemma_anim_bodies_index(anims, j, n - 1);
        lemma_frames_total_bounds(anims, j + 1, n - 1);
        assert forall|t: int| 0 <= t < 4 * anims[j].len() implies #[trigger] anim_bodies(anims, n)[4
            * frames_total(anims, j) + t] == frames_bytes(anims[j])[t] by {
            assert(4 * frames_total(anims, j) + t < 4 * frames_total(anims, n - 1));
            assert(anim_bodies(anims, n) == anim_bodies(anims, n - 1) + frames_bytes(anims[n - 1]));
            assert(anim_bodies(anims, n)[4 * frames_total(anims, j) + t] == anim_bodies(
                anims,
                n - 1,
            )[4 * frames_total(anims, j) + t]);
            assert(4 * frames_total(anims, j) + 4 * anims[j].len() == 4 * frames_total(
                anims,
                j + 1,
            ));
        }
    }
}

/// Within the concatenated sprite bodies, entry `j`'s bytes stand at eight
/// bytes per preceding object.
pub proof fn lemma_sprite_bodies_index(sprites: Seq<Seq<SFSpriteSpriteObject>>, j: int, n: int)
    requires
        0 <= j < n,
    ensures
        forall|t: int|
            0 <= t < 8 * sprites[j].len() ==> #[trigger] sprite_bodies(sprites, n)[8
                * objects_total(sprites, j) + t] == objects_bytes(sprites[j])[t],
    decreases n,
{
    lemma_sprite_bodies_len(sprites, n - 1);
    lemma_objects_total_bounds(sprites, 0, j);
    if j == n - 1 {
        assert forall|t: int| 0 <= t < 8 * sprites[j].len() implies #[trigger] sprite_bodies(
            sprites,
            n,
        )[8 * objects_total(sprites, j) + t] == objects_bytes(sprites[j])[t] by {
            assert(sprite_bodies(sprites, n) == sprite_bodies(sprites, n - 1) + objects_bytes(
                sprites[n - 1],
            ));
        }
    } else {
        lemma_sprite_bodies_index(sprites, j, n - 1);
        lemma_objects_total_bounds(sprites, j + 1, n - 1);
        assert forall|t: int| 0 <= t < 8 * sprites[j].len() implies #[trigger] sprite_bodies(
            sprites,
            n,
        )[8 * objects_total(sprites, j) + t] == objects_bytes(sprites[j])[t] by {
            assert(8 * objects_total(sprites, j) + t < 8 * objects_total(sprites, n - 1));
            assert(sprite_bodies(sprites, n) == sprite_bodies(sprites, n - 1) + objects_bytes(
                sprites[n - 1],
            ));
            assert(sprite_bodies(sprites, n)[8 * objects_total(sprites, j) + t] == sprite_bodies(
                sprites,
                n - 1,
            )[8 * objects_total(sprites, j) + t]);
            assert(8 * objects_total(sprites, j) + 8 * sprites[j].len() == 8 * objects_total(
                sprites,
                j + 1,
            ));
        }
    }
}


/// Decoding a tileset section from its own serialization returns the
/// section, its tile data still packed.
proof fn lemma_dec_tileset_of_encoding(s: Seq<u8>, off: int, d: DocView)
    requires
        d.wf(),
        0 <= off,
        off + ts_len(d) <= s.len(),
        s.subrange(off, off + ts_len(d)) == ts_bytes(d),
    ensures
        dec_tileset(s, off) == Ok::<TilesetView, ContainerError>(
            TilesetView {
                max_tiles: d.tileset.max_tiles,
                entries: d.tileset.entries,
                data: packed_tile_data(d),
            },
        ),
{
    let tsb = ts_bytes(d);
    let e_count = d.tileset.entries.len() as int;
    let packed = packed_tile_data(d);
    assert(packed.len() == d.packed_data_len());
    let mt = d.tileset.max_tiles;
    let tt = (packed.len() as int / 32) as u16;
    let hs = (e_count * 4 + 8) as u16;
    assert forall|t: int| 0 <= t < ts_len(d) implies s[off + t] == tsb[t] by {
        assert(s[off + t] == s.subrange(off, off + ts_len(d))[t]);
    }
    assert(tsb[0] == (mt & 0xFF) as u8 && tsb[1] == ((mt >> 8) & 0xFF) as u8);
    assert(tsb[2] == (tt & 0xFF) as u8 && tsb[3] == ((tt >> 8) & 0xFF) as u8);
    assert(tsb[4] == (hs & 0xFF) as u8 && tsb[5] == ((hs >> 8) & 0xFF) as u8);
    assert(s[off + 0] == tsb[0] && s[off + 1] == tsb[1] && s[off + 2] == tsb[2] && s[off + 3]
        == tsb[3] && s[off + 4] == tsb[4] && s[off + 5] == tsb[5]);
    lemma_r16_of_u16_le(mt, s[off + 0], s[off + 1]);
    lemma_r16_of_u16_le(tt, s[off + 2], s[off + 3]);
    lemma_r16_of_u16_le(hs, s[off + 4], s[off + 5]);
    assert(r16(s, off) == mt && r16(s, off + 2) == tt && r16(s, off + 4) == hs);
    assert(tt as int == packed.len() as int / 32);
    assert(32 * (tt as int) == packed.len());
    assert(hs as int == e_count * 4 + 8);
    assert((hs as int - 8) / 4 == e_count);
    let estart = off + 8;
    let dstart = estart + 4 * e_count;
    assert(dstart + 32 * (tt as int) == off + ts_len(d));
    let dec_entries = Seq::new(
        e_count as nat,
        |i: int|
            SFSpriteTilesetEntry {
                amount: r16(s, estart + 4 * i),
                offset: r16(s, estart + 4 * i + 2),
            },
    );
    assert forall|i: int| 0 <= i < e_count implies dec_entries[i] == d.tileset.entries[i] by {
        let e = d.tileset.entries[i];
        assert forall|k: int| 0 <= k < 4 implies #[trigger] entries_bytes(d.tileset.entries)[4 * i
            + k] == entry_byte_at(d.tileset.entries, 4 * i + k) && (4 * i + k) / 4 == i && (4 * i
            + k) % 4 == k by {
            assert((4 * i + k) / 4 == i && (4 * i + k) % 4 == k) by (nonlinear_arith)
                requires
                    0 <= i,
                    0 <= k < 4,
            ;
        }
        assert(tsb[8 + 4 * i + 0] == entries_bytes(d.tileset.entries)[4 * i + 0]);
        assert(tsb[8 + 4 * i + 1] == entries_bytes(d.tileset.entries)[4 * i + 1]);
        assert(tsb[8 + 4 * i + 2] == entries_bytes(d.tileset.entries)[4 * i + 2]);
        assert(tsb[8 + 4 * i + 3] == entries_bytes(d.tileset.entries)[4 * i + 3]);
        assert(s[estart + 4 * i + 0] == tsb[8 + 4 * i + 0]);
        assert(s[estart + 4 * i + 1] == tsb[8 + 4 * i + 1]);
        assert(s[estart + 4 * i + 2] == tsb[8 + 4 * i + 2]);
        assert(s[estart + 4 * i + 3] == tsb[8 + 4 * i + 3]);
        lemma_r16_of_u16_le(e.amount, s[estart + 4 * i + 0], s[estart + 4 * i + 1]);
        lemma_r16_of_u16_le(e.offset, s[estart + 4 * i + 2], s[estart + 4 * i + 3]);
    }
    assert(dec_entries =~= d.tileset.entries);
    assert(s.subrange(dstart, dstart + 32 * (tt as int)) =~= packed) by {
        assert forall|t: int| 0 <= t < packed.len() implies s[dstart + t] == packed[t] by {
            assert(s[dstart + t] == tsb[8 + 4 * e_count + t]);
            assert(tsb[8 + 4 * e_count + t] == packed[t]);
        }
    }
    assert(dec_tileset(s, off)->Ok_0 =~= TilesetView {
        max_tiles: d.tileset.max_tiles,
        entries: d.tileset.entries,
        data: packed_tile_data(d),
    });
}

/// Decoding a palette section from its own serialization returns the
/// section.
proof fn lemma_dec_palette_of_encoding(s: Seq<u8>, off: int, d: DocView)
    requires
        d.wf(),
        0 <= off,
        off + pal_len(d) <= s.len(),
        s.subrange(off, off + pal_len(d)) == pal_bytes(d),
    ensures
        dec_palette(s, off) == Ok::<PaletteView, ContainerError>(d.palette),
{
    let pb = pal_bytes(d);
    let mp = d.palette.palettes.len() as int;
    let tag = depth_tag(d.palette.color_depth);
    let mpw = mp as u16;
    assert forall|t: int| 0 <= t < pal_len(d) implies s[off + t] == pb[t] by {
        assert(s[off + t] == s.subrange(off, off + pal_len(d))[t]);
    }
    assert(pb[0] == (tag & 0xFF) as u8 && pb[1] == ((tag >> 8) & 0xFF) as u8);
    assert(pb[2] == (mpw & 0xFF) as u8 && pb[3] == ((mpw >> 8) & 0xFF) as u8);
    assert(s[off + 0] == pb[0] && s[off + 1] == pb[1] && s[off + 2] == pb[2] && s[off + 3]
        == pb[3]);
    lemma_r16_of_u16_le(tag, s[off + 0], s[off + 1]);
    lemma_r16_of_u16_le(mpw, s[off + 2], s[off + 3]);
    assert(r16(s, off) == tag && r16(s, off + 2) == mpw);
    let cstart = off + 4;
    assert(cstart + 32 * mp == off + pal_len(d));
    let colors = Seq::new((mp * 32) as nat, |i: int| color_byte_at(d.palette.palettes, i));
    let dec_pals = Seq::new(
        mp as nat,
        |i: int| Seq::new(16, |j: int| GBAColor(r16(s, cstart + 32 * i + 2 * j))),
    );
    assert forall|i: int| 0 <= i < mp implies dec_pals[i] =~= d.palette.palettes[i] by {
        assert forall|j: int| 0 <= j < 16 implies GBAColor(r16(s, cstart + 32 * i + 2 * j))
            == d.palette.palettes[i][j] by {
            let c = d.palette.palettes[i][j];
            let t0 = 32 * i + 2 * j;
            assert(t0 / 32 == i && (t0 % 32) / 2 == j && t0 % 2 == 0 && (t0 + 1) / 32 == i && ((
            t0 + 1) % 32) / 2 == j && (t0 + 1) % 2 == 1) by (nonlinear_arith)
                requires
                    0 <= i,
                    0 <= j < 16,
                    t0 == 32 * i + 2 * j,
            ;
            assert(colors[t0] == color_byte_at(d.palette.palettes, t0));
            assert(colors[t0 + 1] == color_byte_at(d.palette.palettes, t0 + 1));
            assert(pb[4 + t0] == colors[t0]);
            assert(pb[4 + t0 + 1] == colors[t0 + 1]);
            assert(s[cstart + t0] == pb[4 + t0]);
            assert(s[cstart + t0 + 1] == pb[4 + t0 + 1]);
            lemma_r16_of_u16_le(c.0, s[cstart + t0], s[cstart + t0 + 1]);
            assert(r16(s, cstart + 32 * i + 2 * j) == c.0);
        }
        assert(d.palette.palettes[i].len() == 16);
    }
    assert(dec_palette(s, off)->Ok_0.palettes =~~= d.palette.palettes);
    assert(dec_palette(s, off)->Ok_0 =~~= d.palette);
}

/// Decoding animation entries `i..` from their own serialization returns
/// exactly the remaining entries.
proof fn lemma_dec_anim_entries_of_encoding(s: Seq<u8>, off: int, d: DocView, i: int)
    requires
        encodable(d),
        0 <= off,
        off + anim_len(d) <= s.len(),
        s.subrange(off, off + anim_len(d)) == anim_bytes(d),
        0 <= i <= d.animations.len(),
    ensures
        dec_anim_entries(s, off, d.animations.len() as int, i) == Ok::<
            Seq<Seq<SFSpriteAnimationFrame>>,
            ContainerError,
        >(d.animations.skip(i)),
    decreases d.animations.len() - i,
{
    let anims = d.animations;
    let a_count = anims.len() as int;
    lemma_anim_bodies_len(anims, a_count);
    if i == a_count {
        assert(anims.skip(i) =~= Seq::<Seq<SFSpriteAnimationFrame>>::empty());
    } else {
        let ab = anim_bytes(d);
        assert forall|t: int| 0 <= t < anim_len(d) implies s[off + t] == ab[t] by {
            assert(s[off + t] == s.subrange(off, off + anim_len(d))[t]);
        }
        let table = Seq::new(
            (anims.len() * 4) as nat,
            |t: int| u32_le(anim_entry_off(anims, t / 4) as u32)[t % 4],
        );
        let stored = anim_entry_off(anims, i);
        lemma_frames_total_bounds(anims, i, a_count);
        lemma_frames_total_bounds(anims, i + 1, a_count);
        lemma_frames_total_bounds(anims, 0, i);
        lemma_objects_total_bounds(d.sprites, 0, d.sprites.len() as int);
        assert(stored <= anim_len(d) <= 0xFFFF_FFFF);
        assert forall|k: int| 0 <= k < 4 implies #[trigger] s[off + 4 + 4 * i + k] == u32_le(
            stored as u32,
        )[k] by {
            assert((4 * i + k) / 4 == i && (4 * i + k) % 4 == k) by (nonlinear_arith)
                requires
                    0 <= i,
                    0 <= k < 4,
            ;
            assert(table[4 * i + k] == u32_le(anim_entry_off(anims, (4 * i + k) / 4) as u32)[(4 * i
                + k) % 4]);
            assert(ab[4 + 4 * i + k] == table[4 * i + k]);
            assert(s[off + 4 + 4 * i + k] == ab[4 + 4 * i + k]);
        }
        assert(s[off + 4 + 4 * i + 0] == u32_le(stored as u32)[0]);
        assert(s[off + 4 + 4 * i + 1] == u32_le(stored as u32)[1]);
        assert(s[off + 4 + 4 * i + 2] == u32_le(stored as u32)[2]);
        assert(s[off + 4 + 4 * i + 3] == u32_le(stored as u32)[3]);
        lemma_r32_of_u32_le(
            stored as u32,
            s[off + 4 + 4 * i],
            s[off + 4 + 4 * i + 1],
            s[off + 4 + 4 * i + 2],
            s[off + 4 + 4 * i + 3],
        );
        assert(r32(s, off + 4 + 4 * i) == stored as u32);
        let target = off + stored;
        let frames = anims[i];
        assert(frames_wf(frames));
        assert(frames_total(anims, i + 1) == frames_total(anims, i) + frames.len());
        assert(target + 4 * frames.len() <= off + anim_len(d));
        lemma_anim_bodies_index(anims, i, a_count);
        assert(s.subrange(target, target + 4 * frames.len()) =~= frames_bytes(frames)) by {
            assert forall|t: int| 0 <= t < 4 * frames.len() implies s[target + t] == frames_bytes(
                frames,
            )[t] by {
                assert(anim_bodies(anims, a_count)[4 * frames_total(anims, i) + t] == frames_bytes(
                    frames,
                )[t]);
                assert(ab[4 + 4 * a_count + (4 * frames_total(anims, i) + t)] == anim_bodies(
                    anims,
                    a_count,
                )[4 * frames_total(anims, i) + t]);
                assert(s[off + 4 + 4 * a_count + 4 * frames_total(anims, i) + t] == ab[4 + 4
                    * a_count + 4 * frames_total(anims, i) + t]);
            }
        }
        lemma_dec_frames_of_encoding(s, target, frames);
        lemma_dec_anim_entries_of_encoding(s, off, d, i + 1);
        assert(seq![frames] + anims.skip(i + 1) =~= anims.skip(i));
    }
}

/// Decoding a whole animation section from its own serialization returns
/// the animation entries.
proof fn lemma_dec_anim_of_encoding(s: Seq<u8>, off: int, d: DocView)
    requires
        encodable(d),
        0 <= off,
        off + anim_len(d) <= s.len(),
        s.subrange(off, off + anim_len(d)) == anim_bytes(d),
    ensures
        dec_anim(s, off) == Ok::<Seq<Seq<SFSpriteAnimationFrame>>, ContainerError>(d.animations),
{
    let ab = anim_bytes(d);
    let a_count = d.animations.len() as int;
    let aw = a_count as u16;
    lemma_frames_total_bounds(d.animations, 0, a_count);
    lemma_anim_bodies_len(d.animations, a_count);
    assert(s[off + 0] == ab[0] && s[off + 1] == ab[1]) by {
        assert(s[off + 0] == s.subrange(off, off + anim_len(d))[0]);
        assert(s[off + 1] == s.subrange(off, off + anim_len(d))[1]);
    }
    assert(ab[0] == (aw & 0xFF) as u8 && ab[1] == ((aw >> 8) & 0xFF) as u8);
    lemma_r16_of_u16_le(aw, s[off + 0], s[off + 1]);
    assert(r16(s, off) == aw);
    assert(off + 4 + 4 * a_count <= off + anim_len(d));
    lemma_dec_anim_entries_of_encoding(s, off, d, 0);
    assert(d.animations.skip(0) =~= d.animations);
}

/// Decoding sprite entries `i..` from their own serialization returns
/// exactly the remaining entries.
proof fn lemma_dec_sprite_entries_of_encoding(s: Seq<u8>, off: int, d: DocView, i: int)
    requires
        encodable(d),
        0 <= off,
        off + sprite_len(d) <= s.len(),
        s.subrange(off, off + sprite_len(d)) == sprite_bytes(d),
        0 <= i <= d.sprites.len(),
    ensures
        dec_sprite_entries(s, off, d.sprites.len() as int, i) == Ok::<
            Seq<Seq<SFSpriteSpriteObject>>,
            ContainerError,
        >(d.sprites.skip(i)),
    decreases d.sprites.len() - i,
{
    let sprites = d.sprites;
    let s_count = sprites.len() as int;
    lemma_sprite_bodies_len(sprites, s_count);
    if i == s_count {
        assert(sprites.skip(i) =~= Seq::<Seq<SFSpriteSpriteObject>>::empty());
    } else {
        let sb = sprite_bytes(d);
        assert forall|t: int| 0 <= t < sprite_len(d) implies s[off + t] == sb[t] by {
            assert(s[off + t] == s.subrange(off, off + sprite_len(d))[t]);
        }
        let table = Seq::new(
            (sprites.len() * 4) as nat,
            |t: int| u32_le(sprite_entry_off(sprites, t / 4) as u32)[t % 4],
        );
        let stored = sprite_entry_off(sprites, i);
        lemma_objects_total_bounds(sprites, i, s_count);
        lemma_objects_total_bounds(sprites, i + 1, s_count);
        lemma_objects_total_bounds(sprites, 0, i);
        lemma_frames_total_bounds(d.animations, 0, d.animations.len() as int);
        assert(stored <= sprite_len(d) <= 0xFFFF_FFFF);
        assert forall|k: int| 0 <= k < 4 implies #[trigger] s[off + 4 + 4 * i + k] == u32_le(
            stored as u32,
        )[k] by {
            assert((4 * i + k) / 4 == i && (4 * i + k) % 4 == k) by (nonlinear_arith)
                requires
                    0 <= i,
                    0 <= k < 4,
            ;
            assert(table[4 * i + k] == u32_le(sprite_entry_off(sprites, (4 * i + k) / 4) as u32)[(4
                * i + k) % 4]);
            assert(sb[4 + 4 * i + k] == table[4 * i + k]);
            assert(s[off + 4 + 4 * i + k] == sb[4 + 4 * i + k]);
        }
        assert(s[off + 4 + 4 * i + 0] == u32_le(stored as u32)[0]);
        assert(s[off + 4 + 4 * i + 1] == u32_le(stored as u32)[1]);
        assert(s[off + 4 + 4 * i + 2] == u32_le(stored as u32)[2]);
        assert(s[off + 4 + 4 * i + 3] == u32_le(stored as u32)[3]);
        lemma_r32_of_u32_le(
            stored as u32,
            s[off + 4 + 4 * i],
            s[off + 4 + 4 * i + 1],
            s[off + 4 + 4 * i + 2],
            s[off + 4 + 4 * i + 3],
        );
        assert(r32(s, off + 4 + 4 * i) == stored as u32);
        let target = off + stored;
        let objects = sprites[i];
        assert(objects_wf(objects));
        assert(objects_total(sprites, i + 1) == objects_total(sprites, i) + objects.len());
        assert(target + 8 * objects.len() <= off + sprite_len(d));
        lemma_sprite_bodies_index(sprites, i, s_count);
        assert(s.subrange(target, target + 8 * objects.len()) =~= objects_bytes(objects)) by {
            assert forall|t: int| 0 <= t < 8 * objects.len() implies s[target + t]
                == objects_bytes(objects)[t] by {
                assert(sprite_bodies(sprites, s_count)[8 * objects_total(sprites, i) + t]
                    == objects_bytes(objects)[t]);
                assert(sb[4 + 4 * s_count + (8 * objects_total(sprites, i) + t)] == sprite_bodies(
                    sprites,
                    s_count,
                )[8 * objects_total(sprites, i) + t]);
                assert(s[off + 4 + 4 * s_count + 8 * objects_total(sprites, i) + t] == sb[4 + 4
                    * s_count + 8 * objects_total(sprites, i) + t]);
            }
        }
        lemma_dec_objects_of_encoding(s, target, objects);
        lemma_dec_sprite_entries_of_encoding(s, off, d, i + 1);
        assert(seq![objects] + sprites.skip(i + 1) =~= sprites.skip(i));
    }
}

/// Decoding a whole sprite section from its own serialization returns the
/// sprite entries.
proof fn lemma_dec_sprite_of_encoding(s: Seq<u8>, off: int, d: DocView)
    requires
        encodable(d),
        0 <= off,
        off + sprite_len(d) <= s.len(),
        s.subrange(off, off + sprite_len(d)) == sprite_bytes(d),
    ensures
        dec_sprite(s, off) == Ok::<Seq<Seq<SFSpriteSpriteObject>>, ContainerError>(d.sprites),
{
    let sb = sprite_bytes(d);
    let s_count = d.sprites.len() as int;
    let sw = s_count as u16;
    lemma_objects_total_bounds(d.sprites, 0, s_count);
    lemma_sprite_bodies_len(d.sprites, s_count);
    assert(s[off + 0] == sb[0] && s[off + 1] == sb[1]) by {
        assert(s[off + 0] == s.subrange(off, off + sprite_len(d))[0]);
        assert(s[off + 1] == s.subrange(off, off + sprite_len(d))[1]);
    }
    assert(sb[0] == (sw & 0xFF) as u8 && sb[1] == ((sw >> 8) & 0xFF) as u8);
    lemma_r16_of_u16_le(sw, s[off + 0], s[off + 1]);
    assert(r16(s, off) == sw);
    assert(off + 4 + 4 * s_count <= off + sprite_len(d));
    lemma_dec_sprite_entries_of_encoding(s, off, d, 0);
    assert(d.sprites.skip(0) =~= d.sprites);
}

/// Round trip: decoding the encoding of any well-formed document whose
/// serialization fits 32-bit offsets returns the document itself,
/// structurally equal section by section.  Every document the decoder
/// accepts is well-formed ([`lemma_decode_wf`]), so every validly decoded
/// document that fits round-trips.
#[verifier::rlimit(100)]
pub proof fn lemma_decode_encode_round_trip(d: DocView)
    requires
        d.wf(),
        encoded_len(d) <= 0xFFFF_FFFF,
    ensures
        spec_decode(spec_encode(d)) == Ok::<DocView, ContainerError>(d),
{
    lemma_wf_encodable(d);
    let s = spec_encode(d);
    let tl = ts_len(d);
    let pl = pal_len(d);
    let al = anim_len(d);
    let sl = sprite_len(d);
    lemma_frames_total_bounds(d.animations, 0, d.animations.len() as int);
    lemma_objects_total_bounds(d.sprites, 0, d.sprites.len() as int);
    lemma_anim_bodies_len(d.animations, d.animations.len() as int);
    lemma_sprite_bodies_len(d.sprites, d.sprites.len() as int);
    let t_off = 20;
    let p_off = 20 + tl;
    let a_off = 20 + tl + pl;
    let s_off = 20 + tl + pl + al;
    assert(s.len() == encoded_len(d));
    assert(s.subrange(0, 4) =~= u32_le(t_off as u32));
    assert(s.subrange(4, 8) =~= u32_le(p_off as u32));
    assert(s.subrange(8, 12) =~= u32_le(a_off as u32));
    assert(s.subrange(12, 16) =~= u32_le(s_off as u32));
    assert(s.subrange(16, 20) =~= u32_le(d.tile_number_shift));
    lemma_r32_at(s, 0, t_off as u32);
    lemma_r32_at(s, 4, p_off as u32);
    lemma_r32_at(s, 8, a_off as u32);
    lemma_r32_at(s, 12, s_off as u32);
    lemma_r32_at(s, 16, d.tile_number_shift);
    assert(s.subrange(t_off, t_off + tl) =~= ts_bytes(d));
    assert(s.subrange(p_off, p_off + pl) =~= pal_bytes(d));
    assert(s.subrange(a_off, a_off + al) =~= anim_bytes(d));
    assert(s.subrange(s_off, s_off + sl) =~= sprite_bytes(d));
    lemma_dec_tileset_of_encoding(s, t_off, d);
    lemma_dec_palette_of_encoding(s, p_off, d);
    lemma_dec_anim_of_encoding(s, a_off, d);
    lemma_dec_sprite_of_encoding(s, s_off, d);
    if d.palette.color_depth == ColorDepth::Depth4BPP {
        lemma_unpack_pack(d.tileset.data);
    }
    assert(spec_decode(s)->Ok_0 =~~= d);
}

/// Round trip, stated of the decoder's output: every validly decoded
/// document whose serialization fits 32-bit offsets decodes from its own
/// encoding to itself.
pub proof fn lemma_round_trip_of_decoded(s: Seq<u8>, d: DocView)
    requires
        spec_decode(s) == Ok::<DocView, ContainerError>(d),
        encoded_len(d) <= 0xFFFF_FFFF,
    ensures
        spec_decode(spec_encode(d)) == Ok::<DocView, ContainerError>(d),
{
    lemma_decode_wf(s, d);
    lemma_decode_encode_round_trip(d);
}

} // verus!
