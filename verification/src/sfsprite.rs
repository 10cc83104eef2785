//! The decoded data model of the sprite container.
//!
//! A container bundles four sections — tileset, palettes, animations,
//! sprites — behind a header of four absolute section offsets and a global
//! tile-number shift.  This module holds the decoded in-memory form of each
//! section, the mathematical view of every type, and the well-formedness
//! predicate that every validly decoded document satisfies.

use crate::gbacolor::GBAColor;
use vstd::prelude::*;

verus! {

/// One range of tiles inside the tile-pixel array, in units of one tile
/// (64 pixel bytes in memory).  There is one range per sprite entry.
#[derive(Clone, Copy, Debug, PartialEq, Eq, Structural)]
pub struct SFSpriteTilesetEntry {
    pub amount: u16,
    pub offset: u16,
}

/// The on-disk packing of tile pixels: 4 bits per pixel (two pixels per
/// byte) or 8 bits per pixel.  In memory pixels are always one byte each.
#[derive(Clone, Copy, Debug, PartialEq, Eq, Structural)]
pub enum ColorDepth {
    Depth4BPP,
    Depth8BPP,
}

impl ColorDepth {
    /// The on-disk byte size of one 8x8 tile at this depth.
    pub open spec fn spec_tile_size(self) -> usize {
        match self {
            ColorDepth::Depth4BPP => 32,
            ColorDepth::Depth8BPP => 64,
        }
    }

    pub fn tile_size(&self) -> (r: usize)
        ensures
            r == self.spec_tile_size(),
    {
        match self {
            ColorDepth::Depth4BPP => 8 * 8 / 2,
            ColorDepth::Depth8BPP => 8 * 8,
        }
    }

    /// The on-disk byte width of one 8-pixel tile row at this depth.
    pub open spec fn spec_tile_data_width(self) -> usize {
        match self {
            ColorDepth::Depth4BPP => 4,
            ColorDepth::Depth8BPP => 8,
        }
    }

    pub fn tile_data_width(&self) -> (r: usize)
        ensures
            r == self.spec_tile_data_width(),
    {
        match self {
            ColorDepth::Depth4BPP => 4,
            ColorDepth::Depth8BPP => 8,
        }
    }
}

/// The tileset section: the declared tile capacity, one tile range per
/// sprite, and the pixel bytes of every tile present (one byte per pixel).
#[derive(Debug, PartialEq, Eq)]
pub struct SFSpriteTilesetHeader {
    pub max_tiles: u16,
    pub tileset_entries: Vec<SFSpriteTilesetEntry>,
    pub tileset_data: Vec<u8>,
}

/// The palette section: the pixel depth tag and the palettes, each exactly
/// 16 packed colors.
#[derive(Debug, PartialEq, Eq)]
pub struct SFSpritePaletteHeader {
    pub color_depth: ColorDepth,
    pub palettes: Vec<[GBAColor; 16]>,
}

/// Whether an animation frame ends its entry, and if so how.  Exactly the
/// last frame of a decoded entry carries a marker other than `None`.
#[derive(Clone, Copy, Debug, PartialEq, Eq, Structural)]
pub enum LoopFlag {
    NoLoop,
    End,
    Loop,
}

/// One animation frame: which sprite to show, for how long, and with which
/// palette.
#[derive(Clone, Copy, Debug, PartialEq, Eq, Structural)]
pub struct SFSpriteAnimationFrame {
    pub sprite_id: u8,
    pub delay: u8,
    pub loop_flag: LoopFlag,
    pub palette_id: u8,
}

/// One animation: a non-empty run of frames whose last frame alone carries
/// a terminal loop flag.
#[derive(Debug, PartialEq, Eq)]
pub struct SFSpriteAnimationEntry {
    pub frames: Vec<SFSpriteAnimationFrame>,
}

/// The animation section.
#[derive(Debug, PartialEq, Eq)]
pub struct SFSpriteAnimationHeader {
    pub animations: Vec<SFSpriteAnimationEntry>,
}

/// The fixed pixel-width x pixel-height footprint of a sprite object.
#[derive(Clone, Copy, Debug, PartialEq, Eq, Structural)]
pub enum ObjectShape {
    Size8x8,
    Size16x8,
    Size8x16,
    Size16x16,
    Size32x8,
    Size8x32,
    Size32x32,
    Size32x16,
    Size16x32,
    Size64x64,
    Size64x32,
    Size32x64,
}

impl ObjectShape {
    /// How many tiles the object occupies in total.
    pub open spec fn spec_tile_amount(self) -> usize {
        match self {
            ObjectShape::Size8x8 => 1,
            ObjectShape::Size16x8 => 2,
            ObjectShape::Size8x16 => 2,
            ObjectShape::Size16x16 => 4,
            ObjectShape::Size32x8 => 4,
            ObjectShape::Size8x32 => 4,
            ObjectShape::Size32x32 => 16,
            ObjectShape::Size32x16 => 8,
            ObjectShape::Size16x32 => 8,
            ObjectShape::Size64x64 => 64,
            ObjectShape::Size64x32 => 32,
            ObjectShape::Size32x64 => 32,
        }
    }

    pub fn tile_amount(&self) -> (r: usize)
        ensures
            r == self.spec_tile_amount(),
    {
        match self {
            ObjectShape::Size8x8 => 1,
            ObjectShape::Size16x8 => 2,
            ObjectShape::Size8x16 => 2,
            ObjectShape::Size16x16 => 4,
            ObjectShape::Size32x8 => 4,
            ObjectShape::Size8x32 => 4,
            ObjectShape::Size32x32 => 16,
            ObjectShape::Size32x16 => 8,
            ObjectShape::Size16x32 => 8,
            ObjectShape::Size64x64 => 64,
            ObjectShape::Size64x32 => 32,
            ObjectShape::Size32x64 => 32,
        }
    }

    /// How many tiles the object spans horizontally.
    pub open spec fn spec_tile_width_amount(self) -> usize {
        match self {
            ObjectShape::Size8x8 => 1,
            ObjectShape::Size16x8 => 2,
            ObjectShape::Size8x16 => 1,
            ObjectShape::Size16x16 => 2,
            ObjectShape::Size32x8 => 4,
            ObjectShape::Size8x32 => 1,
            ObjectShape::Size32x32 => 4,
            ObjectShape::Size32x16 => 4,
            ObjectShape::Size16x32 => 2,
            ObjectShape::Size64x64 => 8,
            ObjectShape::Size64x32 => 8,
            ObjectShape::Size32x64 => 4,
        }
    }

    pub fn tile_width_amount(&self) -> (r: usize)
        ensures
            r == self.spec_tile_width_amount(),
    {
        match self {
            ObjectShape::Size8x8 => 1,
            ObjectShape::Size16x8 => 2,
            ObjectShape::Size8x16 => 1,
            ObjectShape::Size16x16 => 2,
            ObjectShape::Size32x8 => 4,
            ObjectShape::Size8x32 => 1,
            ObjectShape::Size32x32 => 4,
            ObjectShape::Size32x16 => 4,
            ObjectShape::Size16x32 => 2,
            ObjectShape::Size64x64 => 8,
            ObjectShape::Size64x32 => 8,
            ObjectShape::Size32x64 => 4,
        }
    }

    /// How many tiles the object spans vertically.
    pub open spec fn spec_tile_height_amount(self) -> usize {
        match self {
            ObjectShape::Size8x8 => 1,
            ObjectShape::Size16x8 => 1,
            ObjectShape::Size8x16 => 2,
            ObjectShape::Size16x16 => 2,
            ObjectShape::Size32x8 => 1,
            ObjectShape::Size8x32 => 4,
            ObjectShape::Size32x32 => 4,
            ObjectShape::Size32x16 => 2,
            ObjectShape::Size16x32 => 4,
            ObjectShape::Size64x64 => 8,
            ObjectShape::Size64x32 => 4,
            ObjectShape::Size32x64 => 8,
        }
    }

    pub fn tile_height_amount(&self) -> (r: usize)
        ensures
            r == self.spec_tile_height_amount(),
    {
        match self {
            ObjectShape::Size8x8 => 1,
            ObjectShape::Size16x8 => 1,
            ObjectShape::Size8x16 => 2,
            ObjectShape::Size16x16 => 2,
            ObjectShape::Size32x8 => 1,
            ObjectShape::Size8x32 => 4,
            ObjectShape::Size32x32 => 4,
            ObjectShape::Size32x16 => 2,
            ObjectShape::Size16x32 => 4,
            ObjectShape::Size64x64 => 8,
            ObjectShape::Size64x32 => 4,
            ObjectShape::Size32x64 => 8,
        }
    }

    /// The object's pixel width: 8 pixels per tile column.
    pub open spec fn spec_width(self) -> usize {
        (8 * self.spec_tile_width_amount()) as usize
    }

    pub fn width(&self) -> (r: usize)
        ensures
            r == self.spec_width(),
    {
        8 * self.tile_width_amount()
    }

    /// The object's pixel height: 8 pixels per tile row.
    pub open spec fn spec_height(self) -> usize {
        (8 * self.spec_tile_height_amount()) as usize
    }

    pub fn height(&self) -> (r: usize)
        ensures
            r == self.spec_height(),
    {
        8 * self.tile_height_amount()
    }
}

/// The total tile count of a shape is the product of its grid dimensions.
pub proof fn lemma_shape_grid(s: ObjectShape)
    ensures
        s.spec_tile_amount() == s.spec_tile_width_amount() * s.spec_tile_height_amount(),
        1 <= s.spec_tile_width_amount() <= 8,
        1 <= s.spec_tile_height_amount() <= 8,
{
    match s {
        ObjectShape::Size8x8 => {},
        ObjectShape::Size16x8 => {},
        ObjectShape::Size8x16 => {},
        ObjectShape::Size16x16 => {},
        ObjectShape::Size32x8 => {},
        ObjectShape::Size8x32 => {},
        ObjectShape::Size32x32 => {},
        ObjectShape::Size32x16 => {},
        ObjectShape::Size16x32 => {},
        ObjectShape::Size64x64 => {},
        ObjectShape::Size64x32 => {},
        ObjectShape::Size32x64 => {},
    }
}

/// Which axes of a sprite object are mirrored.
#[derive(Clone, Copy, Debug, PartialEq, Eq, Structural)]
pub enum FilpFlag {
    NoFlip,
    Horizontal,
    Vertical,
    Both,
}

impl FilpFlag {
    pub open spec fn spec_is_horizontal(self) -> bool {
        self == FilpFlag::Horizontal || self == FilpFlag::Both
    }

    pub fn is_horizontal(&self) -> (r: bool)
        ensures
            r == self.spec_is_horizontal(),
    {
        matches!(self, FilpFlag::Horizontal | FilpFlag::Both)
    }

    pub open spec fn spec_is_vertical(self) -> bool {
        self == FilpFlag::Vertical || self == FilpFlag::Both
    }

    pub fn is_vertical(&self) -> (r: bool)
        ensures
            r == self.spec_is_vertical(),
    {
        matches!(self, FilpFlag::Vertical | FilpFlag::Both)
    }
}

/// One positioned, possibly multi-tile, possibly mirrored placement of
/// tiles.  The base tile index is split over two bytes; exactly the last
/// object of a decoded sprite entry has `is_last != 0`.
#[derive(Clone, Copy, Debug, PartialEq, Eq, Structural)]
pub struct SFSpriteSpriteObject {
    pub tile_index_lower: u8,
    pub x: i8,
    pub y: i8,
    pub shape: ObjectShape,
    pub flip_flag: FilpFlag,
    pub is_last: u8,
    pub tile_index_upper: u8,
}

/// One sprite: a non-empty run of objects whose last object alone carries
/// a non-zero terminal marker.
#[derive(Debug, PartialEq, Eq)]
pub struct SFSpriteSpriteEntry {
    pub objects: Vec<SFSpriteSpriteObject>,
}

/// The sprite section.
#[derive(Debug, PartialEq, Eq)]
pub struct SFSpriteSpriteHeader {
    pub sprites: Vec<SFSpriteSpriteEntry>,
}

/// A whole decoded document.
#[derive(Debug, PartialEq, Eq)]
pub struct SFSpriteFileHeader {
    pub tile_number_shift: u32,
    pub tileset_header: SFSpriteTilesetHeader,
    pub palette_header: SFSpritePaletteHeader,
    pub animation_header: SFSpriteAnimationHeader,
    pub sprite_header: SFSpriteSpriteHeader,
}

/// Mathematical view of the tileset section.
#[verifier::ext_equal]
pub struct TilesetView {
    pub max_tiles: u16,
    pub entries: Seq<SFSpriteTilesetEntry>,
    pub data: Seq<u8>,
}

/// Mathematical view of the palette section.
#[verifier::ext_equal]
pub struct PaletteView {
    pub color_depth: ColorDepth,
    pub palettes: Seq<Seq<GBAColor>>,
}

/// Mathematical view of a whole document: every section as a sequence.
#[verifier::ext_equal]
pub struct DocView {
    pub tile_number_shift: u32,
    pub tileset: TilesetView,
    pub palette: PaletteView,
    pub animations: Seq<Seq<SFSpriteAnimationFrame>>,
    pub sprites: Seq<Seq<SFSpriteSpriteObject>>,
}

impl View for SFSpriteTilesetHeader {
    type V = TilesetView;

    open spec fn view(&self) -> TilesetView {
        TilesetView {
            max_tiles: self.max_tiles,
            entries: self.tileset_entries@,
            data: self.tileset_data@,
        }
    }
}

impl View for SFSpritePaletteHeader {
    type V = PaletteView;

    open spec fn view(&self) -> PaletteView {
        PaletteView {
            color_depth: self.color_depth,
            palettes: self.palettes@.map_values(|p: [GBAColor; 16]| p@),
        }
    }
}

impl View for SFSpriteAnimationHeader {
    type V = Seq<Seq<SFSpriteAnimationFrame>>;

    open spec fn view(&self) -> Seq<Seq<SFSpriteAnimationFrame>> {
        self.animations@.map_values(|a: SFSpriteAnimationEntry| a.frames@)
    }
}

impl View for SFSpriteSpriteHeader {
    type V = Seq<Seq<SFSpriteSpriteObject>>;

    open spec fn view(&self) -> Seq<Seq<SFSpriteSpriteObject>> {
        self.sprites@.map_values(|s: SFSpriteSpriteEntry| s.objects@)
    }
}

impl View for SFSpriteFileHeader {
    type V = DocView;

    open spec fn view(&self) -> DocView {
        DocView {
            tile_number_shift: self.tile_number_shift,
            tileset: self.tileset_header@,
            palette: self.palette_header@,
            animations: self.animation_header@,
            sprites: self.sprite_header@,
        }
    }
}

/// The sentinel invariant of one animation: non-empty, exactly the last
/// frame has a loop flag other than `NoLoop`.
pub open spec fn frames_wf(frames: Seq<SFSpriteAnimationFrame>) -> bool {
    &&& frames.len() >= 1
    &&& frames.last().loop_flag != LoopFlag::NoLoop
    &&& forall|i: int| 0 <= i < frames.len() - 1 ==> frames[i].loop_flag == LoopFlag::NoLoop
}

/// The sentinel invariant of one sprite: non-empty, exactly the last
/// object has `is_last != 0`.
pub open spec fn objects_wf(objects: Seq<SFSpriteSpriteObject>) -> bool {
    &&& objects.len() >= 1
    &&& objects.last().is_last != 0
    &&& forall|i: int| 0 <= i < objects.len() - 1 ==> objects[i].is_last == 0
}

impl DocView {
    /// The byte length of the tile data as it stands on disk: halved when
    /// pixels are packed two to a byte.
    pub open spec fn packed_data_len(self) -> int {
        match self.palette.color_depth {
            ColorDepth::Depth4BPP => self.tileset.data.len() as int / 2,
            ColorDepth::Depth8BPP => self.tileset.data.len() as int,
        }
    }

    /// What every validly decoded document satisfies: the sentinel
    /// invariants, 16 colors per palette, section counts that fit their
    /// on-disk fields, tile data a whole number of 32-byte units, and —
    /// under 4-bit packing — an even byte count of nibble-sized pixels.
    pub open spec fn wf(self) -> bool {
        &&& forall|i: int| 0 <= i < self.animations.len() ==> frames_wf(#[trigger] self.animations[i])
        &&& forall|i: int| 0 <= i < self.sprites.len() ==> objects_wf(#[trigger] self.sprites[i])
        &&& forall|i: int|
            0 <= i < self.palette.palettes.len() ==> (#[trigger] self.palette.palettes[i]).len()
                == 16
        &&& self.tileset.entries.len() * 4 + 8 <= 0xFFFF
        &&& self.palette.palettes.len() <= 0xFFFF
        &&& self.animations.len() <= 0xFFFF
        &&& self.sprites.len() <= 0xFFFF
        &&& self.packed_data_len() % 32 == 0
        &&& self.packed_data_len() / 32 <= 0xFFFF
        &&& self.palette.color_depth == ColorDepth::Depth4BPP ==> {
            &&& self.tileset.data.len() % 2 == 0
            &&& forall|i: int| 0 <= i < self.tileset.data.len() ==> self.tileset.data[i] < 16
        }
    }
}


/// Copies a vector of plain values, element for element.
pub fn copy_vec<T: Copy>(v: &Vec<T>) -> (r: Vec<T>)
    ensures
        r@ == v@,
{
    vstd::slice::slice_to_vec(v.as_slice())
}

impl Clone for SFSpriteTilesetHeader {
    /// A deep copy with the very same view.
    fn clone(&self) -> (r: Self)
        ensures
            r@ == self@,
    {
        SFSpriteTilesetHeader {
            max_tiles: self.max_tiles,
            tileset_entries: copy_vec(&self.tileset_entries),
            tileset_data: copy_vec(&self.tileset_data),
        }
    }
}

impl Clone for SFSpritePaletteHeader {
    /// A deep copy with the very same view.
    fn clone(&self) -> (r: Self)
        ensures
            r@ == self@,
    {
        SFSpritePaletteHeader {
            color_depth: self.color_depth,
            palettes: copy_vec(&self.palettes),
        }
    }
}

impl Clone for SFSpriteAnimationEntry {
    /// A deep copy holding the very same frames.
    fn clone(&self) -> (r: Self)
        ensures
            r.frames@ == self.frames@,
    {
        SFSpriteAnimationEntry { frames: copy_vec(&self.frames) }
    }
}

impl Clone for SFSpriteAnimationHeader {
    /// A deep copy with the very same view.
    fn clone(&self) -> (r: Self)
        ensures
            r@ == self@,
    {
        let mut animations: Vec<SFSpriteAnimationEntry> = Vec::new();
        let mut i: usize = 0;
        while i < self.animations.len()
            invariant
                0 <= i <= self.animations@.len(),
                animations@.len() == i,
                forall|j: int|
                    0 <= j < i ==> (#[trigger] animations@[j]).frames@
                        == self.animations@[j].frames@,
            decreases self.animations@.len() - i,
        {
            animations.push(self.animations[i].clone());
            i = i + 1;
        }
        let r = SFSpriteAnimationHeader { animations };
        proof {
            assert(r@ =~~= self@);
        }
        r
    }
}

impl Clone for SFSpriteSpriteEntry {
    /// A deep copy holding the very same objects.
    fn clone(&self) -> (r: Self)
        ensures
            r.objects@ == self.objects@,
    {
        SFSpriteSpriteEntry { objects: copy_vec(&self.objects) }
    }
}

impl Clone for SFSpriteSpriteHeader {
    /// A deep copy with the very same view.
    fn clone(&self) -> (r: Self)
        ensures
            r@ == self@,
    {
        let mut sprites: Vec<SFSpriteSpriteEntry> = Vec::new();
        let mut i: usize = 0;
        while i < self.sprites.len()
            invariant
                0 <= i <= self.sprites@.len(),
                sprites@.len() == i,
                forall|j: int|
                    0 <= j < i ==> (#[trigger] sprites@[j]).objects@ == self.sprites@[j].objects@,
            decreases self.sprites@.len() - i,
        {
            sprites.push(self.sprites[i].clone());
            i = i + 1;
        }
        let r = SFSpriteSpriteHeader { sprites };
        proof {
            assert(r@ =~~= self@);
        }
        r
    }
}

impl Clone for SFSpriteFileHeader {
    /// A deep copy with the very same view: history snapshots share
    /// nothing with the live document.
    fn clone(&self) -> (r: Self)
        ensures
            r@ == self@,
    {
        let r = SFSpriteFileHeader {
            tile_number_shift: self.tile_number_shift,
            tileset_header: self.tileset_header.clone(),
            palette_header: self.palette_header.clone(),
            animation_header: self.animation_header.clone(),
            sprite_header: self.sprite_header.clone(),
        };
        proof {
            assert(r@ =~~= self@);
        }
        r
    }
}

/// The document a fresh editor holds: empty sections, 4-bit depth, no
/// shift.
pub open spec fn spec_empty_doc() -> DocView {
    DocView {
        tile_number_shift: 0,
        tileset: TilesetView { max_tiles: 0, entries: Seq::empty(), data: Seq::empty() },
        palette: PaletteView { color_depth: ColorDepth::Depth4BPP, palettes: Seq::empty() },
        animations: Seq::empty(),
        sprites: Seq::empty(),
    }
}

/// Builds the empty document.
pub fn empty_document() -> (r: SFSpriteFileHeader)
    ensures
        r@ == spec_empty_doc(),
{
    let r = SFSpriteFileHeader {
        tile_number_shift: 0,
        tileset_header: SFSpriteTilesetHeader {
            max_tiles: 0,
            tileset_entries: Vec::new(),
            tileset_data: Vec::new(),
        },
        palette_header: SFSpritePaletteHeader {
            color_depth: ColorDepth::Depth4BPP,
            palettes: Vec::new(),
        },
        animation_header: SFSpriteAnimationHeader { animations: Vec::new() },
        sprite_header: SFSpriteSpriteHeader { sprites: Vec::new() },
    };
    proof {
        assert(r@ =~~= spec_empty_doc());
    }
    r
}


impl Default for GBAColor {
    /// The all-zero (black) color.
    fn default() -> (r: Self)
        ensures
            r == GBAColor(0),
    {
        GBAColor(0)
    }
}

impl Default for ColorDepth {
    /// 4-bit packing, the format's common case.
    fn default() -> (r: Self)
        ensures
            r == ColorDepth::Depth4BPP,
    {
        ColorDepth::Depth4BPP
    }
}

impl Default for LoopFlag {
    /// No terminal marker.
    fn default() -> (r: Self)
        ensures
            r == LoopFlag::NoLoop,
    {
        LoopFlag::NoLoop
    }
}

impl Default for FilpFlag {
    /// No mirroring.
    fn default() -> (r: Self)
        ensures
            r == FilpFlag::NoFlip,
    {
        FilpFlag::NoFlip
    }
}

impl Default for ObjectShape {
    /// The single-tile shape.
    fn default() -> (r: Self)
        ensures
            r == ObjectShape::Size8x8,
    {
        ObjectShape::Size8x8
    }
}

impl Default for SFSpriteFileHeader {
    /// The empty document.
    fn default() -> (r: Self)
        ensures
            r@ == spec_empty_doc(),
    {
        empty_document()
    }
}

} // verus!
