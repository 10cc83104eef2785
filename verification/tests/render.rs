use sfsprite::editor::SFSpriteEditor;
use sfsprite::gbacolor::GBAColor;
use sfsprite::render::{hittest_doc, render_sprite_doc, render_tile_doc};
use sfsprite::sfsprite::{
    ColorDepth, FilpFlag, ObjectShape, SFSpriteAnimationHeader, SFSpriteFileHeader,
    SFSpritePaletteHeader, SFSpriteSpriteEntry, SFSpriteSpriteHeader, SFSpriteSpriteObject,
    SFSpriteTilesetEntry, SFSpriteTilesetHeader,
};

fn one_tile_document(pixel0: u8, flip: FilpFlag) -> SFSpriteFileHeader {
    let mut pal = [GBAColor(0); 16];
    pal[1] = GBAColor(0x7FFF);
    let mut data = vec![0u8; 64];
    data[0] = pixel0;
    SFSpriteFileHeader {
        tile_number_shift: 0,
        tileset_header: SFSpriteTilesetHeader {
            max_tiles: 1,
            tileset_entries: vec![SFSpriteTilesetEntry { amount: 1, offset: 0 }],
            tileset_data: data,
        },
        palette_header: SFSpritePaletteHeader {
            color_depth: ColorDepth::Depth8BPP,
            palettes: vec![pal],
        },
        animation_header: SFSpriteAnimationHeader { animations: vec![] },
        sprite_header: SFSpriteSpriteHeader {
            sprites: vec![SFSpriteSpriteEntry {
                objects: vec![SFSpriteSpriteObject {
                    tile_index_lower: 0,
                    x: 0,
                    y: 0,
                    shape: ObjectShape::Size8x8,
                    flip_flag: flip,
                    is_last: 1,
                    tile_index_upper: 0,
                }],
            }],
        },
    }
}

#[test]
fn all_zero_tile_renders_64_background_events() {
    let doc = one_tile_document(0, FilpFlag::NoFlip);
    let events = render_sprite_doc(&doc, 0, 0, false);
    assert_eq!(events.len(), 64);
    for ev in &events {
        assert_eq!(ev.color_index, 0);
        assert_eq!(ev.color, GBAColor(0));
    }
    // Deterministic order: the first events walk the top row.
    assert_eq!((events[0].x, events[0].y), (0, 0));
    assert_eq!((events[1].x, events[1].y), (1, 0));
    assert_eq!((events[8].x, events[8].y), (0, 1));
    // Under transparency the background vanishes entirely.
    assert_eq!(render_sprite_doc(&doc, 0, 0, true).len(), 0);
}

#[test]
fn horizontal_flip_mirrors_first_byte_to_top_right() {
    let doc = one_tile_document(1, FilpFlag::Horizontal);
    let events = render_sprite_doc(&doc, 0, 0, true);
    assert_eq!(events.len(), 1);
    assert_eq!((events[0].x, events[0].y), (7, 0));
    assert_eq!(events[0].color_index, 1);
    assert_eq!(events[0].color, GBAColor(0x7FFF));
}

#[test]
fn unflipped_first_byte_stays_top_left() {
    let doc = one_tile_document(1, FilpFlag::NoFlip);
    let events = render_sprite_doc(&doc, 0, 0, true);
    assert_eq!(events.len(), 1);
    assert_eq!((events[0].x, events[0].y), (0, 0));
}

#[test]
fn hittest_inverts_the_flipped_pixel() {
    let doc = one_tile_document(1, FilpFlag::Horizontal);
    // The set pixel is drawn at (7, 0); hit-testing there resolves byte 0
    // of tile 0 in the topmost (only) object.
    let hit = hittest_doc(&doc, 0, 7, 0, false).expect("inside the box");
    assert_eq!(hit.tile_id, 0);
    assert_eq!(hit.pixel_index, 0);
    assert_eq!(hit.sprite_obj_id, 0);
    assert_eq!(doc.tileset_header.tileset_data[hit.tile_id * 64 + hit.pixel_index], 1);
}

#[test]
fn hittest_respects_transparency_and_bounds() {
    let doc = one_tile_document(1, FilpFlag::Horizontal);
    // (1, 0) maps back to byte 6 of the tile, which is 0: rejected under
    // transparency, returned without it.
    assert_eq!(hittest_doc(&doc, 0, 1, 0, true), None);
    let hit = hittest_doc(&doc, 0, 1, 0, false).unwrap();
    assert_eq!(hit.pixel_index, 6);
    // Outside the object's box, and outside the sprite table: no hit.
    assert_eq!(hittest_doc(&doc, 0, 8, 0, false), None);
    assert_eq!(hittest_doc(&doc, 0, -1, 0, false), None);
    assert_eq!(hittest_doc(&doc, 5, 0, 0, false), None);
}

#[test]
fn topmost_object_wins_hittest() {
    let mut doc = one_tile_document(1, FilpFlag::NoFlip);
    // Two overlapping objects of the same tile; the later-drawn object
    // (index 1) must win.
    doc.tileset_header.tileset_entries[0].amount = 1;
    let first = doc.sprite_header.sprites[0].objects[0];
    let mut second = first;
    second.is_last = 1;
    let mut first = first;
    first.is_last = 0;
    doc.sprite_header.sprites[0].objects = vec![first, second];
    let hit = hittest_doc(&doc, 0, 0, 0, false).unwrap();
    assert_eq!(hit.sprite_obj_id, 1);
}

#[test]
fn render_sprite_out_of_range_is_silent() {
    let doc = one_tile_document(1, FilpFlag::NoFlip);
    assert_eq!(render_sprite_doc(&doc, 9, 0, false).len(), 0);
    assert_eq!(render_sprite_doc(&doc, 0, 9, false).len(), 0);
}

#[test]
fn render_tile_reads_one_tile_row_major() {
    let doc = one_tile_document(3, FilpFlag::NoFlip);
    let events = render_tile_doc(&doc, 0, 0);
    assert_eq!(events.len(), 64);
    assert_eq!((events[0].x, events[0].y), (0, 0));
    assert_eq!(events[0].color_index, 3);
    assert_eq!((events[63].x, events[63].y), (7, 7));
    // Out of range: nothing.
    assert_eq!(render_tile_doc(&doc, 1, 0).len(), 0);
    assert_eq!(render_tile_doc(&doc, 0, 1).len(), 0);
}

#[test]
fn tile_number_shift_scales_the_base_index() {
    // Two tiles; the object names tile 1 but a shift of 1 doubles it out
    // of the 2-tile window, so nothing of tile 1 is drawn at base 2.
    let mut doc = one_tile_document(0, FilpFlag::NoFlip);
    doc.tileset_header.tileset_data = vec![5u8; 128];
    doc.tileset_header.tileset_entries[0].amount = 2;
    doc.sprite_header.sprites[0].objects[0].tile_index_lower = 1;
    doc.tile_number_shift = 1;
    assert_eq!(render_sprite_doc(&doc, 0, 0, false).len(), 0);
    // Without the shift, tile 1 lies inside the window and draws fully.
    doc.tile_number_shift = 0;
    assert_eq!(render_sprite_doc(&doc, 0, 0, false).len(), 64);
}

#[test]
fn editor_render_matches_document_render() {
    let doc = one_tile_document(1, FilpFlag::Horizontal);
    let direct = render_sprite_doc(&doc, 0, 0, true);
    let ed = SFSpriteEditor::from_document(doc);
    let via_editor = ed.render_sprite(0, 0, true);
    assert_eq!(direct, via_editor);
}

#[test]
fn horizontal_flip_reorders_tile_rows_of_a_tall_object() {
    // Two stacked tiles: tile 0 holds index 1, tile 1 holds index 2.  The
    // grid remap under a horizontal flip swaps which physical tile fills
    // which cell of the 8x16 object.
    let mut doc = one_tile_document(0, FilpFlag::Horizontal);
    let mut data = vec![1u8; 64];
    data.extend(std::iter::repeat(2u8).take(64));
    doc.tileset_header.tileset_data = data;
    doc.tileset_header.tileset_entries[0].amount = 2;
    doc.sprite_header.sprites[0].objects[0].shape = ObjectShape::Size8x16;
    let events = render_sprite_doc(&doc, 0, 0, false);
    assert_eq!(events.len(), 128);
    // The top cell (y in 0..8) now shows tile 1, the bottom cell tile 0.
    for ev in &events {
        let expected = if ev.y < 8 { 2 } else { 1 };
        assert_eq!(ev.color_index, expected, "at ({}, {})", ev.x, ev.y);
    }
}

#[test]
fn vertical_flip_reorders_tile_columns_of_a_wide_object() {
    // Two side-by-side tiles; the vertical flip swaps the columns of the
    // 16x8 object's grid.
    let mut doc = one_tile_document(0, FilpFlag::Vertical);
    let mut data = vec![1u8; 64];
    data.extend(std::iter::repeat(2u8).take(64));
    doc.tileset_header.tileset_data = data;
    doc.tileset_header.tileset_entries[0].amount = 2;
    doc.sprite_header.sprites[0].objects[0].shape = ObjectShape::Size16x8;
    let events = render_sprite_doc(&doc, 0, 0, false);
    assert_eq!(events.len(), 128);
    for ev in &events {
        let expected = if ev.x < 8 { 2 } else { 1 };
        assert_eq!(ev.color_index, expected, "at ({}, {})", ev.x, ev.y);
    }
}

