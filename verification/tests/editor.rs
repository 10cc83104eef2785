use sfsprite::codec::ContainerError;
use sfsprite::editor::SFSpriteEditor;
use sfsprite::gbacolor::GBAColor;
use sfsprite::sfsprite::{
    ColorDepth, SFSpriteAnimationHeader, SFSpriteFileHeader, SFSpritePaletteHeader,
    SFSpriteSpriteHeader, SFSpriteTilesetEntry, SFSpriteTilesetHeader,
};

fn tiny_document() -> SFSpriteFileHeader {
    SFSpriteFileHeader {
        tile_number_shift: 0,
        tileset_header: SFSpriteTilesetHeader {
            max_tiles: 1,
            tileset_entries: vec![SFSpriteTilesetEntry { amount: 1, offset: 0 }],
            tileset_data: vec![0u8; 64],
        },
        palette_header: SFSpritePaletteHeader {
            color_depth: ColorDepth::Depth8BPP,
            palettes: vec![[GBAColor(0); 16]],
        },
        animation_header: SFSpriteAnimationHeader { animations: vec![] },
        sprite_header: SFSpriteSpriteHeader { sprites: vec![] },
    }
}

#[test]
fn undo_before_any_record_is_a_noop() {
    let mut ed = SFSpriteEditor::from_document(tiny_document());
    for _ in 0..5 {
        ed.undo();
    }
    assert_eq!(*ed.document(), tiny_document());
}

#[test]
fn n_records_then_n_undos_return_to_the_initial_document() {
    let mut ed = SFSpriteEditor::from_document(tiny_document());
    // Three edits, each committed before the next change.
    for step in 1..=3u8 {
        ed.record();
        ed.set_pixel_by_index(0, step as usize, step as usize).unwrap();
    }
    assert_eq!(ed.document().tileset_header.tileset_data[3], 3);
    for _ in 0..3 {
        ed.undo();
    }
    assert_eq!(*ed.document(), tiny_document());
    // A further undo stays put.
    ed.undo();
    assert_eq!(*ed.document(), tiny_document());
}

#[test]
fn redo_walks_forward_again() {
    let mut ed = SFSpriteEditor::from_document(tiny_document());
    ed.record();
    ed.set_pixel_by_index(0, 1, 7).unwrap();
    ed.record();
    ed.set_pixel_by_index(0, 2, 9).unwrap();
    ed.undo();
    ed.undo();
    assert_eq!(*ed.document(), tiny_document());
    ed.redo();
    assert_eq!(ed.document().tileset_header.tileset_data[1], 0);
    ed.redo();
    assert_eq!(ed.document().tileset_header.tileset_data[1], 7);
    // At the top of the stack, redo stays put.
    let before = ed.document().clone();
    ed.redo();
    assert_eq!(*ed.document(), before);
}

#[test]
fn record_after_undo_discards_the_redo_branch() {
    let mut ed = SFSpriteEditor::from_document(tiny_document());
    ed.record();
    ed.set_pixel_by_index(0, 1, 7).unwrap();
    ed.record();
    ed.set_pixel_by_index(0, 2, 9).unwrap();
    ed.undo();
    ed.undo();
    // A new commit on the old state: the undone branch is gone.
    ed.record();
    ed.set_pixel_by_index(0, 5, 5).unwrap();
    let changed = ed.document().clone();
    ed.redo();
    assert_eq!(*ed.document(), changed);
}

#[test]
fn set_pixel_rejects_out_of_range_indices() {
    let mut ed = SFSpriteEditor::from_document(tiny_document());
    assert_eq!(ed.set_pixel_by_index(1, 0, 1), Err(ContainerError::IndexOutOfRange));
    assert_eq!(ed.set_pixel_by_index(0, 64, 1), Err(ContainerError::IndexOutOfRange));
    assert_eq!(ed.set_pixel_by_index(0, 0, 256), Err(ContainerError::IndexOutOfRange));
    assert_eq!(*ed.document(), tiny_document());
    assert_eq!(ed.set_pixel_by_index(0, 63, 255), Ok(()));
    assert_eq!(ed.document().tileset_header.tileset_data[63], 255);
}

#[test]
fn load_and_export_round_trip_through_the_editor() {
    let ed = SFSpriteEditor::from_document(tiny_document());
    let bytes = ed.export_to_buffer().expect("a well-formed document encodes");
    let again = SFSpriteEditor::from_data(&bytes).expect("the encoding decodes");
    assert_eq!(*again.document(), tiny_document());

    let mut third = SFSpriteEditor::new();
    third.load_from_data(&bytes).expect("the encoding loads");
    assert_eq!(*third.document(), tiny_document());
}

#[test]
fn load_failure_keeps_the_session() {
    let mut ed = SFSpriteEditor::from_document(tiny_document());
    ed.set_pixel_by_index(0, 0, 9).unwrap();
    let before = ed.document().clone();
    assert_eq!(ed.load_from_data(&[1, 2, 3]), Err(ContainerError::TruncatedInput));
    assert_eq!(*ed.document(), before);
}

#[test]
fn fresh_editor_holds_the_empty_document() {
    let ed = SFSpriteEditor::new();
    assert_eq!(ed.document().tileset_header.tileset_data.len(), 0);
    assert_eq!(ed.document().palette_header.color_depth, ColorDepth::Depth4BPP);
    assert_eq!(ed.document().tile_number_shift, 0);
}
