use sfsprite::codec::{decode, encode, pack_tile_data, unpack_tile_data, ContainerError};
use sfsprite::gbacolor::GBAColor;
use sfsprite::sfsprite::{
    ColorDepth, FilpFlag, LoopFlag, ObjectShape, SFSpriteAnimationEntry, SFSpriteAnimationFrame,
    SFSpriteAnimationHeader, SFSpriteFileHeader, SFSpritePaletteHeader, SFSpriteSpriteEntry,
    SFSpriteSpriteHeader, SFSpriteSpriteObject, SFSpriteTilesetEntry, SFSpriteTilesetHeader,
};

fn palette_of(first: u16, second: u16) -> [GBAColor; 16] {
    let mut pal = [GBAColor(0); 16];
    pal[0] = GBAColor(first);
    pal[1] = GBAColor(second);
    pal
}

fn sample_document(depth: ColorDepth) -> SFSpriteFileHeader {
    // One sprite over two tiles of nibble-sized pixels, one palette, one
    // two-frame animation.
    let mut data = vec![0u8; 128];
    data[0] = 1;
    data[64] = 2;
    data[127] = 3;
    SFSpriteFileHeader {
        tile_number_shift: 1,
        tileset_header: SFSpriteTilesetHeader {
            max_tiles: 16,
            tileset_entries: vec![SFSpriteTilesetEntry { amount: 2, offset: 0 }],
            tileset_data: data,
        },
        palette_header: SFSpritePaletteHeader {
            color_depth: depth,
            palettes: vec![palette_of(0x0000, 0x7FFF)],
        },
        animation_header: SFSpriteAnimationHeader {
            animations: vec![SFSpriteAnimationEntry {
                frames: vec![
                    SFSpriteAnimationFrame {
                        sprite_id: 0,
                        delay: 5,
                        loop_flag: LoopFlag::NoLoop,
                        palette_id: 0,
                    },
                    SFSpriteAnimationFrame {
                        sprite_id: 0,
                        delay: 6,
                        loop_flag: LoopFlag::Loop,
                        palette_id: 0,
                    },
                ],
            }],
        },
        sprite_header: SFSpriteSpriteHeader {
            sprites: vec![SFSpriteSpriteEntry {
                objects: vec![SFSpriteSpriteObject {
                    tile_index_lower: 0,
                    x: -4,
                    y: 3,
                    shape: ObjectShape::Size16x8,
                    flip_flag: FilpFlag::NoFlip,
                    is_last: 1,
                    tile_index_upper: 0,
                }],
            }],
        },
    }
}

#[test]
fn round_trip_4bpp() {
    let doc = sample_document(ColorDepth::Depth4BPP);
    let bytes = encode(&doc).expect("a well-formed document encodes");
    let back = decode(&bytes).expect("the encoding decodes");
    assert_eq!(doc, back);
}

#[test]
fn round_trip_8bpp() {
    let doc = sample_document(ColorDepth::Depth8BPP);
    let bytes = encode(&doc).expect("a well-formed document encodes");
    let back = decode(&bytes).expect("the encoding decodes");
    assert_eq!(doc, back);
}

#[test]
fn round_trip_twice_is_stable() {
    let doc = sample_document(ColorDepth::Depth4BPP);
    let bytes = encode(&doc).unwrap();
    let once = decode(&bytes).unwrap();
    let bytes_again = encode(&once).unwrap();
    assert_eq!(bytes, bytes_again);
    assert_eq!(once, decode(&bytes_again).unwrap());
}

#[test]
fn header_layout_is_little_endian_offsets() {
    let doc = sample_document(ColorDepth::Depth8BPP);
    let bytes = encode(&doc).unwrap();
    // The tileset begins right after the 20-byte header.
    assert_eq!(&bytes[0..4], &[20, 0, 0, 0]);
    // The tile-number shift stands at byte 16.
    assert_eq!(&bytes[16..20], &[1, 0, 0, 0]);
    // The tileset head: capacity 16, two 32-byte units... (8BPP keeps the
    // 128 bytes, so four units), table size 1 * 4 + 8.
    assert_eq!(&bytes[20..22], &[16, 0]);
    assert_eq!(&bytes[22..24], &[4, 0]);
    assert_eq!(&bytes[24..26], &[12, 0]);
}

#[test]
fn sentinel_invariant_on_decoded_entries() {
    let doc = sample_document(ColorDepth::Depth4BPP);
    let bytes = encode(&doc).unwrap();
    let back = decode(&bytes).unwrap();
    for entry in &back.animation_header.animations {
        let frames = &entry.frames;
        assert!(!frames.is_empty());
        assert_ne!(frames.last().unwrap().loop_flag, LoopFlag::NoLoop);
        for f in &frames[..frames.len() - 1] {
            assert_eq!(f.loop_flag, LoopFlag::NoLoop);
        }
    }
    for entry in &back.sprite_header.sprites {
        let objects = &entry.objects;
        assert!(!objects.is_empty());
        assert_ne!(objects.last().unwrap().is_last, 0);
        for o in &objects[..objects.len() - 1] {
            assert_eq!(o.is_last, 0);
        }
    }
}

#[test]
fn depth_conversion_idempotent_for_all_bytes() {
    for b in 0..=255u8 {
        let packed = vec![b];
        let unpacked = unpack_tile_data(&packed);
        assert_eq!(unpacked, vec![b & 0xF, b >> 4]);
        assert_eq!(pack_tile_data(&unpacked), packed);
    }
}

#[test]
fn short_input_is_truncated() {
    assert_eq!(decode(&[]), Err(ContainerError::TruncatedInput));
    assert_eq!(decode(&[0u8; 19]), Err(ContainerError::TruncatedInput));
}

#[test]
fn unknown_palette_tag_is_rejected() {
    let doc = sample_document(ColorDepth::Depth8BPP);
    let mut bytes = encode(&doc).unwrap();
    // The palette section begins right after the tileset: its first two
    // bytes are the depth tag.
    let pal_off = u32::from_le_bytes(bytes[4..8].try_into().unwrap()) as usize;
    bytes[pal_off] = 9;
    assert_eq!(decode(&bytes), Err(ContainerError::UnknownColorDepth));
}

#[test]
fn undersized_table_head_is_malformed() {
    let doc = sample_document(ColorDepth::Depth8BPP);
    let mut bytes = encode(&doc).unwrap();
    // The tileset's header_size field (bytes 24..26) must be at least 8.
    bytes[24] = 7;
    bytes[25] = 0;
    assert_eq!(decode(&bytes), Err(ContainerError::MalformedSection));
}

#[test]
fn unknown_loop_tag_is_malformed() {
    let doc = sample_document(ColorDepth::Depth8BPP);
    let mut bytes = encode(&doc).unwrap();
    let anim_off = u32::from_le_bytes(bytes[8..12].try_into().unwrap()) as usize;
    // First frame record starts 8 bytes into the section (head + one table
    // slot); its loop flag is its third byte.
    bytes[anim_off + 8 + 2] = 0x17;
    assert_eq!(decode(&bytes), Err(ContainerError::MalformedSection));
}

#[test]
fn unknown_shape_tag_is_malformed() {
    let doc = sample_document(ColorDepth::Depth8BPP);
    let mut bytes = encode(&doc).unwrap();
    let sprite_off = u32::from_le_bytes(bytes[12..16].try_into().unwrap()) as usize;
    // First object record starts 8 bytes into the section; its shape tag
    // occupies bytes 3..5 of the record.
    bytes[sprite_off + 8 + 3] = 0xEE;
    bytes[sprite_off + 8 + 4] = 0xEE;
    assert_eq!(decode(&bytes), Err(ContainerError::MalformedSection));
}

#[test]
fn missing_sentinel_is_rejected_on_encode() {
    let mut doc = sample_document(ColorDepth::Depth8BPP);
    doc.sprite_header.sprites[0].objects[0].is_last = 0;
    assert_eq!(encode(&doc), Err(ContainerError::MalformedSection));
}

#[test]
fn empty_animation_is_rejected_on_encode() {
    let mut doc = sample_document(ColorDepth::Depth8BPP);
    doc.animation_header.animations.push(SFSpriteAnimationEntry { frames: vec![] });
    assert_eq!(encode(&doc), Err(ContainerError::MalformedSection));
}

#[test]
fn color_channels_widen_to_eight_bits() {
    let white = GBAColor(0x7FFF);
    assert_eq!(white.to_rgb(), (248, 248, 248));
    assert_eq!(white.to_rgb_u32(), 0x00F8F8F8);
    let red = GBAColor(0x001F);
    assert_eq!(red.to_rgb(), (248, 0, 0));
    assert_eq!(GBAColor(0).to_rgb_u32(), 0);
}

#[test]
fn shape_tables_are_consistent() {
    let shapes = [
        ObjectShape::Size8x8,
        ObjectShape::Size16x8,
        ObjectShape::Size8x16,
        ObjectShape::Size16x16,
        ObjectShape::Size32x8,
        ObjectShape::Size8x32,
        ObjectShape::Size32x32,
        ObjectShape::Size32x16,
        ObjectShape::Size16x32,
        ObjectShape::Size64x64,
        ObjectShape::Size64x32,
        ObjectShape::Size32x64,
    ];
    for s in shapes {
        assert_eq!(s.width(), 8 * s.tile_width_amount());
        assert_eq!(s.height(), 8 * s.tile_height_amount());
        assert_eq!(s.tile_amount(), s.tile_width_amount() * s.tile_height_amount());
    }
    assert_eq!(ObjectShape::Size64x32.tile_amount(), 32);
}

#[test]
fn depth_constants() {
    assert_eq!(ColorDepth::Depth4BPP.tile_size(), 32);
    assert_eq!(ColorDepth::Depth8BPP.tile_size(), 64);
    assert_eq!(ColorDepth::Depth4BPP.tile_data_width(), 4);
    assert_eq!(ColorDepth::Depth8BPP.tile_data_width(), 8);
}

#[test]
fn flip_flag_axes() {
    assert!(!FilpFlag::NoFlip.is_horizontal());
    assert!(!FilpFlag::NoFlip.is_vertical());
    assert!(FilpFlag::Horizontal.is_horizontal());
    assert!(!FilpFlag::Horizontal.is_vertical());
    assert!(!FilpFlag::Vertical.is_horizontal());
    assert!(FilpFlag::Vertical.is_vertical());
    assert!(FilpFlag::Both.is_horizontal());
    assert!(FilpFlag::Both.is_vertical());
}

#[test]
fn round_trip_with_several_variable_length_entries() {
    // Two animations and two sprites of different lengths: every stored
    // table offset must land on its own entry's records.
    let mut doc = sample_document(ColorDepth::Depth4BPP);
    doc.animation_header.animations.push(SFSpriteAnimationEntry {
        frames: vec![
            SFSpriteAnimationFrame { sprite_id: 1, delay: 1, loop_flag: LoopFlag::NoLoop, palette_id: 0 },
            SFSpriteAnimationFrame { sprite_id: 1, delay: 2, loop_flag: LoopFlag::NoLoop, palette_id: 0 },
            SFSpriteAnimationFrame { sprite_id: 1, delay: 3, loop_flag: LoopFlag::End, palette_id: 0 },
        ],
    });
    doc.sprite_header.sprites.push(SFSpriteSpriteEntry {
        objects: vec![
            SFSpriteSpriteObject {
                tile_index_lower: 1,
                x: 8,
                y: -8,
                shape: ObjectShape::Size8x8,
                flip_flag: FilpFlag::Both,
                is_last: 0,
                tile_index_upper: 0,
            },
            SFSpriteSpriteObject {
                tile_index_lower: 2,
                x: -128,
                y: 127,
                shape: ObjectShape::Size64x64,
                flip_flag: FilpFlag::Vertical,
                is_last: 7,
                tile_index_upper: 1,
            },
        ],
    });
    let bytes = encode(&doc).unwrap();
    let back = decode(&bytes).unwrap();
    assert_eq!(doc, back);
    assert_eq!(back.animation_header.animations[1].frames.len(), 3);
    assert_eq!(back.sprite_header.sprites[1].objects[1].x, -128);
    assert_eq!(back.sprite_header.sprites[1].objects[1].is_last, 7);
}

